use vstd::prelude::*;

verus! {

/// Largest compressed update message that is sent, in bytes (exclusive).
pub const MESSAGE_CEILING: usize = 3000;

/// Largest decompressed message that is accepted, in bytes.
pub const MAX_DECOMPRESSED: usize = 10 * 1024;

/// The zstd frame that compressing `data` at the default level gives.
pub uninterp spec fn zstd_compressed(data: Seq<u8>) -> Seq<u8>;

/// The content of `data` when it is a valid zstd frame, `None` when it is not.
pub uninterp spec fn zstd_decompressed(data: Seq<u8>) -> Option<Seq<u8>>;

/// Relies on `zstd::bulk::compress` at level 0 (zstd's default level): it compresses into a
/// buffer of `compress_bound` bytes, which zstd always fits, so it returns the compressed
/// frame, and that depends on the bytes alone.
#[verifier::external_body]
fn compress(data: &[u8]) -> (r: Vec<u8>)
    ensures
        r@ == zstd_compressed(data@),
{
    match zstd::bulk::compress(data, 0) {
        Ok(v) => v,
        Err(_) => Vec::new(),
    }
}

/// Relies on `zstd::bulk::decompress`: it fails exactly when `data` is no valid frame or its
/// content is longer than `capacity`; otherwise it returns the content.
#[verifier::external_body]
fn decompress(data: &[u8], capacity: usize) -> (r: Option<Vec<u8>>)
    ensures
        r is Some <==> (zstd_decompressed(data@) is Some && zstd_decompressed(data@).unwrap().len() <= capacity),
        r is Some ==> r.unwrap()@ == zstd_decompressed(data@).unwrap(),
{
    zstd::bulk::decompress(data, capacity).ok()
}

/// Keeps a compressed update only when it is under the per-message ceiling.
pub fn within_ceiling(compressed: Vec<u8>) -> (r: Option<Vec<u8>>)
    ensures
        compressed@.len() < MESSAGE_CEILING ==> r == Some(compressed),
        compressed@.len() >= MESSAGE_CEILING ==> r is None,
{
    if compressed.len() < MESSAGE_CEILING {
        Some(compressed)
    } else {
        None
    }
}

/// Compresses a serialized update message for the wire; `None` when the compressed message
/// is over the ceiling (the message is dropped and its contents go out later).
pub fn frame_update(serialized: &[u8]) -> (r: Option<Vec<u8>>)
    ensures
        zstd_compressed(serialized@).len() < MESSAGE_CEILING ==> r is Some && r.unwrap()@ == zstd_compressed(
            serialized@,
        ),
        zstd_compressed(serialized@).len() >= MESSAGE_CEILING ==> r is None,
{
    within_ceiling(compress(serialized))
}

/// Compresses a serialized input message for the wire.
pub fn frame_input(serialized: &[u8]) -> (r: Vec<u8>)
    ensures
        r@ == zstd_compressed(serialized@),
{
    compress(serialized)
}

/// Decompresses a message from the wire; `None` exactly when it is no valid frame or its
/// content is over `MAX_DECOMPRESSED` bytes.
pub fn open_message(bytes: &[u8]) -> (r: Option<Vec<u8>>)
    ensures
        r is Some <==> (zstd_decompressed(bytes@) is Some && zstd_decompressed(bytes@).unwrap().len()
            <= MAX_DECOMPRESSED),
        r is Some ==> r.unwrap()@ == zstd_decompressed(bytes@).unwrap(),
{
    decompress(bytes, MAX_DECOMPRESSED)
}

} // verus!
