use vstd::prelude::*;
use vstd::string::StringExecFns;

verus! {

/// The hash `std`'s `DefaultHasher::new()` gives after `write_u8` of each byte of `data`.
pub uninterp spec fn default_hash_of(data: Seq<u8>) -> u64;

/// Relies on `std::collections::hash_map::DefaultHasher`: one made with `new()` starts from
/// fixed keys, so the hash of the bytes written one by one depends on the bytes alone.
#[verifier::external_body]
fn hash_bytes(data: &[u8]) -> (r: u64)
    ensures
        r == default_hash_of(data@),
{
    let mut hasher = std::collections::hash_map::DefaultHasher::new();
    for byte in data {
        std::hash::Hasher::write_u8(&mut hasher, *byte);
    }
    std::hash::Hasher::finish(&hasher)
}

/// The decimal digit `d`.
pub open spec fn digit_char(d: nat) -> char {
    if d == 0 { '0' }
    else if d == 1 { '1' }
    else if d == 2 { '2' }
    else if d == 3 { '3' }
    else if d == 4 { '4' }
    else if d == 5 { '5' }
    else if d == 6 { '6' }
    else if d == 7 { '7' }
    else if d == 8 { '8' }
    else { '9' }
}

/// `n` written in decimal, without leading zeros.
pub open spec fn decimal(n: nat) -> Seq<char>
    decreases n,
{
    if n < 10 {
        seq![digit_char(n)]
    } else {
        decimal(n / 10).push(digit_char(n % 10))
    }
}

fn digit_str(d: u64) -> (r: &'static str)
    requires
        d < 10,
    ensures
        r@ == seq![digit_char(d as nat)],
{
    proof {
        reveal_strlit("0");
        reveal_strlit("1");
        reveal_strlit("2");
        reveal_strlit("3");
        reveal_strlit("4");
        reveal_strlit("5");
        reveal_strlit("6");
        reveal_strlit("7");
        reveal_strlit("8");
        reveal_strlit("9");
    }
    if d == 0 { "0" }
    else if d == 1 { "1" }
    else if d == 2 { "2" }
    else if d == 3 { "3" }
    else if d == 4 { "4" }
    else if d == 5 { "5" }
    else if d == 6 { "6" }
    else if d == 7 { "7" }
    else if d == 8 { "8" }
    else { "9" }
}

/// `n` in decimal.
pub fn decimal_string(n: u64) -> (r: String)
    ensures
        r@ == decimal(n as nat),
    decreases n,
{
    if n < 10 {
        let mut s = String::new();
        s.append(digit_str(n));
        proof {
            assert(s@ =~= seq![digit_char(n as nat)]);
        }
        s
    } else {
        let mut s = decimal_string(n / 10);
        s.append(digit_str(n % 10));
        s
    }
}

/// Directory that holds the trained compression dictionaries.
pub fn dict_dir_path() -> (r: String)
    ensures
        r@ == "./dictionary/"@,
{
    String::from_str("./dictionary/")
}

/// File of the dictionary for messages of `kind`.
pub fn dict_file_path(kind: &str) -> (r: String)
    ensures
        r@ == "./dictionary/"@ + kind@ + ".dict"@,
{
    let mut p = dict_dir_path();
    p.append(kind);
    p.append(".dict");
    p
}

/// Directory that holds the sample messages of `kind`.
pub fn sample_dir_path(kind: &str) -> (r: String)
    ensures
        r@ == "./messages/"@ + kind@ + "/"@,
{
    let mut p = String::from_str("./messages/");
    p.append(kind);
    p.append("/");
    p
}

/// File name of a sample message: its hash, in decimal, and `.sample`.
pub fn file_name(data: &[u8]) -> (r: String)
    ensures
        r@ == decimal(default_hash_of(data@) as nat) + ".sample"@,
{
    let mut name = decimal_string(hash_bytes(data));
    name.append(".sample");
    name
}

} // verus!
