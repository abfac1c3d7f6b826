use vstd::prelude::*;

use crate::ordered_map::OrderedMap;
use crate::tick::NetworkTick;

verus! {

/// Number of ticks that one ack covers.
pub const ACK_WINDOW: u64 = 32;

/// Bit `k` of `x` is set.
pub open spec fn bit_set(x: u32, k: u32) -> bool {
    x & (1u32 << k) != 0
}

proof fn lemma_bit_or_one(x: u32, k: u32, j: u32)
    requires
        k < 32,
        j < 32,
    ensures
        bit_set(x | (1u32 << k), j) == (bit_set(x, j) || j == k),
{
    assert((x | (1u32 << k)) & (1u32 << j) != 0 <==> (x & (1u32 << j) != 0 || j == k))
        by (bit_vector)
        requires
            k < 32,
            j < 32,
    ;
}

proof fn lemma_bit_or(x: u32, y: u32, j: u32)
    requires
        j < 32,
    ensures
        bit_set(x | y, j) == (bit_set(x, j) || bit_set(y, j)),
{
    assert((x | y) & (1u32 << j) != 0 <==> (x & (1u32 << j) != 0 || y & (1u32 << j) != 0))
        by (bit_vector)
        requires
            j < 32,
    ;
}

proof fn lemma_bit_shl(x: u32, d: u32, j: u32)
    requires
        d < 32,
        j < 32,
    ensures
        bit_set(x << d, j) == (j >= d && bit_set(x, (j - d) as u32)),
{
    assert((x << d) & (1u32 << j) != 0 <==> (j >= d && x & (1u32 << ((j - d) as u32)) != 0))
        by (bit_vector)
        requires
            d < 32,
            j < 32,
    ;
}

proof fn lemma_bit_zero(j: u32)
    requires
        j < 32,
    ensures
        !bit_set(0, j),
{
    assert(0u32 & (1u32 << j) == 0) by (bit_vector);
}

/// Bitset of the ticks just before `base` that were received: bit `k` stands for tick
/// `base - 1 - k`.
#[derive(Debug, Clone, Copy, PartialEq, Eq, Structural)]
pub struct NetworkAck {
    pub base: NetworkTick,
    pub ack: u32,
}

impl NetworkAck {
    /// `t` lies in the window of ticks that an ack with this base covers.
    pub open spec fn in_window(base: u64, t: int) -> bool {
        0 <= base - 1 - t < ACK_WINDOW
    }

    /// Tick `t` is marked as received.
    pub open spec fn acked_spec(&self, t: int) -> bool {
        Self::in_window(self.base.0 as u64, t) && bit_set(self.ack, (self.base.0 - 1 - t) as u32)
    }

    /// Tick `t` falls out of the window when the base moves to `new_base` and was never
    /// acknowledged; past a whole window the ticks `[base + 32, new_base)` come too.
    pub open spec fn dropped_spec(&self, new_base: u64, t: int) -> bool {
        let base = self.base.0 as int;
        ||| (0 <= t && base - ACK_WINDOW <= t && t < base && t <= new_base - ACK_WINDOW - 1
            && !self.acked_spec(t))
        ||| (new_base - base >= ACK_WINDOW && base + ACK_WINDOW <= t && t < new_base)
    }

    /// The ack after `ack(t)`.
    pub open spec fn after_ack(self, t: int) -> NetworkAck {
        if Self::in_window(self.base.0 as u64, t) {
            NetworkAck { base: self.base, ack: self.ack | (1u32 << (self.base.0 - 1 - t) as u32) }
        } else {
            self
        }
    }

    /// `r` is what `set_base(new_base)` hands back: the dropped ticks, each once, oldest first.
    pub open spec fn reports(self, new_base: u64, r: Seq<NetworkTick>) -> bool {
        &&& forall|i: int, j: int| 0 <= i < j < r.len() ==> r[i].0 < r[j].0
        &&& forall|i: int| 0 <= i < r.len() ==> self.dropped_spec(new_base, r[i].0 as int)
        &&& forall|t: u64| self.dropped_spec(new_base, t as int) ==> exists|i: int|
            0 <= i < r.len() && r[i].0 == t
    }

    /// A fresh ack: base `base`, nothing marked.
    pub open spec fn new_spec(base: NetworkTick) -> NetworkAck {
        NetworkAck { base, ack: 0 }
    }

    pub fn new(base: NetworkTick) -> (r: NetworkAck)
        ensures
            r == Self::new_spec(base),
            forall|t: int| !r.acked_spec(t),
    {
        let r = NetworkAck { base, ack: 0 };
        proof {
            assert forall|t: int| !r.acked_spec(t) by {
                if Self::in_window(base.0, t) {
                    lemma_bit_zero((base.0 - 1 - t) as u32);
                }
            }
        }
        r
    }

    pub fn base(&self) -> (r: NetworkTick)
        ensures
            r == self.base,
    {
        self.base
    }

    pub fn bits(&self) -> (r: u32)
        ensures
            r == self.ack,
    {
        self.ack
    }

    /// Whether `tick` is marked as received.
    pub fn acked(&self, tick: &NetworkTick) -> (r: bool)
        ensures
            r == self.acked_spec(tick.0 as int),
    {
        if self.base.0 > tick.0 && self.base.0 - 1 - tick.0 < ACK_WINDOW {
            let k = (self.base.0 - 1 - tick.0) as u32;
            self.ack & (1u32 << k) != 0
        } else {
            false
        }
    }

    /// Marks `tick` as received when it lies in the window.
    pub fn ack(&mut self, tick: &NetworkTick)
        ensures
            *final(self) == old(self).after_ack(tick.0 as int),
            final(self).base == old(self).base,
            Self::in_window(old(self).base.0 as u64, tick.0 as int) ==> final(self).ack == old(
                self,
            ).ack | (1u32 << (old(self).base.0 - 1 - tick.0) as u32),
            !Self::in_window(old(self).base.0 as u64, tick.0 as int) ==> final(self).ack == old(
                self,
            ).ack,
            forall|t: int| #[trigger]
                final(self).acked_spec(t) == (old(self).acked_spec(t) || (t == tick.0
                    && Self::in_window(old(self).base.0 as u64, t))),
    {
        if self.base.0 > tick.0 && self.base.0 - 1 - tick.0 < ACK_WINDOW {
            let k = (self.base.0 - 1 - tick.0) as u32;
            let ghost before = *self;
            self.ack = self.ack | (1u32 << k);
            proof {
                assert forall|t: int| #[trigger]
                    self.acked_spec(t) == (before.acked_spec(t) || (t == tick.0 && Self::in_window(
                        before.base.0 as u64,
                        t,
                    ))) by {
                    if Self::in_window(self.base.0 as u64, t) {
                        lemma_bit_or_one(before.ack, k, (self.base.0 - 1 - t) as u32);
                    }
                }
            }
        }
    }

    /// Folds in the acks that `other` records, where `other`'s base is not ahead of ours.
    pub fn apply_ack(&mut self, other: &NetworkAck)
        ensures
            final(self).base == old(self).base,
            old(self).base.0 >= other.base.0 && old(self).base.0 - other.base.0 < ACK_WINDOW
                ==> final(self).ack == old(self).ack | (other.ack << (old(self).base.0
                - other.base.0) as u32),
            !(old(self).base.0 >= other.base.0 && old(self).base.0 - other.base.0 < ACK_WINDOW)
                ==> final(self).ack == old(self).ack,
            old(self).base.0 >= other.base.0 ==> forall|t: int| #[trigger]
                final(self).acked_spec(t) == (old(self).acked_spec(t) || (other.acked_spec(t)
                    && Self::in_window(old(self).base.0 as u64, t))),
    {
        let ghost before = *self;
        if self.base.0 >= other.base.0 {
            let d = self.base.0 - other.base.0;
            if d < ACK_WINDOW {
                self.ack = self.ack | (other.ack << (d as u32));
                proof {
                    assert forall|t: int| #[trigger]
                        self.acked_spec(t) == (before.acked_spec(t) || (other.acked_spec(t)
                            && Self::in_window(before.base.0 as u64, t))) by {
                        if Self::in_window(self.base.0 as u64, t) {
                            let j = (self.base.0 - 1 - t) as u32;
                            lemma_bit_or(before.ack, other.ack << (d as u32), j);
                            lemma_bit_shl(other.ack, d as u32, j);
                        }
                    }
                }
            } else {
                proof {
                    assert forall|t: int| #[trigger]
                        self.acked_spec(t) == (before.acked_spec(t) || (other.acked_spec(t)
                            && Self::in_window(before.base.0 as u64, t))) by {
                        if other.acked_spec(t) {
                            assert(!Self::in_window(before.base.0 as u64, t));
                        }
                    }
                }
            }
        }
    }

    /// Moves the base to `new_base` and hands back, oldest first, the ticks that fell out of
    /// the window without being acknowledged.
    pub fn set_base(&mut self, new_base: NetworkTick) -> (r: Vec<NetworkTick>)
        ensures
            final(self).base == new_base,
            new_base.0 >= old(self).base.0 + ACK_WINDOW ==> final(self).ack == 0,
            old(self).base.0 < new_base.0 < old(self).base.0 + ACK_WINDOW ==> final(self).ack
                == old(self).ack << (new_base.0 - old(self).base.0) as u32,
            new_base.0 <= old(self).base.0 ==> final(self).ack == old(self).ack,
            old(self).reports(new_base.0, r@),
    {
        let ghost before = *self;
        let base = self.base.0;
        let mut unacked: Vec<NetworkTick> = Vec::new();
        let lo: u64 = if new_base.0 <= base {
            ACK_WINDOW
        } else if new_base.0 - base >= ACK_WINDOW {
            0
        } else {
            ACK_WINDOW - (new_base.0 - base)
        };
        let mut k: u64 = ACK_WINDOW;
        while k > lo
            invariant
                lo <= k <= ACK_WINDOW,
                base == before.base.0,
                *self == before,
                lo == (if new_base.0 <= base {
                    ACK_WINDOW as int
                } else if new_base.0 - base >= ACK_WINDOW {
                    0
                } else {
                    ACK_WINDOW - (new_base.0 - base)
                }),
                forall|i: int, j: int| 0 <= i < j < unacked@.len() ==> unacked@[i].0 < unacked@[j].0,
                forall|i: int|
                    0 <= i < unacked@.len() ==> before.dropped_spec(new_base.0, unacked@[i].0 as int)
                        && unacked@[i].0 < base - k,
                forall|t: u64|
                    before.dropped_spec(new_base.0, t as int) && t < base - k ==> exists|i: int|
                        0 <= i < unacked@.len() && unacked@[i].0 == t,
            decreases k,
        {
            k = k - 1;
            if base > k {
                let t = base - k - 1;
                let kk = k as u32;
                if self.ack & (1u32 << kk) == 0 {
                    let ghost prev = unacked@;
                    unacked.push(NetworkTick::new(t));
                    proof {
                        let n = unacked@.len() - 1;
                        assert(unacked@[n].0 == t);
                        assert forall|tt: u64|
                            before.dropped_spec(new_base.0, tt as int) && tt < base - k implies exists|i: int|
                            0 <= i < unacked@.len() && unacked@[i].0 == tt by {
                            if tt != t {
                                assert(tt < base - (k + 1));
                                let i = choose|i: int| 0 <= i < prev.len() && prev[i].0 == tt;
                                assert(unacked@[i] == prev[i]);
                            }
                        }
                    }
                } else {
                    proof {
                        assert(before.acked_spec(t as int));
                    }
                }
            }
        }
        if new_base.0 >= base && new_base.0 - base >= ACK_WINDOW {
            let mut t: u64 = base + ACK_WINDOW;
            proof {
                assert forall|tt: u64|
                    before.dropped_spec(new_base.0, tt as int) && tt < t implies exists|i: int|
                    0 <= i < unacked@.len() && unacked@[i].0 == tt by {
                    assert(tt < base - k);
                }
            }
            while t < new_base.0
                invariant
                    base + ACK_WINDOW <= t <= new_base.0,
                    new_base.0 - base >= ACK_WINDOW,
                    base == before.base.0,
                    forall|i: int, j: int| 0 <= i < j < unacked@.len() ==> unacked@[i].0 < unacked@[j].0,
                    forall|i: int|
                        0 <= i < unacked@.len() ==> before.dropped_spec(new_base.0, unacked@[i].0 as int)
                            && unacked@[i].0 < t,
                    forall|tt: u64|
                        before.dropped_spec(new_base.0, tt as int) && tt < t ==> exists|i: int|
                            0 <= i < unacked@.len() && unacked@[i].0 == tt,
                decreases new_base.0 - t,
            {
                let ghost prev = unacked@;
                unacked.push(NetworkTick::new(t));
                proof {
                    let n = unacked@.len() - 1;
                    assert(unacked@[n].0 == t);
                    assert forall|tt: u64|
                        before.dropped_spec(new_base.0, tt as int) && tt < t + 1 implies exists|i: int|
                        0 <= i < unacked@.len() && unacked@[i].0 == tt by {
                        if tt != t {
                            assert(tt < t);
                            let i = choose|i: int| 0 <= i < prev.len() && prev[i].0 == tt;
                            assert(unacked@[i] == prev[i]);
                        }
                    }
                }
                t = t + 1;
            }
            self.ack = 0;
        } else if new_base.0 > base {
            self.ack = self.ack << ((new_base.0 - base) as u32);
        }
        self.base = new_base;
        unacked
    }
}

/// The latest ack heard from each client.
pub struct ClientAcks {
    pub acks: OrderedMap<NetworkAck>,
}

impl ClientAcks {
    pub fn new() -> (r: ClientAcks)
        ensures
            r.acks@ == Map::<u64, NetworkAck>::empty(),
    {
        ClientAcks { acks: OrderedMap::new() }
    }

    /// Records `ack` from `client_id`, folding it into what the client sent before.
    pub fn apply_ack(&mut self, client_id: u64, ack: &NetworkAck)
        ensures
            final(self).acks@.dom() == old(self).acks@.dom().insert(client_id),
            forall|c: u64| c != client_id ==> old(self).acks@.contains_key(c) ==> #[trigger] final(self).acks@[c]
                == old(self).acks@[c],
            !old(self).acks@.contains_key(client_id) ==> final(self).acks@[client_id] == *ack,
            old(self).acks@.contains_key(client_id) ==> {
                let prev = old(self).acks@[client_id];
                let now = final(self).acks@[client_id];
                &&& now.base == prev.base
                &&& prev.base.0 >= ack.base.0 && prev.base.0 - ack.base.0 < ACK_WINDOW ==> now.ack
                    == prev.ack | (ack.ack << (prev.base.0 - ack.base.0) as u32)
                &&& !(prev.base.0 >= ack.base.0 && prev.base.0 - ack.base.0 < ACK_WINDOW) ==> now.ack
                    == prev.ack
            },
    {
        match self.acks.remove(client_id) {
            Some(mut prev) => {
                prev.apply_ack(ack);
                self.acks.insert(client_id, prev);
            },
            None => {
                self.acks.insert(client_id, *ack);
            },
        }
        proof {
            assert(self.acks@.dom() =~= old(self).acks@.dom().insert(client_id));
        }
    }

    pub fn get(&self, client_id: u64) -> (r: Option<&NetworkAck>)
        ensures
            match r {
                Some(a) => self.acks@.contains_key(client_id) && *a == self.acks@[client_id],
                None => !self.acks@.contains_key(client_id),
            },
    {
        self.acks.get(client_id)
    }
}

} // verus!

verus! {

/// A fresh ack with base `b`, after `ack(t)`, marks `t` exactly when `0 <= b - 1 - t < 32`.
pub proof fn lemma_ack_round_trip(b: NetworkTick, t: u64)
    ensures
        NetworkAck::new_spec(b).after_ack(t as int).acked_spec(t as int) <==> (0 <= b.0 - 1 - t
            < 32),
{
    if NetworkAck::in_window(b.0, t as int) {
        lemma_bit_or_one(0, (b.0 - 1 - t) as u32, (b.0 - 1 - t) as u32);
    }
}

/// What `set_base` reports: no tick twice, every tick before the new base, none that was
/// acknowledged, none older than the window that the old base covered.
pub proof fn lemma_set_base_report(a: NetworkAck, new_base: u64, r: Seq<NetworkTick>)
    requires
        a.reports(new_base, r),
    ensures
        forall|i: int, j: int| 0 <= i < r.len() && 0 <= j < r.len() && i != j ==> r[i] != r[j],
        forall|i: int| 0 <= i < r.len() ==> (r[i].0 as int) < new_base,
        forall|i: int| 0 <= i < r.len() ==> !a.acked_spec(r[i].0 as int),
        forall|i: int| 0 <= i < r.len() ==> a.base.0 - ACK_WINDOW <= r[i].0,
{
    assert forall|i: int, j: int| 0 <= i < r.len() && 0 <= j < r.len() && i != j implies r[i]
        != r[j] by {
        if i < j {
            assert(r[i].0 < r[j].0);
        } else {
            assert(r[j].0 < r[i].0);
        }
    }
    assert forall|i: int| 0 <= i < r.len() implies !a.acked_spec(r[i].0 as int) by {
        assert(a.dropped_spec(new_base, r[i].0 as int));
    }
}

} // verus!
