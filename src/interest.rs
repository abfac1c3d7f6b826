use vstd::prelude::*;
use vstd::laws_eq::obeys_concrete_eq;
use vstd::std_specs::iter::IteratorSpec;

use crate::demands::{ReplicateDemands, ReplicateSizeEstimates};
use crate::ordered_map::OrderedMap;
use crate::replicate::ReplicateId;
use crate::tick::NetworkTick;

verus! {

/// `q` with `x` moved, or added, to the head.
pub open spec fn moved_to_front<I>(q: Seq<I>, x: I) -> Seq<I> {
    seq![x] + q.remove_value(x)
}

/// First-in first-out queue that holds each item at most once.
///
/// The set of queued items is the set of the list's elements, so the two never disagree.
pub struct InterestQueue<I: PartialEq + Copy> {
    queue: Vec<I>,
}

impl<I: PartialEq + Copy> View for InterestQueue<I> {
    type V = Seq<I>;

    closed spec fn view(&self) -> Seq<I> {
        self.queue@
    }
}

impl<I: PartialEq + Copy> InterestQueue<I> {
    #[verifier::type_invariant]
    closed spec fn well_formed(&self) -> bool {
        &&& self.queue@.no_duplicates()
        &&& obeys_concrete_eq::<I>()
    }

    pub fn new() -> (r: InterestQueue<I>)
        requires
            obeys_concrete_eq::<I>(),
        ensures
            r@ == Seq::<I>::empty(),
    {
        InterestQueue { queue: Vec::new() }
    }

    /// Position of `x` in the queue, if queued.
    fn position(&self, x: I) -> (r: Option<usize>)
        ensures
            match r {
                Some(i) => i < self@.len() && self@[i as int] == x,
                None => !self@.contains(x),
            },
    {
        proof {
            use_type_invariant(self);
        }
        let mut i: usize = 0;
        while i < self.queue.len()
            invariant
                i <= self.queue@.len(),
                obeys_concrete_eq::<I>(),
                forall|j: int| 0 <= j < i ==> self.queue@[j] != x,
            decreases self.queue@.len() - i,
        {
            proof {
                reveal(obeys_concrete_eq);
            }
            if self.queue[i] == x {
                return Some(i);
            }
            i = i + 1;
        }
        None
    }

    pub fn contains(&self, x: I) -> (r: bool)
        ensures
            r == self@.contains(x),
    {
        self.position(x).is_some()
    }

    pub fn len(&self) -> (r: usize)
        ensures
            r == self@.len(),
    {
        self.queue.len()
    }

    pub fn is_empty(&self) -> (r: bool)
        ensures
            r == (self@.len() == 0),
    {
        self.queue.len() == 0
    }

    /// Appends `x` unless it is queued already; returns whether it was.
    pub fn push_back(&mut self, x: I) -> (r: bool)
        ensures
            r == old(self)@.contains(x),
            r ==> final(self)@ == old(self)@,
            !r ==> final(self)@ == old(self)@.push(x),
            final(self)@.no_duplicates(),
    {
        proof {
            use_type_invariant(&*self);
        }
        let contains = self.contains(x);
        if !contains {
            let mut queue: Vec<I> = Vec::new();
            std::mem::swap(&mut queue, &mut self.queue);
            queue.push(x);
            proof {
                assert forall|i: int, j: int|
                    0 <= i < queue@.len() && 0 <= j < queue@.len() && i != j implies queue@[i]
                    != queue@[j] by {
                    if i < queue@.len() - 1 && j < queue@.len() - 1 {
                        assert(queue@[i] == old(self)@[i]);
                        assert(queue@[j] == old(self)@[j]);
                    } else if i < queue@.len() - 1 {
                        assert(queue@[i] == old(self)@[i]);
                    } else {
                        assert(queue@[j] == old(self)@[j]);
                    }
                }
            }
            self.queue = queue;
        }
        contains
    }

    /// Puts `x` at the head; where it was queued already it moves there from its place, and
    /// the other items keep their order. Returns whether it was queued.
    pub fn push_front(&mut self, x: I) -> (r: bool)
        ensures
            r == old(self)@.contains(x),
            final(self)@ == moved_to_front(old(self)@, x),
            final(self)@.no_duplicates(),
            final(self)@.to_set() == old(self)@.to_set().insert(x),
    {
        proof {
            use_type_invariant(&*self);
        }
        let ghost old_q = self.queue@;
        let pos = self.position(x);
        proof {
            old_q.index_of_first_ensures(x);
            match pos {
                Some(i) => {
                    let j = old_q.index_of_first(x).unwrap();
                    assert(j == i);
                },
                None => {},
            }
        }
        let mut queue: Vec<I> = Vec::new();
        std::mem::swap(&mut queue, &mut self.queue);
        let contains = match pos {
            Some(i) => {
                queue.remove(i);
                proof {
                    assert(queue@ =~= old_q.remove(i as int));
                    assert forall|a: int| 0 <= a < queue@.len() implies queue@[a] != x by {
                        if a < i {
                            assert(old_q[a] != old_q[i as int]);
                        } else {
                            assert(old_q[a + 1] != old_q[i as int]);
                        }
                    }
                    assert forall|a: int, b: int|
                        0 <= a < queue@.len() && 0 <= b < queue@.len() && a != b implies queue@[a]
                        != queue@[b] by {
                        let a1 = if a < i { a } else { a + 1 };
                        let b1 = if b < i { b } else { b + 1 };
                        assert(queue@[a] == old_q[a1]);
                        assert(queue@[b] == old_q[b1]);
                    }
                }
                true
            },
            None => false,
        };
        let ghost mid = queue@;
        queue.insert(0, x);
        proof {
            assert(queue@ =~= seq![x] + mid);
            assert forall|a: int, b: int|
                0 <= a < queue@.len() && 0 <= b < queue@.len() && a != b implies queue@[a]
                != queue@[b] by {
                if a > 0 && b > 0 {
                    assert(queue@[a] == mid[a - 1]);
                    assert(queue@[b] == mid[b - 1]);
                } else if a == 0 {
                    assert(queue@[b] == mid[b - 1]);
                    assert(!mid.contains(x));
                } else {
                    assert(queue@[a] == mid[a - 1]);
                    assert(!mid.contains(x));
                }
            }
            assert forall|y: I| queue@.contains(y) <==> old_q.contains(y) || y == x by {
                if queue@.contains(y) && y != x {
                    let a = choose|a: int| 0 <= a < queue@.len() && queue@[a] == y;
                    assert(mid[a - 1] == y);
                    match pos {
                        Some(i) => {
                            if a - 1 < i {
                                assert(old_q[a - 1] == y);
                            } else {
                                assert(old_q[a] == y);
                            }
                        },
                        None => {
                            assert(old_q[a - 1] == y);
                        },
                    }
                }
                if old_q.contains(y) && y != x {
                    let a = choose|a: int| 0 <= a < old_q.len() && old_q[a] == y;
                    match pos {
                        Some(i) => {
                            if a < i {
                                assert(queue@[a + 1] == y);
                            } else {
                                assert(a != i);
                                assert(queue@[a] == y);
                            }
                        },
                        None => {
                            assert(queue@[a + 1] == y);
                        },
                    }
                }
                if y == x {
                    assert(queue@[0] == x);
                }
            }
            assert(queue@.to_set() =~= old_q.to_set().insert(x));
        }
        self.queue = queue;
        contains
    }

    /// Takes the head off the queue.
    pub fn pop_front(&mut self) -> (r: Option<I>)
        ensures
            old(self)@.len() == 0 ==> r is None && final(self)@ == old(self)@,
            old(self)@.len() > 0 ==> r == Some(old(self)@[0]) && final(self)@ == old(self)@.drop_first(),
            final(self)@.no_duplicates(),
    {
        proof {
            use_type_invariant(&*self);
        }
        if self.queue.len() == 0 {
            None
        } else {
            let mut queue: Vec<I> = Vec::new();
            std::mem::swap(&mut queue, &mut self.queue);
            let ghost old_q = queue@;
            let x = queue.remove(0);
            proof {
                assert(queue@ =~= old_q.drop_first());
                assert forall|a: int, b: int|
                    0 <= a < queue@.len() && 0 <= b < queue@.len() && a != b implies queue@[a]
                    != queue@[b] by {
                    assert(queue@[a] == old_q[a + 1]);
                    assert(queue@[b] == old_q[b + 1]);
                }
            }
            self.queue = queue;
            Some(x)
        }
    }

    /// The items, head first.
    pub fn iter(&self) -> (r: std::slice::Iter<'_, I>)
        ensures
            r.remaining().len() == self@.len(),
            forall|i: int| 0 <= i < self@.len() ==> r.remaining()[i] == self@[i],
    {
        proof {
            broadcast use vstd::std_specs::slice::axiom_spec_slice_iter;
        }
        self.queue.as_slice().iter()
    }

    pub fn as_slice(&self) -> (r: &[I])
        ensures
            r@ == self@,
    {
        self.queue.as_slice()
    }

    pub fn peek_first(&self) -> (r: Option<&I>)
        ensures
            self@.len() == 0 ==> r is None,
            self@.len() > 0 ==> r == Some(&self@[0]),
    {
        if self.queue.len() == 0 {
            None
        } else {
            Some(&self.queue[0])
        }
    }

    pub fn peek_last(&self) -> (r: Option<&I>)
        ensures
            self@.len() == 0 ==> r is None,
            self@.len() > 0 ==> r == Some(&self@[self@.len() - 1]),
    {
        let n = self.queue.len();
        if n == 0 {
            None
        } else {
            Some(&self.queue[n - 1])
        }
    }
}

/// A list without repeated items has as many distinct items as entries: the queue's set and
/// its list always agree in size.
pub proof fn lemma_queue_set_size<I>(l: Seq<I>)
    requires
        l.no_duplicates(),
    ensures
        l.to_set().len() == l.len(),
{
    l.unique_seq_to_set();
}

} // verus!

verus! {

/// A local entity together with a component kind: one unit of replication.
#[derive(Debug, Clone, Copy, Eq, Hash)]
pub struct Interest {
    pub entity: u64,
    pub kind: ReplicateId,
}

impl PartialEq for Interest {
    fn eq(&self, other: &Interest) -> (r: bool)
        ensures
            r == (self.entity == other.entity && self.kind.0 == other.kind.0),
    {
        self.entity == other.entity && self.kind.0 == other.kind.0
    }
}

impl vstd::std_specs::cmp::PartialEqSpecImpl for Interest {
    open spec fn obeys_eq_spec() -> bool {
        true
    }

    open spec fn eq_spec(&self, other: &Interest) -> bool {
        self.entity == other.entity && self.kind.0 == other.kind.0
    }
}

/// `==` on interests is equality of entity and kind.
pub broadcast proof fn lemma_interest_eq()
    ensures
        #[trigger] obeys_concrete_eq::<Interest>(),
{
    reveal(obeys_concrete_eq);
}

impl Interest {
    pub fn new(entity: u64, kind: ReplicateId) -> (r: Interest)
        ensures
            r.entity == entity,
            r.kind == kind,
    {
        Interest { entity, kind }
    }
}

/// Room left in a message under which the dispatcher stops looking for smaller items.
pub const MIN_SLACK: usize = 30;

/// Sum of the estimated sizes of the kinds in `g`.
pub open spec fn group_size(est: ReplicateSizeEstimates, g: Seq<ReplicateId>) -> int
    decreases g.len(),
{
    if g.len() == 0 {
        0
    } else {
        group_size(est, g.drop_last()) + est.estimate(g.last())
    }
}

/// The interests of `entity` for each kind of `g`.
pub open spec fn group_interests(entity: u64, g: Seq<ReplicateId>) -> Seq<Interest> {
    g.map_values(|k: ReplicateId| Interest { entity, kind: k })
}

/// Outcome of packing a queue into one message.
pub struct Packing {
    /// What goes out, group by group.
    pub sent: Seq<Interest>,
    /// What was taken off the queue but did not fit, in queue order.
    pub unsent: Seq<Interest>,
    /// What was never looked at.
    pub rest: Seq<Interest>,
}

/// Greedy packing of `q` into a message of `max` bytes of which `used` are taken: each head
/// goes out with its whole group when the group fits; when it does not, the head is set aside,
/// and the walk goes on only while more than `MIN_SLACK` bytes are left.
pub open spec fn pack(
    q: Seq<Interest>,
    used: int,
    demands: ReplicateDemands,
    est: ReplicateSizeEstimates,
    max: int,
) -> Packing
    decreases q.len(),
{
    if q.len() == 0 {
        Packing { sent: Seq::empty(), unsent: Seq::empty(), rest: Seq::empty() }
    } else {
        let x = q[0];
        let g = demands.group(x.kind);
        let e = group_size(est, g);
        if used + e > max {
            if max - used > MIN_SLACK {
                let p = pack(q.drop_first(), used, demands, est, max);
                Packing { sent: p.sent, unsent: seq![x] + p.unsent, rest: p.rest }
            } else {
                Packing { sent: Seq::empty(), unsent: seq![x], rest: q.drop_first() }
            }
        } else {
            let p = pack(q.drop_first(), used + e, demands, est, max);
            Packing { sent: group_interests(x.entity, g) + p.sent, unsent: p.unsent, rest: p.rest }
        }
    }
}

/// The queue left behind by packing: what did not fit first, then what was not looked at.
pub open spec fn packed_queue(p: Packing) -> Seq<Interest> {
    p.unsent + p.rest
}

proof fn lemma_group_size_prefix(est: ReplicateSizeEstimates, g: Seq<ReplicateId>, j: int)
    requires
        0 <= j <= g.len(),
    ensures
        group_size(est, g.subrange(0, j)) <= group_size(est, g),
        group_size(est, g) >= 0,
    decreases g.len(),
{
    if g.len() > 0 {
        if j == g.len() {
            assert(g.subrange(0, j) =~= g);
            lemma_group_size_prefix(est, g.drop_last(), 0);
        } else {
            assert(g.drop_last().subrange(0, j) =~= g.subrange(0, j));
            lemma_group_size_prefix(est, g.drop_last(), j);
        }
    }
}

/// Packing keeps the queue free of repeats and loses nothing: every queued interest is sent,
/// or stays queued.
pub proof fn lemma_pack_keeps(
    q: Seq<Interest>,
    used: int,
    demands: ReplicateDemands,
    est: ReplicateSizeEstimates,
    max: int,
)
    requires
        q.no_duplicates(),
    ensures
        packed_queue(pack(q, used, demands, est, max)).no_duplicates(),
        forall|x: Interest| #[trigger]
            packed_queue(pack(q, used, demands, est, max)).contains(x) ==> q.contains(x),
        forall|x: Interest|
            q.contains(x) ==> pack(q, used, demands, est, max).sent.contains(x) || #[trigger]
                packed_queue(pack(q, used, demands, est, max)).contains(x),
    decreases q.len(),
{
    if q.len() > 0 {
        let x = q[0];
        let g = demands.group(x.kind);
        let e = group_size(est, g);
        let t = q.drop_first();
        assert(t.no_duplicates());
        assert forall|y: Interest| q.contains(y) && y != x implies t.contains(y) by {
            let i = choose|i: int| 0 <= i < q.len() && q[i] == y;
            assert(t[i - 1] == y);
        }
        assert(!t.contains(x)) by {
            if t.contains(x) {
                let i = choose|i: int| 0 <= i < t.len() && t[i] == x;
                assert(q[i + 1] == x);
            }
        }
        if used + e > max {
            if max - used > MIN_SLACK {
                lemma_pack_keeps(t, used, demands, est, max);
                let p = pack(t, used, demands, est, max);
                let pq = packed_queue(pack(q, used, demands, est, max));
                assert(pq =~= seq![x] + packed_queue(p));
                assert forall|y: Interest| #[trigger] pq.contains(y) implies q.contains(y) by {
                    if y != x {
                        let i = choose|i: int| 0 <= i < pq.len() && pq[i] == y;
                        assert(packed_queue(p)[i - 1] == y);
                        assert(packed_queue(p).contains(y));
                        assert(t.contains(y));
                        let k = choose|k: int| 0 <= k < t.len() && t[k] == y;
                        assert(q[k + 1] == y);
                    } else {
                        assert(q[0] == x);
                    }
                }
                assert forall|y: Interest| q.contains(y) implies pack(q, used, demands, est, max).sent.contains(y)
                    || #[trigger] pq.contains(y) by {
                    if y == x {
                        assert(pq[0] == x);
                    } else if !p.sent.contains(y) {
                        assert(packed_queue(p).contains(y));
                        let i = choose|i: int| 0 <= i < packed_queue(p).len() && packed_queue(p)[i] == y;
                        assert(pq[i + 1] == y);
                    }
                }
                assert forall|a: int, b: int| 0 <= a < pq.len() && 0 <= b < pq.len() && a != b implies pq[a]
                    != pq[b] by {
                    if a > 0 && b > 0 {
                        assert(pq[a] == packed_queue(p)[a - 1]);
                        assert(pq[b] == packed_queue(p)[b - 1]);
                    } else if a == 0 {
                        assert(packed_queue(p).contains(pq[b]));
                    } else {
                        assert(packed_queue(p).contains(pq[a]));
                    }
                }
            } else {
                let pq = packed_queue(pack(q, used, demands, est, max));
                assert(pq =~= q);
            }
        } else {
            lemma_pack_keeps(t, used + e, demands, est, max);
            let p = pack(t, used + e, demands, est, max);
            let whole = pack(q, used, demands, est, max);
            assert(packed_queue(whole) == packed_queue(p));
            assert forall|y: Interest| #[trigger] packed_queue(whole).contains(y) implies q.contains(y) by {
                let k = choose|k: int| 0 <= k < t.len() && t[k] == y;
                assert(q[k + 1] == y);
            }
            assert forall|y: Interest| q.contains(y) implies whole.sent.contains(y) || #[trigger]
                packed_queue(whole).contains(y) by {
                if y == x {
                    lemma_group_size_prefix(est, g, 0);
                    assert(g[0] == x.kind);
                    assert(group_interests(x.entity, g)[0] == y);
                    assert(whole.sent[0] == y);
                } else if !p.sent.contains(y) {
                } else {
                    let i = choose|i: int| 0 <= i < p.sent.len() && p.sent[i] == y;
                    assert(whole.sent[group_interests(x.entity, g).len() + i] == y);
                }
            }
        }
    }
}

/// Sum of the estimates of `g` when it is at most `budget`.
fn group_fits(g: &Vec<ReplicateId>, est: &ReplicateSizeEstimates, budget: usize) -> (r: Option<usize>)
    ensures
        match r {
            Some(e) => e == group_size(*est, g@) && e <= budget,
            None => group_size(*est, g@) > budget,
        },
{
    let mut acc: usize = 0;
    let mut i: usize = 0;
    while i < g.len()
        invariant
            i <= g@.len(),
            acc <= budget,
            acc == group_size(*est, g@.subrange(0, i as int)),
        decreases g@.len() - i,
    {
        let e = est.get(&g[i]);
        proof {
            assert(g@.subrange(0, i + 1).drop_last() =~= g@.subrange(0, i as int));
            assert(g@.subrange(0, i + 1).last() == g@[i as int]);
        }
        if e > budget - acc {
            proof {
                lemma_group_size_prefix(*est, g@, i + 1);
            }
            return None;
        }
        acc = acc + e;
        i = i + 1;
    }
    proof {
        assert(g@.subrange(0, i as int) =~= g@);
    }
    Some(acc)
}

/// Takes off `queue` what fits in one message of `max` bytes and hands it back in sending
/// order; what did not fit goes back to the head of the queue, in its old order.
pub fn select_interests(
    queue: &mut InterestQueue<Interest>,
    demands: &ReplicateDemands,
    estimates: &ReplicateSizeEstimates,
    max: usize,
) -> (r: Vec<Interest>)
    ensures
        r@ == pack(old(queue)@, 0, *demands, *estimates, max as int).sent,
        final(queue)@ == packed_queue(pack(old(queue)@, 0, *demands, *estimates, max as int)),
{
    let ghost whole = pack(queue@, 0, *demands, *estimates, max as int);
    let ghost q0 = queue@;
    proof {
        use_type_invariant(&*queue);
        lemma_pack_keeps(q0, 0, *demands, *estimates, max as int);
    }
    let mut out: Vec<Interest> = Vec::new();
    let mut unsent: Vec<Interest> = Vec::new();
    let mut used: usize = 0;
    let mut stop = false;
    while !stop
        invariant
            used <= max,
            queue@.no_duplicates(),
            stop ==> whole.sent == out@ && whole.unsent == unsent@ && whole.rest == queue@,
            !stop ==> whole.sent == out@ + pack(queue@, used as int, *demands, *estimates, max as int).sent,
            !stop ==> whole.unsent == unsent@ + pack(queue@, used as int, *demands, *estimates, max as int).unsent,
            !stop ==> whole.rest == pack(queue@, used as int, *demands, *estimates, max as int).rest,
        decreases queue@.len() + (if stop { 0int } else { 1int }),
    {
        let ghost before = queue@;
        match queue.pop_front() {
            None => {
                stop = true;
                proof {
                    assert(out@ + Seq::<Interest>::empty() =~= out@);
                    assert(unsent@ + Seq::<Interest>::empty() =~= unsent@);
                }
            },
            Some(x) => {
                let g = demands.group_of(x.kind);
                let ghost p_next_same = pack(queue@, used as int, *demands, *estimates, max as int);
                match group_fits(&g, estimates, max - used) {
                    Some(e) => {
                        let ghost out_before = out@;
                        let mut k: usize = 0;
                        while k < g.len()
                            invariant
                                k <= g@.len(),
                                out@ == out_before + group_interests(x.entity, g@.subrange(0, k as int)),
                            decreases g@.len() - k,
                        {
                            out.push(Interest { entity: x.entity, kind: g[k] });
                            k = k + 1;
                            proof {
                                assert(out@ =~= out_before + group_interests(x.entity, g@.subrange(0, k as int)));
                            }
                        }
                        proof {
                            assert(g@.subrange(0, k as int) =~= g@);
                            let p = pack(queue@, (used + e) as int, *demands, *estimates, max as int);
                            assert(out@ + p.sent =~= out_before + (group_interests(x.entity, g@) + p.sent));
                        }
                        used = used + e;
                    },
                    None => {
                        let ghost unsent_before = unsent@;
                        unsent.push(x);
                        if max - used > MIN_SLACK {
                            proof {
                                assert(unsent@ + p_next_same.unsent =~= unsent_before + (seq![x] + p_next_same.unsent));
                            }
                        } else {
                            stop = true;
                            proof {
                                assert(unsent@ =~= unsent_before + seq![x]);
                                assert(out@ + Seq::<Interest>::empty() =~= out@);
                            }
                        }
                    },
                }
            },
        }
    }
    let ghost rest = queue@;
    proof {
        assert(packed_queue(whole) == unsent@ + rest);
    }
    let mut i: usize = unsent.len();
    while i > 0
        invariant
            i <= unsent@.len(),
            unsent@ + rest == packed_queue(whole),
            packed_queue(whole).no_duplicates(),
            queue@ == unsent@.subrange(i as int, unsent@.len() as int) + rest,
        decreases i,
    {
        i = i - 1;
        let x = unsent[i];
        proof {
            let pq = packed_queue(whole);
            assert(pq[i as int] == x);
            assert forall|j: int| 0 <= j < queue@.len() implies queue@[j] != x by {
                assert(queue@[j] == pq[i + 1 + j]);
            }
            queue@.index_of_first_ensures(x);
        }
        queue.push_front(x);
        proof {
            assert(queue@ =~= unsent@.subrange(i as int, unsent@.len() as int) + rest);
        }
    }
    proof {
        assert(unsent@.subrange(0, unsent@.len() as int) =~= unsent@);
    }
    out
}

} // verus!

verus! {

/// How many ticks back unacknowledged interests are sent again.
pub const RESEND_INTEREST_BUFFER: u64 = 32;

/// Interests sent at tick `t` are still sent again at tick `current`.
pub open spec fn resend_eligible(current: u64, t: u64) -> bool {
    current - t < RESEND_INTEREST_BUFFER
}

/// `q` after `push_front` of each item of `items` in turn.
pub open spec fn push_all_front<I>(q: Seq<I>, items: Seq<I>) -> Seq<I>
    decreases items.len(),
{
    if items.len() == 0 {
        q
    } else {
        moved_to_front(push_all_front(q, items.drop_last()), items.last())
    }
}

/// `q` after `push_back` of each item of `items` in turn.
pub open spec fn push_all_back<I>(q: Seq<I>, items: Seq<I>) -> Seq<I>
    decreases items.len(),
{
    if items.len() == 0 {
        q
    } else {
        let p = push_all_back(q, items.drop_last());
        if p.contains(items.last()) {
            p
        } else {
            p.push(items.last())
        }
    }
}

/// Keys strictly increasing.
pub open spec fn increasing(s: Seq<u64>) -> bool {
    forall|i: int, j: int| 0 <= i < j < s.len() ==> s[i] < s[j]
}

/// The entries of `ledger` under the ticks `ts`, one after the other.
pub open spec fn concat_entries(ledger: Map<u64, Seq<Interest>>, ts: Seq<u64>) -> Seq<Interest>
    decreases ts.len(),
{
    if ts.len() == 0 {
        Seq::empty()
    } else {
        concat_entries(ledger, ts.drop_last()) + ledger[ts.last()]
    }
}

/// The ticks of `ledger` whose interests are sent again at `current`, oldest first.
pub open spec fn resend_ticks(ledger: Map<u64, Seq<Interest>>, current: u64) -> Seq<u64> {
    choose|ts: Seq<u64>|
        increasing(ts) && forall|t: u64| #[trigger]
            ts.contains(t) <==> ledger.contains_key(t) && resend_eligible(current, t)
}

/// The interests that `resend_unacked(current)` puts back in the queue, in the order it
/// pushes them.
pub open spec fn resend_items(ledger: Map<u64, Seq<Interest>>, current: u64) -> Seq<Interest> {
    concat_entries(ledger, resend_ticks(ledger, current))
}

/// Extending a prefix of an increasing list by one element adds exactly that element, which
/// the shorter prefix does not hold.
pub proof fn lemma_prefix_step(s: Seq<u64>, i: int)
    requires
        increasing(s),
        0 <= i < s.len(),
    ensures
        forall|u: u64| #[trigger] s.subrange(0, i + 1).contains(u) <==> (s.subrange(0, i).contains(u) || u == s[i]),
        !s.subrange(0, i).contains(s[i]),
{
    let pre = s.subrange(0, i);
    let pre1 = s.subrange(0, i + 1);
    assert forall|u: u64| #[trigger] pre1.contains(u) <==> (pre.contains(u) || u == s[i]) by {
        if pre1.contains(u) {
            let k = choose|k: int| 0 <= k < pre1.len() && pre1[k] == u;
            if k < i {
                assert(pre[k] == u);
            }
        }
        if pre.contains(u) {
            let k = choose|k: int| 0 <= k < pre.len() && pre[k] == u;
            assert(pre1[k] == u);
        }
        if u == s[i] {
            assert(pre1[i] == u);
        }
    }
    assert(!pre.contains(s[i])) by {
        if pre.contains(s[i]) {
            let k = choose|k: int| 0 <= k < pre.len() && pre[k] == s[i];
            assert(s[k] < s[i]);
        }
    }
}

/// Two increasing lists with the same elements are the same list.
pub proof fn lemma_increasing_unique(a: Seq<u64>, b: Seq<u64>)
    requires
        increasing(a),
        increasing(b),
        forall|t: u64| a.contains(t) <==> b.contains(t),
    ensures
        a == b,
    decreases a.len(),
{
    if a.len() == 0 {
        if b.len() > 0 {
            assert(b.contains(b[0]));
        }
        assert(a =~= b);
    } else {
        assert(a.contains(a[0]));
        assert(b.len() > 0);
        assert(b.contains(b[0]));
        let i = choose|i: int| 0 <= i < b.len() && b[i] == a[0];
        let j = choose|j: int| 0 <= j < a.len() && a[j] == b[0];
        if i > 0 {
            assert(b[0] < b[i]);
            if j > 0 {
                assert(a[0] < a[j]);
            }
        }
        assert(a[0] == b[0]);
        let a1 = a.drop_first();
        let b1 = b.drop_first();
        assert forall|t: u64| a1.contains(t) <==> b1.contains(t) by {
            if a1.contains(t) {
                let k = choose|k: int| 0 <= k < a1.len() && a1[k] == t;
                assert(a[k + 1] == t);
                assert(a[0] < a[k + 1]);
                assert(b.contains(t));
                let m = choose|m: int| 0 <= m < b.len() && b[m] == t;
                assert(m != 0);
                assert(b1[m - 1] == t);
            }
            if b1.contains(t) {
                let k = choose|k: int| 0 <= k < b1.len() && b1[k] == t;
                assert(b[k + 1] == t);
                assert(b[0] < b[k + 1]);
                assert(a.contains(t));
                let m = choose|m: int| 0 <= m < a.len() && a[m] == t;
                assert(m != 0);
                assert(a1[m - 1] == t);
            }
        }
        lemma_increasing_unique(a1, b1);
        assert(a =~= seq![a[0]] + a1);
        assert(b =~= seq![b[0]] + b1);
    }
}

/// Interests sent to one client and not acknowledged yet, by the tick they went out at.
pub struct UnackedInterests {
    pub unacked: OrderedMap<Vec<Interest>>,
}

impl UnackedInterests {
    /// Tick to the interests sent at that tick.
    pub open spec fn ledger(self) -> Map<u64, Seq<Interest>> {
        self.unacked@.map_values(|v: Vec<Interest>| v@)
    }

    pub fn new() -> (r: UnackedInterests)
        ensures
            r.ledger() == Map::<u64, Seq<Interest>>::empty(),
    {
        let r = UnackedInterests { unacked: OrderedMap::new() };
        proof {
            assert(r.ledger() =~= Map::<u64, Seq<Interest>>::empty());
        }
        r
    }

    /// Adds `interests` to what went out at `tick`.
    pub fn record(&mut self, tick: NetworkTick, interests: Vec<Interest>)
        ensures
            final(self).ledger() == old(self).ledger().insert(
                tick.0,
                if old(self).ledger().contains_key(tick.0) {
                    old(self).ledger()[tick.0] + interests@
                } else {
                    interests@
                },
            ),
    {
        let mut entry = match self.unacked.remove(tick.0) {
            Some(v) => v,
            None => Vec::new(),
        };
        let ghost start = entry@;
        let mut i: usize = 0;
        while i < interests.len()
            invariant
                i <= interests@.len(),
                entry@ == start + interests@.subrange(0, i as int),
            decreases interests@.len() - i,
        {
            entry.push(interests[i]);
            i = i + 1;
            proof {
                assert(entry@ =~= start + interests@.subrange(0, i as int));
            }
        }
        self.unacked.insert(tick.0, entry);
        proof {
            assert(interests@.subrange(0, i as int) =~= interests@);
            assert(Seq::<Interest>::empty() + interests@ =~= interests@);
            assert(self.ledger() =~= old(self).ledger().insert(
                tick.0,
                if old(self).ledger().contains_key(tick.0) {
                    old(self).ledger()[tick.0] + interests@
                } else {
                    interests@
                },
            ));
        }
    }

    /// Drops what went out at `tick`: it arrived.
    pub fn ack(&mut self, tick: &NetworkTick)
        ensures
            final(self).ledger() == old(self).ledger().remove(tick.0),
    {
        self.unacked.remove(tick.0);
        proof {
            assert(self.ledger() =~= old(self).ledger().remove(tick.0));
        }
    }

    /// Puts every interest sent within the resend horizon of `current_tick` back at the head
    /// of `queue`, oldest tick first; entries older than the horizon are dropped. The ledger
    /// ends empty.
    pub fn resend_unacked(&mut self, current_tick: NetworkTick, queue: &mut InterestQueue<Interest>)
        ensures
            final(self).ledger() == Map::<u64, Seq<Interest>>::empty(),
            final(queue)@ == push_all_front(old(queue)@, resend_items(old(self).ledger(), current_tick.0)),
    {
        let ghost l0 = self.ledger();
        let ghost q0 = queue@;
        let cur = current_tick.0;
        let keys = self.unacked.keys();
        let ghost mut ts: Seq<u64> = Seq::empty();
        let mut i: usize = 0;
        while i < keys.len()
            invariant
                i <= keys@.len(),
                increasing(keys@),
                forall|k: u64| l0.contains_key(k) <==> keys@.contains(k),
                increasing(ts),
                forall|j: int| 0 <= j < ts.len() ==> keys@.subrange(0, i as int).contains(#[trigger] ts[j]),
                forall|t: u64| #[trigger] ts.contains(t) <==> (keys@.subrange(0, i as int).contains(t)
                    && resend_eligible(cur, t)),
                queue@ == push_all_front(q0, concat_entries(l0, ts)),
                forall|t: u64| #[trigger] self.ledger().contains_key(t) <==> (l0.contains_key(t) && !(
                    resend_eligible(cur, t) && keys@.subrange(0, i as int).contains(t))),
                forall|t: u64| #[trigger] self.ledger().contains_key(t) ==> self.ledger()[t] == l0[t],
            decreases keys@.len() - i,
        {
            let t = keys[i];
            let ghost pre = keys@.subrange(0, i as int);
            let ghost pre1 = keys@.subrange(0, i + 1);
            let ghost l_before = self.ledger();
            let ghost eligible = resend_eligible(cur, t);
            proof {
                lemma_prefix_step(keys@, i as int);
                assert(keys@.contains(t));
            }
            if cur < t || cur - t < RESEND_INTEREST_BUFFER {
                let ghost before = concat_entries(l0, ts);
                proof {
                    assert(l0.contains_key(t));
                    assert(self.ledger().contains_key(t));
                    assert(self.ledger()[t] == self.unacked@[t]@);
                }
                let entry = match self.unacked.remove(t) {
                    Some(v) => v,
                    None => Vec::new(),
                };
                proof {
                    assert(entry@ == l0[t]);
                }
                let mut k: usize = 0;
                while k < entry.len()
                    invariant
                        k <= entry@.len(),
                        queue@ == push_all_front(q0, before + entry@.subrange(0, k as int)),
                    decreases entry@.len() - k,
                {
                    proof {
                        assert((before + entry@.subrange(0, k + 1)).drop_last() =~= before + entry@.subrange(0, k as int));
                    }
                    queue.push_front(entry[k]);
                    k = k + 1;
                }
                proof {
                    assert(entry@.subrange(0, k as int) =~= entry@);
                    let ts2 = ts.push(t);
                    assert(ts2.drop_last() =~= ts);
                    assert(concat_entries(l0, ts2) == before + l0[t]);
                    assert forall|j: int| 0 <= j < ts2.len() implies pre1.contains(#[trigger] ts2[j]) by {
                        if j < ts.len() {
                            assert(ts2[j] == ts[j]);
                            assert(pre.contains(ts[j]));
                        }
                    }
                    assert forall|a: int, b: int| 0 <= a < b < ts2.len() implies ts2[a] < ts2[b] by {
                        if b == ts.len() {
                            assert(pre.contains(ts[a]));
                            let m = choose|m: int| 0 <= m < i && pre[m] == ts[a];
                            assert(keys@[m] < keys@[i as int]);
                        } else {
                            assert(ts2[a] == ts[a] && ts2[b] == ts[b]);
                        }
                    }
                    assert forall|u: u64| #[trigger] ts2.contains(u) <==> (pre1.contains(u)
                        && resend_eligible(cur, u)) by {
                        if ts2.contains(u) && u != t {
                            let m = choose|m: int| 0 <= m < ts2.len() && ts2[m] == u;
                            assert(ts[m] == u);
                        }
                        if ts.contains(u) {
                            let m = choose|m: int| 0 <= m < ts.len() && ts[m] == u;
                            assert(ts2[m] == u);
                        }
                        if u == t {
                            assert(ts2[ts.len() as int] == u);
                        }
                    }
                    ts = ts2;
                }
            } else {
                proof {
                    assert forall|u: u64| #[trigger] ts.contains(u) <==> (pre1.contains(u)
                        && resend_eligible(cur, u)) by {
                    }
                    assert forall|j: int| 0 <= j < ts.len() implies pre1.contains(#[trigger] ts[j]) by {
                        assert(pre.contains(ts[j]));
                    }
                }
            }
            proof {
                if eligible {
                    assert(self.ledger() =~= l_before.remove(t));
                } else {
                    assert(self.ledger() =~= l_before);
                }
                assert forall|u: u64| #[trigger] self.ledger().contains_key(u) <==> (l0.contains_key(u) && !(
                    resend_eligible(cur, u) && pre1.contains(u))) by {
                    if u != t {
                        assert(self.ledger().contains_key(u) == l_before.contains_key(u));
                    }
                }
            }
            i = i + 1;
        }
        proof {
            assert(keys@.subrange(0, i as int) =~= keys@);
            assert forall|t: u64| #[trigger] ts.contains(t) <==> l0.contains_key(t) && resend_eligible(cur, t) by {
            }
            let chosen = resend_ticks(l0, cur);
            lemma_increasing_unique(chosen, ts);
        }
        self.unacked = OrderedMap::new();
        proof {
            assert(self.ledger() =~= Map::<u64, Seq<Interest>>::empty());
        }
    }
}

} // verus!

verus! {

/// The queue kept for `client`, empty where there is none yet.
pub open spec fn queue_of(m: Map<u64, Seq<Interest>>, client: u64) -> Seq<Interest> {
    if m.contains_key(client) {
        m[client]
    } else {
        Seq::empty()
    }
}

/// The interests for `kind` on each of `entities`.
pub open spec fn kind_interests(entities: Seq<u64>, kind: ReplicateId) -> Seq<Interest> {
    entities.map_values(|e: u64| Interest { entity: e, kind })
}

/// One interest queue per client.
pub struct ClientInterestQueues {
    pub queues: OrderedMap<InterestQueue<Interest>>,
}

impl ClientInterestQueues {
    /// Client to its queued interests, head first.
    pub open spec fn view_queues(self) -> Map<u64, Seq<Interest>> {
        self.queues@.map_values(|q: InterestQueue<Interest>| q@)
    }

    pub fn new() -> (r: ClientInterestQueues)
        ensures
            r.view_queues() == Map::<u64, Seq<Interest>>::empty(),
    {
        let r = ClientInterestQueues { queues: OrderedMap::new() };
        proof {
            assert(r.view_queues() =~= Map::<u64, Seq<Interest>>::empty());
        }
        r
    }

    pub fn get(&self, client_id: u64) -> (r: Option<&InterestQueue<Interest>>)
        ensures
            match r {
                Some(q) => self.view_queues().contains_key(client_id) && q@ == self.view_queues()[client_id],
                None => !self.view_queues().contains_key(client_id),
            },
    {
        self.queues.get(client_id)
    }

    /// Takes the queue of `client_id` out of the table, or a new one where there is none.
    pub fn take(&mut self, client_id: u64) -> (r: InterestQueue<Interest>)
        ensures
            r@ == queue_of(old(self).view_queues(), client_id),
            final(self).view_queues() == old(self).view_queues().remove(client_id),
    {
        let r = match self.queues.remove(client_id) {
            Some(q) => q,
            None => {
                proof {
                    broadcast use lemma_interest_eq;
                }
                InterestQueue::new()
            },
        };
        proof {
            assert(self.view_queues() =~= old(self).view_queues().remove(client_id));
        }
        r
    }

    /// Puts `queue` in the table as the queue of `client_id`.
    pub fn put(&mut self, client_id: u64, queue: InterestQueue<Interest>)
        ensures
            final(self).view_queues() == old(self).view_queues().insert(client_id, queue@),
    {
        self.queues.insert(client_id, queue);
        proof {
            assert(self.view_queues() =~= old(self).view_queues().insert(client_id, queue@));
        }
    }

    /// Makes sure `client_id` has a queue.
    pub fn entry(&mut self, client_id: u64)
        ensures
            final(self).view_queues() == old(self).view_queues().insert(
                client_id,
                queue_of(old(self).view_queues(), client_id),
            ),
    {
        let q = self.take(client_id);
        self.put(client_id, q);
        proof {
            assert(self.view_queues() =~= old(self).view_queues().insert(
                client_id,
                queue_of(old(self).view_queues(), client_id),
            ));
        }
    }

    /// Appends `interest` to the queue of `client_id`, creating it if needed.
    pub fn push_back(&mut self, client_id: u64, interest: Interest) -> (r: bool)
        ensures
            r == queue_of(old(self).view_queues(), client_id).contains(interest),
            final(self).view_queues() == old(self).view_queues().insert(
                client_id,
                push_all_back(queue_of(old(self).view_queues(), client_id), seq![interest]),
            ),
    {
        let mut q = self.take(client_id);
        let ghost q0 = q@;
        let r = q.push_back(interest);
        proof {
            let items = seq![interest];
            assert(items.drop_last() =~= Seq::<Interest>::empty());
            assert(push_all_back(q0, Seq::<Interest>::empty()) == q0);
            assert(q@ == push_all_back(q0, items));
        }
        self.put(client_id, q);
        proof {
            assert(self.view_queues() =~= old(self).view_queues().insert(
                client_id,
                push_all_back(queue_of(old(self).view_queues(), client_id), seq![interest]),
            ));
        }
        r
    }

    /// Puts `interest` at the head of the queue of `client_id`, creating it if needed.
    pub fn push_front(&mut self, client_id: u64, interest: Interest) -> (r: bool)
        ensures
            r == queue_of(old(self).view_queues(), client_id).contains(interest),
            final(self).view_queues() == old(self).view_queues().insert(
                client_id,
                moved_to_front(queue_of(old(self).view_queues(), client_id), interest),
            ),
    {
        let mut q = self.take(client_id);
        let r = q.push_front(interest);
        self.put(client_id, q);
        proof {
            assert(self.view_queues() =~= old(self).view_queues().insert(
                client_id,
                moved_to_front(queue_of(old(self).view_queues(), client_id), interest),
            ));
        }
        r
    }

    /// The clients that have a queue, in increasing order.
    pub fn clients(&self) -> (r: Vec<u64>)
        ensures
            increasing(r@),
            forall|c: u64| self.view_queues().contains_key(c) <==> r@.contains(c),
    {
        self.queues.keys()
    }
}

/// Appends each of `items` to `queue` unless it is queued already.
pub fn push_back_all(queue: &mut InterestQueue<Interest>, items: &Vec<Interest>)
    ensures
        final(queue)@ == push_all_back(old(queue)@, items@),
{
    let ghost q0 = queue@;
    let mut i: usize = 0;
    while i < items.len()
        invariant
            i <= items@.len(),
            queue@ == push_all_back(q0, items@.subrange(0, i as int)),
        decreases items@.len() - i,
    {
        proof {
            assert(items@.subrange(0, i + 1).drop_last() =~= items@.subrange(0, i as int));
        }
        queue.push_back(items[i]);
        i = i + 1;
    }
    proof {
        assert(items@.subrange(0, i as int) =~= items@);
    }
}

/// The interests for `kind` on each of `entities`, in order.
pub fn interests_of(entities: &Vec<u64>, kind: ReplicateId) -> (r: Vec<Interest>)
    ensures
        r@ == kind_interests(entities@, kind),
{
    let mut r: Vec<Interest> = Vec::new();
    let mut i: usize = 0;
    while i < entities.len()
        invariant
            i <= entities@.len(),
            r@ == kind_interests(entities@.subrange(0, i as int), kind),
        decreases entities@.len() - i,
    {
        r.push(Interest { entity: entities[i], kind });
        i = i + 1;
        proof {
            assert(r@ =~= kind_interests(entities@.subrange(0, i as int), kind));
        }
    }
    proof {
        assert(entities@.subrange(0, i as int) =~= entities@);
    }
    r
}

/// Change detection for one kind: every client gets `(e, kind)` appended for each entity `e`
/// of `changed`, unless already queued.
pub fn component_changes(queues: &mut ClientInterestQueues, changed: &Vec<u64>, kind: ReplicateId)
    ensures
        final(queues).view_queues().dom() == old(queues).view_queues().dom(),
        forall|c: u64| #[trigger] old(queues).view_queues().contains_key(c) ==> final(queues).view_queues()[c]
            == push_all_back(old(queues).view_queues()[c], kind_interests(changed@, kind)),
{
    let changes = interests_of(changed, kind);
    let clients = queues.clients();
    let ghost v0 = queues.view_queues();
    let mut i: usize = 0;
    while i < clients.len()
        invariant
            i <= clients@.len(),
            increasing(clients@),
            changes@ == kind_interests(changed@, kind),
            forall|c: u64| v0.contains_key(c) <==> clients@.contains(c),
            queues.view_queues().dom() == v0.dom(),
            forall|j: int| 0 <= j < i ==> #[trigger] queues.view_queues()[clients@[j]] == push_all_back(
                v0[clients@[j]],
                changes@,
            ),
            forall|j: int| i <= j < clients@.len() ==> #[trigger] queues.view_queues()[clients@[j]] == v0[clients@[j]],
        decreases clients@.len() - i,
    {
        let c = clients[i];
        proof {
            assert(clients@.contains(c));
        }
        let mut q = queues.take(c);
        push_back_all(&mut q, &changes);
        queues.put(c, q);
        proof {
            assert forall|j: int| 0 <= j < clients@.len() && j != i implies clients@[j] != c by {
                if j < i {
                    assert(clients@[j] < clients@[i as int]);
                } else {
                    assert(clients@[i as int] < clients@[j]);
                }
            }
            assert(queues.view_queues().dom() =~= v0.dom());
        }
        i = i + 1;
    }
    proof {
        assert forall|c: u64| #[trigger] v0.contains_key(c) implies queues.view_queues()[c] == push_all_back(
            v0[c],
            changes@,
        ) by {
            let j = choose|j: int| 0 <= j < clients@.len() && clients@[j] == c;
            assert(queues.view_queues()[clients@[j]] == push_all_back(v0[clients@[j]], changes@));
        }
    }
}

} // verus!

verus! {

/// Interests chosen for each client this tick.
pub struct InterestsToSend {
    pub clients: OrderedMap<Vec<Interest>>,
}

impl InterestsToSend {
    /// Client to the interests chosen for it, in sending order.
    pub open spec fn view_sends(self) -> Map<u64, Seq<Interest>> {
        self.clients@.map_values(|v: Vec<Interest>| v@)
    }

    pub fn new() -> (r: InterestsToSend)
        ensures
            r.view_sends() == Map::<u64, Seq<Interest>>::empty(),
    {
        let r = InterestsToSend { clients: OrderedMap::new() };
        proof {
            assert(r.view_sends() =~= Map::<u64, Seq<Interest>>::empty());
        }
        r
    }

    pub fn get(&self, client_id: u64) -> (r: Option<&Vec<Interest>>)
        ensures
            match r {
                Some(v) => self.view_sends().contains_key(client_id) && v@ == self.view_sends()[client_id],
                None => !self.view_sends().contains_key(client_id),
            },
    {
        self.clients.get(client_id)
    }

    /// Appends `interest` to what goes to `client_id`.
    pub fn push(&mut self, client_id: u64, interest: Interest)
        ensures
            final(self).view_sends() == old(self).view_sends().insert(
                client_id,
                queue_of(old(self).view_sends(), client_id).push(interest),
            ),
    {
        let mut v = match self.clients.remove(client_id) {
            Some(v) => v,
            None => Vec::new(),
        };
        v.push(interest);
        self.clients.insert(client_id, v);
        proof {
            assert(self.view_sends() =~= old(self).view_sends().insert(
                client_id,
                queue_of(old(self).view_sends(), client_id).push(interest),
            ));
        }
    }

    /// Sets what goes to `client_id`.
    pub fn set(&mut self, client_id: u64, interests: Vec<Interest>)
        ensures
            final(self).view_sends() == old(self).view_sends().insert(client_id, interests@),
    {
        self.clients.insert(client_id, interests);
        proof {
            assert(self.view_sends() =~= old(self).view_sends().insert(client_id, interests@));
        }
    }

    /// Forgets everything chosen.
    pub fn clear(&mut self)
        ensures
            final(self).view_sends() == Map::<u64, Seq<Interest>>::empty(),
    {
        self.clients = OrderedMap::new();
        proof {
            assert(self.view_sends() =~= Map::<u64, Seq<Interest>>::empty());
        }
    }

    /// The clients with an entry, in increasing order.
    pub fn clients(&self) -> (r: Vec<u64>)
        ensures
            increasing(r@),
            forall|c: u64| self.view_sends().contains_key(c) <==> r@.contains(c),
    {
        self.clients.keys()
    }
}

/// The ledger kept for `client`, empty where there is none yet.
pub open spec fn ledger_of(m: Map<u64, Map<u64, Seq<Interest>>>, client: u64) -> Map<u64, Seq<Interest>> {
    if m.contains_key(client) {
        m[client]
    } else {
        Map::empty()
    }
}

/// `ledger` once `interests` are recorded at `tick`.
pub open spec fn recorded(ledger: Map<u64, Seq<Interest>>, tick: u64, interests: Seq<Interest>) -> Map<
    u64,
    Seq<Interest>,
> {
    ledger.insert(tick, queue_of(ledger, tick) + interests)
}

/// Sent and unacknowledged interests, per client.
pub struct ClientUnackedInterests {
    pub clients: OrderedMap<UnackedInterests>,
}

impl ClientUnackedInterests {
    /// Client to its ledger.
    pub open spec fn ledgers(self) -> Map<u64, Map<u64, Seq<Interest>>> {
        self.clients@.map_values(|u: UnackedInterests| u.ledger())
    }

    pub fn new() -> (r: ClientUnackedInterests)
        ensures
            r.ledgers() == Map::<u64, Map<u64, Seq<Interest>>>::empty(),
    {
        let r = ClientUnackedInterests { clients: OrderedMap::new() };
        proof {
            assert(r.ledgers() =~= Map::<u64, Map<u64, Seq<Interest>>>::empty());
        }
        r
    }

    fn take(&mut self, client_id: u64) -> (r: UnackedInterests)
        ensures
            r.ledger() == ledger_of(old(self).ledgers(), client_id),
            final(self).ledgers() == old(self).ledgers().remove(client_id),
    {
        let r = match self.clients.remove(client_id) {
            Some(u) => u,
            None => UnackedInterests::new(),
        };
        proof {
            assert(self.ledgers() =~= old(self).ledgers().remove(client_id));
        }
        r
    }

    fn put(&mut self, client_id: u64, u: UnackedInterests)
        ensures
            final(self).ledgers() == old(self).ledgers().insert(client_id, u.ledger()),
    {
        self.clients.insert(client_id, u);
        proof {
            assert(self.ledgers() =~= old(self).ledgers().insert(client_id, u.ledger()));
        }
    }

    /// Records that `interests` went out to `client_id` at `tick`.
    pub fn record(&mut self, client_id: u64, tick: NetworkTick, interests: Vec<Interest>)
        ensures
            final(self).ledgers() == old(self).ledgers().insert(
                client_id,
                recorded(ledger_of(old(self).ledgers(), client_id), tick.0, interests@),
            ),
    {
        let mut u = self.take(client_id);
        u.record(tick, interests);
        proof {
            let l = ledger_of(old(self).ledgers(), client_id);
            assert(Seq::<Interest>::empty() + interests@ =~= interests@);
            assert(u.ledger() =~= recorded(l, tick.0, interests@));
        }
        self.put(client_id, u);
        proof {
            assert(self.ledgers() =~= old(self).ledgers().insert(
                client_id,
                recorded(ledger_of(old(self).ledgers(), client_id), tick.0, interests@),
            ));
        }
    }

    /// Records, for each client of `to_send`, what went out to it at `tick`.
    pub fn record_from_queue(&mut self, tick: NetworkTick, to_send: &InterestsToSend)
        ensures
            forall|c: u64| #[trigger]
                final(self).ledgers().contains_key(c) <==> (old(self).ledgers().contains_key(c)
                    || to_send.view_sends().contains_key(c)),
            forall|c: u64| #[trigger] to_send.view_sends().contains_key(c) ==> final(self).ledgers()[c]
                == recorded(ledger_of(old(self).ledgers(), c), tick.0, to_send.view_sends()[c]),
            forall|c: u64| #[trigger] old(self).ledgers().contains_key(c) && !to_send.view_sends().contains_key(c)
                ==> final(self).ledgers()[c] == old(self).ledgers()[c],
    {
        let clients = to_send.clients();
        let ghost l0 = self.ledgers();
        let ghost s = to_send.view_sends();
        let mut i: usize = 0;
        while i < clients.len()
            invariant
                i <= clients@.len(),
                increasing(clients@),
                s == to_send.view_sends(),
                forall|c: u64| s.contains_key(c) <==> clients@.contains(c),
                forall|c: u64| #[trigger] self.ledgers().contains_key(c) <==> (l0.contains_key(c)
                    || clients@.subrange(0, i as int).contains(c)),
                forall|c: u64| #[trigger] clients@.subrange(0, i as int).contains(c) ==> self.ledgers()[c]
                    == recorded(ledger_of(l0, c), tick.0, s[c]),
                forall|c: u64| #[trigger] l0.contains_key(c) && !clients@.subrange(0, i as int).contains(c)
                    ==> self.ledgers()[c] == l0[c],
            decreases clients@.len() - i,
        {
            let c = clients[i];
            let ghost pre = clients@.subrange(0, i as int);
            let ghost pre1 = clients@.subrange(0, i + 1);
            proof {
                assert(clients@.contains(c));
                lemma_prefix_step(clients@, i as int);
                assert(ledger_of(self.ledgers(), c) == ledger_of(l0, c));
            }
            let interests = match to_send.get(c) {
                Some(v) => v.clone(),
                None => Vec::new(),
            };
            self.record(c, tick, interests);
            i = i + 1;
        }
        proof {
            assert(clients@.subrange(0, i as int) =~= clients@);
        }
    }

    /// Drops the entry for `tick` of `client_id`: the client has it.
    pub fn ack(&mut self, client_id: u64, tick: &NetworkTick)
        ensures
            old(self).ledgers().contains_key(client_id) ==> final(self).ledgers() == old(self).ledgers().insert(
                client_id,
                old(self).ledgers()[client_id].remove(tick.0),
            ),
            !old(self).ledgers().contains_key(client_id) ==> final(self).ledgers() == old(self).ledgers(),
    {
        if self.clients.contains_key(client_id) {
            let mut u = self.take(client_id);
            u.ack(tick);
            self.put(client_id, u);
            proof {
                assert(self.ledgers() =~= old(self).ledgers().insert(
                    client_id,
                    old(self).ledgers()[client_id].remove(tick.0),
                ));
            }
        }
    }
}

} // verus!

verus! {

impl ClientUnackedInterests {
    /// For each client with a ledger, puts what went out within the resend horizon of
    /// `tick` back at the head of its queue; older entries are dropped, and every ledger ends
    /// empty.
    pub fn resend_unacked(&mut self, tick: NetworkTick, queues: &mut ClientInterestQueues)
        ensures
            final(self).ledgers().dom() == old(self).ledgers().dom(),
            forall|c: u64| #[trigger] old(self).ledgers().contains_key(c) ==> final(self).ledgers()[c]
                == Map::<u64, Seq<Interest>>::empty(),
            forall|c: u64| #[trigger]
                final(queues).view_queues().contains_key(c) <==> (old(queues).view_queues().contains_key(c)
                    || old(self).ledgers().contains_key(c)),
            forall|c: u64| #[trigger] old(self).ledgers().contains_key(c) ==> final(queues).view_queues()[c]
                == push_all_front(
                queue_of(old(queues).view_queues(), c),
                resend_items(old(self).ledgers()[c], tick.0),
            ),
            forall|c: u64| #[trigger] old(queues).view_queues().contains_key(c) && !old(self).ledgers().contains_key(c)
                ==> final(queues).view_queues()[c] == old(queues).view_queues()[c],
    {
        let clients = self.clients.keys();
        let ghost l0 = self.ledgers();
        let ghost v0 = queues.view_queues();
        let mut i: usize = 0;
        while i < clients.len()
            invariant
                i <= clients@.len(),
                increasing(clients@),
                forall|c: u64| l0.contains_key(c) <==> clients@.contains(c),
                self.ledgers().dom() == l0.dom(),
                forall|c: u64| #[trigger] clients@.subrange(0, i as int).contains(c) ==> self.ledgers()[c]
                    == Map::<u64, Seq<Interest>>::empty(),
                forall|c: u64| #[trigger] l0.contains_key(c) && !clients@.subrange(0, i as int).contains(c)
                    ==> self.ledgers()[c] == l0[c],
                forall|c: u64| #[trigger] queues.view_queues().contains_key(c) <==> (v0.contains_key(c)
                    || clients@.subrange(0, i as int).contains(c)),
                forall|c: u64| #[trigger] clients@.subrange(0, i as int).contains(c) ==> queues.view_queues()[c]
                    == push_all_front(queue_of(v0, c), resend_items(l0[c], tick.0)),
                forall|c: u64| #[trigger] v0.contains_key(c) && !clients@.subrange(0, i as int).contains(c)
                    ==> queues.view_queues()[c] == v0[c],
            decreases clients@.len() - i,
        {
            let c = clients[i];
            let ghost pre = clients@.subrange(0, i as int);
            let ghost pre1 = clients@.subrange(0, i + 1);
            proof {
                assert(clients@.contains(c));
                lemma_prefix_step(clients@, i as int);
                assert(queue_of(queues.view_queues(), c) == queue_of(v0, c));
            }
            let mut u = self.take(c);
            let mut q = queues.take(c);
            u.resend_unacked(tick, &mut q);
            queues.put(c, q);
            self.put(c, u);
            proof {
                assert(self.ledgers().dom() =~= l0.dom());
            }
            i = i + 1;
        }
        proof {
            assert(clients@.subrange(0, i as int) =~= clients@);
        }
    }
}

/// Clients that still need the full state: set on connect.
pub struct Baseload {
    pub clients: OrderedMap<bool>,
}

impl Baseload {
    pub fn new() -> (r: Baseload)
        ensures
            r.clients@ == Map::<u64, bool>::empty(),
    {
        Baseload { clients: OrderedMap::new() }
    }

    /// Asks for a full-state burst to `client_id`.
    pub fn mark(&mut self, client_id: u64)
        ensures
            final(self).clients@ == old(self).clients@.insert(client_id, true),
    {
        self.clients.insert(client_id, true);
    }

    /// The clients, in increasing order, each with whether it waits for a full state.
    pub fn iter(&self) -> (r: Vec<(u64, bool)>)
        ensures
            forall|i: int, j: int| 0 <= i < j < r@.len() ==> r@[i].0 < r@[j].0,
            forall|i: int| 0 <= i < r@.len() ==> self.clients@.contains_key(#[trigger] r@[i].0)
                && self.clients@[r@[i].0] == r@[i].1,
            forall|c: u64| self.clients@.contains_key(c) ==> exists|i: int| 0 <= i < r@.len() && #[trigger] r@[i].0 == c,
    {
        let keys = self.clients.keys();
        let mut r: Vec<(u64, bool)> = Vec::new();
        let mut i: usize = 0;
        while i < keys.len()
            invariant
                i <= keys@.len(),
                r@.len() == i,
                forall|c: u64| #![trigger self.clients@.contains_key(c)] #![trigger keys@.contains(c)]
                    self.clients@.contains_key(c) <==> keys@.contains(c),
                forall|j: int| 0 <= j < i ==> #[trigger] r@[j] == (keys@[j], self.clients@[keys@[j]]),
            decreases keys@.len() - i,
        {
            let k = keys[i];
            proof {
                assert(keys@.contains(k));
            }
            let v = match self.clients.get(k) {
                Some(v) => *v,
                None => false,
            };
            r.push((k, v));
            i = i + 1;
        }
        proof {
            assert forall|j: int| 0 <= j < r@.len() implies self.clients@.contains_key(#[trigger] r@[j].0)
                && self.clients@[r@[j].0] == r@[j].1 by {
                assert(r@[j] == (keys@[j], self.clients@[keys@[j]]));
                assert(keys@.contains(keys@[j]));
            }
            assert forall|a: int, j: int| 0 <= a < j < r@.len() implies r@[a].0 < r@[j].0 by {
                assert(r@[a] == (keys@[a], self.clients@[keys@[a]]));
                assert(r@[j] == (keys@[j], self.clients@[keys@[j]]));
            }
            assert forall|c: u64| self.clients@.contains_key(c) implies exists|i: int| 0 <= i < r@.len() && #[trigger] r@[i].0 == c by {
                assert(keys@.contains(c));
                let j = choose|j: int| 0 <= j < keys@.len() && keys@[j] == c;
                assert(r@[j] == (keys@[j], self.clients@[keys@[j]]));
                assert(r@[j].0 == c);
            }
        }
        r
    }

    /// Ends the burst for every client once a full sweep went out.
    pub fn clear_baseloads(&mut self)
        ensures
            final(self).clients@.dom() == old(self).clients@.dom(),
            forall|c: u64| #[trigger] final(self).clients@.contains_key(c) ==> !final(self).clients@[c],
    {
        let keys = self.clients.keys();
        let ghost d0 = self.clients@.dom();
        let mut i: usize = 0;
        while i < keys.len()
            invariant
                i <= keys@.len(),
                forall|c: u64| d0.contains(c) <==> keys@.contains(c),
                self.clients@.dom() == d0,
                forall|j: int| 0 <= j < i ==> !#[trigger] self.clients@[keys@[j]],
            decreases keys@.len() - i,
        {
            let k = keys[i];
            proof {
                assert(keys@.contains(k));
            }
            self.clients.insert(k, false);
            proof {
                assert(self.clients@.dom() =~= d0);
            }
            i = i + 1;
        }
        proof {
            assert forall|c: u64| #[trigger] self.clients@.contains_key(c) implies !self.clients@[c] by {
                let j = choose|j: int| 0 <= j < keys@.len() && keys@[j] == c;
            }
        }
    }
}

/// Full-state producer for one kind: each client waiting for a full state gets `(e, kind)`
/// appended for each entity `e` of `entities`.
pub fn baseload_components(
    baseload: &Baseload,
    queues: &mut ClientInterestQueues,
    entities: &Vec<u64>,
    kind: ReplicateId,
)
    ensures
        forall|c: u64| #[trigger]
            final(queues).view_queues().contains_key(c) <==> (old(queues).view_queues().contains_key(c)
                || (baseload.clients@.contains_key(c) && baseload.clients@[c])),
        forall|c: u64| #[trigger] baseload.clients@.contains_key(c) && baseload.clients@[c] ==> final(queues).view_queues()[c]
            == push_all_back(queue_of(old(queues).view_queues(), c), kind_interests(entities@, kind)),
        forall|c: u64| #[trigger] old(queues).view_queues().contains_key(c) && !(baseload.clients@.contains_key(c) && baseload.clients@[c])
            ==> final(queues).view_queues()[c] == old(queues).view_queues()[c],
{
    let items = interests_of(entities, kind);
    let flags = baseload.iter();
    let ghost v0 = queues.view_queues();
    let ghost b = baseload.clients@;
    let mut i: usize = 0;
    while i < flags.len()
        invariant
            i <= flags@.len(),
            b == baseload.clients@,
            items@ == kind_interests(entities@, kind),
            forall|a: int, j: int| 0 <= a < j < flags@.len() ==> flags@[a].0 < flags@[j].0,
            forall|a: int| 0 <= a < flags@.len() ==> b.contains_key(#[trigger] flags@[a].0) && b[flags@[a].0] == flags@[a].1,
            forall|c: u64| b.contains_key(c) ==> exists|a: int| 0 <= a < flags@.len() && #[trigger] flags@[a].0 == c,
            forall|c: u64| #[trigger] queues.view_queues().contains_key(c) <==> (v0.contains_key(c)
                || exists|a: int| 0 <= a < i && flags@[a].0 == c && flags@[a].1),
            forall|a: int| 0 <= a < i && flags@[a].1 ==> #[trigger] queues.view_queues()[flags@[a].0]
                == push_all_back(queue_of(v0, flags@[a].0), items@),
            forall|c: u64| #[trigger] v0.contains_key(c) && !(exists|a: int| 0 <= a < i && flags@[a].0 == c && flags@[a].1)
                ==> queues.view_queues()[c] == v0[c],
        decreases flags@.len() - i,
    {
        let (c, load) = flags[i];
        if load {
            proof {
                assert forall|a: int| 0 <= a < i implies flags@[a].0 != c by {
                    assert(flags@[a].0 < flags@[i as int].0);
                }
                assert(queue_of(queues.view_queues(), c) == queue_of(v0, c));
            }
            let mut q = queues.take(c);
            push_back_all(&mut q, &items);
            queues.put(c, q);
            proof {
                assert forall|cc: u64| #[trigger] queues.view_queues().contains_key(cc) <==> (v0.contains_key(cc)
                    || exists|a: int| 0 <= a < i + 1 && flags@[a].0 == cc && flags@[a].1) by {
                    if cc == c {
                        assert(flags@[i as int].0 == cc);
                    }
                }
                assert forall|cc: u64| #[trigger] v0.contains_key(cc) && !(exists|a: int| 0 <= a < i + 1 && flags@[a].0 == cc && flags@[a].1)
                    implies queues.view_queues()[cc] == v0[cc] by {
                    if cc == c {
                        assert(flags@[i as int].0 == cc);
                    }
                }
            }
        }
        i = i + 1;
    }
    proof {
        assert forall|c: u64| #[trigger] b.contains_key(c) && b[c] implies queues.view_queues()[c]
            == push_all_back(queue_of(v0, c), items@) by {
            let a = choose|a: int| 0 <= a < flags@.len() && flags@[a].0 == c;
            assert(b.contains_key(flags@[a].0));
        }
        assert forall|c: u64| #[trigger] v0.contains_key(c) && !(b.contains_key(c) && b[c])
            implies queues.view_queues()[c] == v0[c] by {
            if exists|a: int| 0 <= a < flags@.len() && flags@[a].0 == c && flags@[a].1 {
                let a = choose|a: int| 0 <= a < flags@.len() && flags@[a].0 == c && flags@[a].1;
                assert(b.contains_key(flags@[a].0));
            }
        }
        assert forall|c: u64| #[trigger] queues.view_queues().contains_key(c) <==> (v0.contains_key(c)
            || (b.contains_key(c) && b[c])) by {
            if b.contains_key(c) && b[c] {
                let a = choose|a: int| 0 <= a < flags@.len() && flags@[a].0 == c;
                assert(b.contains_key(flags@[a].0));
            }
            if exists|a: int| 0 <= a < flags@.len() && flags@[a].0 == c && flags@[a].1 {
                let a = choose|a: int| 0 <= a < flags@.len() && flags@[a].0 == c && flags@[a].1;
                assert(b.contains_key(flags@[a].0));
            }
        }
    }
}

} // verus!

verus! {

/// Per tick and client: takes off the client's queue what fits in one message of `max`
/// bytes (see `pack`), lists it in `to_send`, and records it in the client's ledger at `tick`.
pub fn queue_interests(
    tick: NetworkTick,
    queues: &mut ClientInterestQueues,
    demands: &ReplicateDemands,
    estimates: &ReplicateSizeEstimates,
    max: usize,
    to_send: &mut InterestsToSend,
    sent_unacked: &mut ClientUnackedInterests,
)
    ensures
        final(queues).view_queues().dom() == old(queues).view_queues().dom(),
        final(to_send).view_sends().dom() == old(queues).view_queues().dom(),
        forall|c: u64| #[trigger] old(queues).view_queues().contains_key(c) ==> final(queues).view_queues()[c]
            == packed_queue(pack(old(queues).view_queues()[c], 0, *demands, *estimates, max as int)),
        forall|c: u64| #[trigger] old(queues).view_queues().contains_key(c) ==> final(to_send).view_sends()[c]
            == pack(old(queues).view_queues()[c], 0, *demands, *estimates, max as int).sent,
        forall|c: u64| #[trigger]
            final(sent_unacked).ledgers().contains_key(c) <==> (old(sent_unacked).ledgers().contains_key(c)
                || old(queues).view_queues().contains_key(c)),
        forall|c: u64| #[trigger] old(queues).view_queues().contains_key(c) ==> final(sent_unacked).ledgers()[c]
            == recorded(
            ledger_of(old(sent_unacked).ledgers(), c),
            tick.0,
            pack(old(queues).view_queues()[c], 0, *demands, *estimates, max as int).sent,
        ),
        forall|c: u64| #[trigger] old(sent_unacked).ledgers().contains_key(c) && !old(queues).view_queues().contains_key(c)
            ==> final(sent_unacked).ledgers()[c] == old(sent_unacked).ledgers()[c],
{
    to_send.clear();
    let clients = queues.clients();
    let ghost v0 = queues.view_queues();
    let mut i: usize = 0;
    while i < clients.len()
        invariant
            i <= clients@.len(),
            increasing(clients@),
            forall|c: u64| #![trigger v0.contains_key(c)] #![trigger clients@.contains(c)]
                v0.contains_key(c) <==> clients@.contains(c),
            queues.view_queues().dom() == v0.dom(),
            forall|c: u64| #[trigger] to_send.view_sends().contains_key(c) <==> clients@.subrange(0, i as int).contains(c),
            forall|c: u64| #[trigger] clients@.subrange(0, i as int).contains(c) ==> queues.view_queues()[c]
                == packed_queue(pack(v0[c], 0, *demands, *estimates, max as int)),
            forall|c: u64| #[trigger] clients@.subrange(0, i as int).contains(c) ==> to_send.view_sends()[c]
                == pack(v0[c], 0, *demands, *estimates, max as int).sent,
            forall|c: u64| #[trigger] v0.contains_key(c) && !clients@.subrange(0, i as int).contains(c)
                ==> queues.view_queues()[c] == v0[c],
        decreases clients@.len() - i,
    {
        let c = clients[i];
        let ghost pre = clients@.subrange(0, i as int);
        let ghost pre1 = clients@.subrange(0, i + 1);
        proof {
            assert(clients@.contains(c));
            lemma_prefix_step(clients@, i as int);
        }
        let mut q = queues.take(c);
        let sent = select_interests(&mut q, demands, estimates, max);
        queues.put(c, q);
        to_send.set(c, sent);
        proof {
            assert(queues.view_queues().dom() =~= v0.dom());
        }
        i = i + 1;
    }
    proof {
        assert(clients@.subrange(0, i as int) =~= clients@);
        assert(to_send.view_sends().dom() =~= v0.dom());
    }
    sent_unacked.record_from_queue(tick, to_send);
}

} // verus!

verus! {

proof fn lemma_max_exists(s: Set<u64>)
    requires
        s.finite(),
        s.len() > 0,
    ensures
        exists|m: u64| s.contains(m) && forall|y: u64| s.contains(y) ==> y <= m,
    decreases s.len(),
{
    let x = s.choose();
    let r = s.remove(x);
    if r.len() == 0 {
        assert forall|y: u64| s.contains(y) implies y <= x by {
            if y != x {
                assert(r.contains(y));
            }
        }
    } else {
        lemma_max_exists(r);
        let m = choose|m: u64| r.contains(m) && forall|y: u64| r.contains(y) ==> y <= m;
        if m < x {
            assert forall|y: u64| s.contains(y) implies y <= x by {
                if y != x {
                    assert(r.contains(y));
                }
            }
        } else {
            assert forall|y: u64| s.contains(y) implies y <= m by {
                if y != x {
                    assert(r.contains(y));
                }
            }
        }
    }
}

/// Every finite set of ticks can be listed in increasing order.
pub proof fn lemma_increasing_exists(s: Set<u64>)
    requires
        s.finite(),
    ensures
        exists|ts: Seq<u64>| increasing(ts) && forall|t: u64| #[trigger] ts.contains(t) <==> s.contains(t),
    decreases s.len(),
{
    if s.len() == 0 {
        let ts = Seq::<u64>::empty();
        assert forall|t: u64| #[trigger] ts.contains(t) <==> s.contains(t) by {
            if s.contains(t) {
                assert(s.len() > 0) by {
                    s.lemma_len0_is_empty();
                }
            }
        }
        assert(increasing(ts));
    } else {
        lemma_max_exists(s);
        let m = choose|m: u64| s.contains(m) && forall|y: u64| s.contains(y) ==> y <= m;
        let r = s.remove(m);
        lemma_increasing_exists(r);
        let ts = choose|ts: Seq<u64>| increasing(ts) && forall|t: u64| #[trigger] ts.contains(t) <==> r.contains(t);
        let ts2 = ts.push(m);
        assert forall|i: int, j: int| 0 <= i < j < ts2.len() implies ts2[i] < ts2[j] by {
            if j == ts.len() {
                assert(ts.contains(ts[i]));
                assert(s.contains(ts[i]));
                assert(ts[i] != m);
            } else {
                assert(ts2[i] == ts[i] && ts2[j] == ts[j]);
            }
        }
        assert forall|t: u64| #[trigger] ts2.contains(t) <==> s.contains(t) by {
            if ts2.contains(t) && t != m {
                let i = choose|i: int| 0 <= i < ts2.len() && ts2[i] == t;
                assert(ts[i] == t);
                assert(ts.contains(t));
                assert(r.contains(t));
            }
            if s.contains(t) && t != m {
                assert(ts.contains(t));
                let i = choose|i: int| 0 <= i < ts.len() && ts[i] == t;
                assert(ts2[i] == t);
            }
            if t == m {
                assert(ts2[ts.len() as int] == m);
            }
        }
        assert(increasing(ts2));
    }
}

proof fn lemma_moved_to_front_members<I>(q: Seq<I>, x: I)
    ensures
        forall|y: I| #[trigger] moved_to_front(q, x).contains(y) <==> (q.contains(y) || y == x),
{
    q.index_of_first_ensures(x);
    let m = moved_to_front(q, x);
    assert forall|y: I| #[trigger] m.contains(y) <==> (q.contains(y) || y == x) by {
        assert(m[0] == x);
        match q.index_of_first(x) {
            Some(i) => {
                let rv = q.remove(i);
                assert(m == seq![x] + rv);
                if m.contains(y) && y != x {
                    let a = choose|a: int| 0 <= a < m.len() && m[a] == y;
                    if a - 1 < i {
                        assert(q[a - 1] == y);
                    } else {
                        assert(q[a] == y);
                    }
                }
                if q.contains(y) && y != x {
                    let a = choose|a: int| 0 <= a < q.len() && q[a] == y;
                    assert(a != i);
                    if a < i {
                        assert(m[a + 1] == y);
                    } else {
                        assert(m[a] == y);
                    }
                }
            },
            None => {
                if m.contains(y) && y != x {
                    let a = choose|a: int| 0 <= a < m.len() && m[a] == y;
                    assert(q[a - 1] == y);
                }
                if q.contains(y) && y != x {
                    let a = choose|a: int| 0 <= a < q.len() && q[a] == y;
                    assert(m[a + 1] == y);
                }
            },
        }
    }
}

proof fn lemma_push_all_front_members<I>(q: Seq<I>, items: Seq<I>)
    ensures
        forall|y: I| #[trigger] push_all_front(q, items).contains(y) <==> (q.contains(y) || items.contains(y)),
    decreases items.len(),
{
    if items.len() > 0 {
        lemma_push_all_front_members(q, items.drop_last());
        lemma_moved_to_front_members(push_all_front(q, items.drop_last()), items.last());
        assert forall|y: I| #[trigger] push_all_front(q, items).contains(y) <==> (q.contains(y) || items.contains(y)) by {
            if items.drop_last().contains(y) {
                let i = choose|i: int| 0 <= i < items.drop_last().len() && items.drop_last()[i] == y;
                assert(items[i] == y);
            }
            if items.contains(y) && y != items.last() {
                let i = choose|i: int| 0 <= i < items.len() && items[i] == y;
                assert(items.drop_last()[i] == y);
            }
        }
    }
}

proof fn lemma_concat_entries_members(ledger: Map<u64, Seq<Interest>>, ts: Seq<u64>, t: u64, x: Interest)
    requires
        ts.contains(t),
        ledger[t].contains(x),
    ensures
        concat_entries(ledger, ts).contains(x),
    decreases ts.len(),
{
    let c = concat_entries(ledger, ts);
    let e = ledger[ts.last()];
    let k = choose|k: int| 0 <= k < ledger[t].len() && ledger[t][k] == x;
    if ts.last() == t {
        assert(c[concat_entries(ledger, ts.drop_last()).len() + k] == x);
    } else {
        let i = choose|i: int| 0 <= i < ts.len() && ts[i] == t;
        assert(ts.drop_last()[i] == t);
        lemma_concat_entries_members(ledger, ts.drop_last(), t, x);
        let j = choose|j: int| 0 <= j < concat_entries(ledger, ts.drop_last()).len()
            && concat_entries(ledger, ts.drop_last())[j] == x;
        assert(c[j] == x);
    }
}

/// `x` is waiting in `queue` or recorded in some entry of `ledger`.
pub open spec fn tracked_interest(queue: Seq<Interest>, ledger: Map<u64, Seq<Interest>>, x: Interest) -> bool {
    queue.contains(x) || exists|t: u64| ledger.contains_key(t) && #[trigger] ledger[t].contains(x)
}

/// An interest that is queued or awaiting its ack is still queued or awaiting its ack after
/// the tick's dispatch: packing either keeps it in the queue or records it at `tick`.
pub proof fn lemma_dispatch_keeps_interest(
    queue: Seq<Interest>,
    ledger: Map<u64, Seq<Interest>>,
    tick: u64,
    demands: ReplicateDemands,
    est: ReplicateSizeEstimates,
    max: int,
    x: Interest,
)
    requires
        queue.no_duplicates(),
        tracked_interest(queue, ledger, x),
    ensures
        tracked_interest(
            packed_queue(pack(queue, 0, demands, est, max)),
            recorded(ledger, tick, pack(queue, 0, demands, est, max).sent),
            x,
        ),
{
    let p = pack(queue, 0, demands, est, max);
    let l2 = recorded(ledger, tick, p.sent);
    lemma_pack_keeps(queue, 0, demands, est, max);
    if queue.contains(x) {
        if !packed_queue(p).contains(x) {
            assert(p.sent.contains(x));
            let k = choose|k: int| 0 <= k < p.sent.len() && p.sent[k] == x;
            assert(l2[tick][queue_of(ledger, tick).len() + k] == x);
            assert(l2.contains_key(tick));
            assert(l2[tick].contains(x));
        }
    } else {
        let t = choose|t: u64| ledger.contains_key(t) && #[trigger] ledger[t].contains(x);
        assert(l2.contains_key(t));
        if t == tick {
            let k = choose|k: int| 0 <= k < ledger[t].len() && ledger[t][k] == x;
            assert(l2[t][k] == x);
            assert(l2[t].contains(x));
        } else {
            assert(l2[t] == ledger[t]);
            assert(l2[t].contains(x));
        }
    }
}

/// The resend step loses nothing it should keep: every interest that was queued stays
/// queued, and every interest recorded within the resend horizon of `current` is queued
/// again.
pub proof fn lemma_resend_keeps_interest(
    queue: Seq<Interest>,
    ledger: Map<u64, Seq<Interest>>,
    current: u64,
    x: Interest,
)
    requires
        ledger.dom().finite(),
        queue.contains(x) || exists|t: u64|
            ledger.contains_key(t) && resend_eligible(current, t) && #[trigger] ledger[t].contains(x),
    ensures
        push_all_front(queue, resend_items(ledger, current)).contains(x),
        forall|y: Interest| #[trigger] queue.contains(y) ==> push_all_front(queue, resend_items(ledger, current)).contains(y),
{
    let items = resend_items(ledger, current);
    lemma_push_all_front_members(queue, items);
    if !queue.contains(x) {
        let t = choose|t: u64| ledger.contains_key(t) && resend_eligible(current, t) && #[trigger] ledger[t].contains(x);
        lemma_increasing_exists(ledger.dom().filter(|u: u64| resend_eligible(current, u)));
        let ts = resend_ticks(ledger, current);
        assert(ts.contains(t));
        lemma_concat_entries_members(ledger, ts, t, x);
    }
}

} // verus!
