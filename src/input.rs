use vstd::prelude::*;

use crate::ack::NetworkAck;
use crate::ordered_map::{OrderedMap, max_key_of, lemma_bounded_keys};
use crate::resim::kept;
use crate::tick::NetworkTick;

verus! {

/// How many ticks of inputs the client keeps for replaying.
pub const INPUT_RETAIN_BUFFER: u64 = 32;

/// How many ticks of inputs the client sends each tick.
pub const INPUT_SEND_BUFFER: u64 = 6;

/// How many arrival gaps are kept per client.
pub const ARRIVAL_SAMPLES: usize = 64;

/// Inputs by the tick they are for.
pub struct QueuedInputs<I> {
    pub queue: OrderedMap<I>,
}

impl<I> QueuedInputs<I> {
    pub fn new() -> (r: QueuedInputs<I>)
        ensures
            r.queue@ == Map::<u64, I>::empty(),
    {
        QueuedInputs { queue: OrderedMap::new() }
    }

    pub fn get(&self, tick: &NetworkTick) -> (r: Option<&I>)
        ensures
            match r {
                Some(i) => self.queue@.contains_key(tick.0) && *i == self.queue@[tick.0],
                None => !self.queue@.contains_key(tick.0),
            },
    {
        self.queue.get(tick.0)
    }

    /// Sets the input for `tick`, replacing any.
    pub fn upsert(&mut self, tick: NetworkTick, input: I)
        ensures
            final(self).queue@ == old(self).queue@.insert(tick.0, input),
    {
        self.queue.insert(tick.0, input);
    }

    /// Sets the input for `tick` unless `tick` is already before `current`.
    pub fn upsert_reject(&mut self, current: NetworkTick, tick: NetworkTick, input: I)
        ensures
            tick.0 < current.0 ==> final(self).queue@ == old(self).queue@,
            tick.0 >= current.0 ==> final(self).queue@ == old(self).queue@.insert(tick.0, input),
    {
        if tick.0 < current.0 {
            return;
        }
        self.upsert(tick, input);
    }

    /// Takes in every input of `other`; where both have one for a tick, `other`'s wins.
    pub fn apply_buffer(&mut self, other: QueuedInputs<I>)
        ensures
            final(self).queue@ == old(self).queue@.union_prefer_right(other.queue@),
    {
        let ghost target = self.queue@.union_prefer_right(other.queue@);
        let mut rest = other;
        proof {
            rest.queue.lemma_finite();
        }
        while rest.queue.len() > 0
            invariant
                self.queue@.union_prefer_right(rest.queue@) == target,
                rest.queue@.dom().finite(),
            decreases rest.queue@.dom().len(),
        {
            match rest.queue.pop_first() {
                Some(e) => {
                    self.upsert(NetworkTick::new(e.0), e.1);
                    proof {
                        rest.queue.lemma_finite();
                    }
                },
                None => {},
            }
            proof {
                assert(self.queue@.union_prefer_right(rest.queue@) =~= target);
            }
        }
        proof {
            rest.queue.lemma_finite();
            rest.queue@.dom().lemma_len0_is_empty();
            assert(self.queue@.union_prefer_right(rest.queue@) =~= self.queue@);
        }
    }

    /// Drops inputs for ticks before `current`: those ticks were simulated already.
    pub fn clean_old(&mut self, current: NetworkTick)
        ensures
            final(self).queue@ == old(self).queue@.restrict(old(self).queue@.dom().filter(|t: u64| t >= current.0)),
    {
        self.queue.retain_from(current.0);
    }

    /// Records `input` for `tick` and keeps the last `INPUT_RETAIN_BUFFER` ticks.
    pub fn push(&mut self, tick: NetworkTick, input: I)
        ensures
            final(self).queue@ == kept(old(self).queue@.insert(tick.0, input), INPUT_RETAIN_BUFFER),
            final(self).queue@.dom().len() <= INPUT_RETAIN_BUFFER,
    {
        self.queue.insert(tick.0, input);
        self.retain(INPUT_RETAIN_BUFFER);
    }

    /// Keeps the inputs less than `buffer` ticks older than the newest.
    pub fn retain(&mut self, buffer: u64)
        ensures
            final(self).queue@ == kept(old(self).queue@, buffer),
            final(self).queue@.dom().len() <= buffer,
    {
        let ghost m0 = self.queue@;
        let newest = self.queue.max_key();
        self.queue.retain_window(buffer);
        proof {
            self.queue.lemma_finite();
            let n = max_key_of(m0);
            match newest {
                Some(x) => {
                    assert(m0.contains_key(n) && n <= x && x <= n);
                    assert forall|k: u64| #[trigger] self.queue@.dom().contains(k) implies n - buffer + 1 <= k <= n by {
                        assert(m0.contains_key(k));
                    }
                    lemma_bounded_keys(self.queue@.dom(), n - buffer + 1, n as int);
                },
                None => {
                    assert(self.queue@.dom() =~= Set::<u64>::empty());
                },
            }
        }
    }
}

/// Inputs of each client, on the server.
pub struct ClientQueuedInputs<I> {
    pub clients: OrderedMap<QueuedInputs<I>>,
}

impl<I> ClientQueuedInputs<I> {
    pub fn new() -> (r: ClientQueuedInputs<I>)
        ensures
            r.clients@ == Map::<u64, QueuedInputs<I>>::empty(),
    {
        ClientQueuedInputs { clients: OrderedMap::new() }
    }

    /// The input of `client` for `tick`.
    pub fn get(&self, client: u64, tick: &NetworkTick) -> (r: Option<&I>)
        ensures
            match r {
                Some(i) => self.clients@.contains_key(client) && self.clients@[client].queue@.contains_key(tick.0)
                    && *i == self.clients@[client].queue@[tick.0],
                None => !(self.clients@.contains_key(client) && self.clients@[client].queue@.contains_key(tick.0)),
            },
    {
        match self.clients.get(client) {
            Some(q) => q.get(tick),
            None => None,
        }
    }

    /// Takes in the inputs `client` sent; for a tick known already the new input wins.
    pub fn upsert(&mut self, client: u64, input: QueuedInputs<I>)
        ensures
            final(self).clients@.dom() == old(self).clients@.dom().insert(client),
            forall|c: u64| c != client && old(self).clients@.contains_key(c) ==> #[trigger] final(self).clients@[c]
                == old(self).clients@[c],
            old(self).clients@.contains_key(client) ==> final(self).clients@[client].queue@ == old(
                self,
            ).clients@[client].queue@.union_prefer_right(input.queue@),
            !old(self).clients@.contains_key(client) ==> final(self).clients@[client].queue@ == input.queue@,
    {
        match self.clients.remove(client) {
            Some(mut q) => {
                q.apply_buffer(input);
                self.clients.insert(client, q);
            },
            None => {
                self.clients.insert(client, input);
            },
        }
        proof {
            assert(self.clients@.dom() =~= old(self).clients@.dom().insert(client));
        }
    }

    /// Drops, for every client, the inputs for ticks before `current`.
    pub fn clean_old(&mut self, current: NetworkTick)
        ensures
            final(self).clients@.dom() == old(self).clients@.dom(),
            forall|c: u64| #[trigger] old(self).clients@.contains_key(c) ==> final(self).clients@[c].queue@
                == old(self).clients@[c].queue@.restrict(old(self).clients@[c].queue@.dom().filter(|t: u64| t >= current.0)),
    {
        let keys = self.clients.keys();
        let ghost m0 = self.clients@;
        let mut i: usize = 0;
        while i < keys.len()
            invariant
                i <= keys@.len(),
                forall|a: int, b: int| 0 <= a < b < keys@.len() ==> keys@[a] < keys@[b],
                forall|c: u64| #![trigger m0.contains_key(c)] #![trigger keys@.contains(c)]
                    m0.contains_key(c) <==> keys@.contains(c),
                self.clients@.dom() == m0.dom(),
                forall|j: int| 0 <= j < i ==> #[trigger] self.clients@[keys@[j]].queue@ == m0[keys@[j]].queue@.restrict(
                    m0[keys@[j]].queue@.dom().filter(|t: u64| t >= current.0)),
                forall|j: int| i <= j < keys@.len() ==> #[trigger] self.clients@[keys@[j]] == m0[keys@[j]],
            decreases keys@.len() - i,
        {
            let c = keys[i];
            proof {
                assert(keys@.contains(c));
                assert forall|j: int| 0 <= j < keys@.len() && j != i implies keys@[j] != c by {
                    if j < i {
                        assert(keys@[j] < keys@[i as int]);
                    } else {
                        assert(keys@[i as int] < keys@[j]);
                    }
                }
            }
            match self.clients.remove(c) {
                Some(mut q) => {
                    q.clean_old(current);
                    self.clients.insert(c, q);
                },
                None => {},
            }
            proof {
                assert(self.clients@.dom() =~= m0.dom());
            }
            i = i + 1;
        }
        proof {
            assert forall|c: u64| #[trigger] m0.contains_key(c) implies self.clients@[c].queue@ == m0[c].queue@.restrict(
                m0[c].queue@.dom().filter(|t: u64| t >= current.0)) by {
                let j = choose|j: int| 0 <= j < keys@.len() && keys@[j] == c;
                assert(self.clients@[keys@[j]].queue@ == m0[keys@[j]].queue@.restrict(
                    m0[keys@[j]].queue@.dom().filter(|t: u64| t >= current.0)));
            }
        }
    }
}

/// What the client sends each tick: its tick, its ack of server updates, and its latest
/// inputs.
pub struct ClientInputMessage<I> {
    pub tick: NetworkTick,
    pub ack: NetworkAck,
    pub inputs: QueuedInputs<I>,
}

} // verus!

verus! {

/// The gap between two arrivals: how long after `previous` the `sample` came, or zero.
pub open spec fn arrival_gap(previous: u64, sample: u64) -> u64 {
    if sample >= previous {
        (sample - previous) as u64
    } else {
        0
    }
}

/// `times` with `gap` appended, keeping the last `ARRIVAL_SAMPLES`.
pub open spec fn with_gap(times: Seq<u64>, gap: u64) -> Seq<u64> {
    let all = times.push(gap);
    if all.len() > ARRIVAL_SAMPLES {
        all.subrange(all.len() - ARRIVAL_SAMPLES, all.len() as int)
    } else {
        all
    }
}

/// Mean and standard deviation of the gaps between a client's input arrivals, in
/// nanoseconds.
#[derive(Debug, Clone, Copy, PartialEq, Eq, Structural)]
pub struct InputDeviation {
    pub mean: u64,
    pub deviation: u64,
}

/// Arrival times of one client's inputs, kept as the gaps between them.
pub struct ReceivedHistory {
    pub previous: Option<u64>,
    pub times: Vec<u64>,
}

impl ReceivedHistory {
    pub fn new() -> (r: ReceivedHistory)
        ensures
            r.previous is None,
            r.times@ == Seq::<u64>::empty(),
    {
        ReceivedHistory { previous: None, times: Vec::new() }
    }

    /// Records an arrival at `sample` nanoseconds.
    pub fn push(&mut self, sample: u64)
        ensures
            final(self).previous == Some(sample),
            old(self).previous is Some ==> final(self).times@.len() <= ARRIVAL_SAMPLES,
            match old(self).previous {
                Some(p) => final(self).times@ == with_gap(old(self).times@, arrival_gap(p, sample)),
                None => final(self).times@ == old(self).times@,
            },
    {
        match self.previous {
            Some(p) => {
                let gap = sample.saturating_sub(p);
                self.times.push(gap);
                let n = self.times.len();
                if n > ARRIVAL_SAMPLES {
                    let tail = self.times.split_off(n - ARRIVAL_SAMPLES);
                    self.times = tail;
                }
            },
            None => {},
        }
        self.previous = Some(sample);
    }

    /// The mean gap, rounded down; zero before the first gap.
    pub fn mean_gap(&self) -> (r: u64)
        ensures
            self.times@.len() == 0 ==> r == 0,
            self.times@.len() > 0 ==> r == gap_sum(self.times@) / (self.times@.len() as int),
    {
        let n = self.times.len();
        if n == 0 {
            return 0;
        }
        let mut sum: u128 = 0;
        let mut i: usize = 0;
        while i < n
            invariant
                i <= n,
                n == self.times@.len(),
                sum == gap_sum(self.times@.subrange(0, i as int)),
                sum <= i * (u64::MAX as int),
            decreases n - i,
        {
            proof {
                assert(self.times@.subrange(0, i + 1).drop_last() =~= self.times@.subrange(0, i as int));
                assert(i * (u64::MAX as int) + u64::MAX == (i + 1) * (u64::MAX as int)) by (nonlinear_arith);
                assert((i + 1) * (u64::MAX as int) <= (u64::MAX as int) * (u64::MAX as int)) by (nonlinear_arith)
                    requires i + 1 <= u64::MAX;
                assert((u64::MAX as int) * (u64::MAX as int) < u128::MAX);
            }
            sum = sum + self.times[i] as u128;
            i = i + 1;
        }
        proof {
            assert(self.times@.subrange(0, n as int) =~= self.times@);
            let s = sum as int;
            assert(s <= n * (u64::MAX as int));
            assert(s / (n as int) <= u64::MAX) by (nonlinear_arith)
                requires s <= n * (u64::MAX as int), n >= 1, s >= 0;
        }
        (sum / (n as u128)) as u64
    }
}

/// Sum of the gaps.
pub open spec fn gap_sum(times: Seq<u64>) -> int
    decreases times.len(),
{
    if times.len() == 0 {
        0
    } else {
        gap_sum(times.drop_last()) + times.last()
    }
}

/// Arrival histories of all clients.
pub struct ClientReceivedHistory {
    pub clients: OrderedMap<ReceivedHistory>,
}

impl ClientReceivedHistory {
    pub fn new() -> (r: ClientReceivedHistory)
        ensures
            r.clients@ == Map::<u64, ReceivedHistory>::empty(),
    {
        ClientReceivedHistory { clients: OrderedMap::new() }
    }

    /// Records an arrival from `client_id` at `sample` nanoseconds.
    pub fn push(&mut self, client_id: u64, sample: u64)
        ensures
            final(self).clients@.dom() == old(self).clients@.dom().insert(client_id),
            forall|c: u64| c != client_id && old(self).clients@.contains_key(c) ==> #[trigger] final(self).clients@[c]
                == old(self).clients@[c],
            final(self).clients@[client_id].previous == Some(sample),
            old(self).clients@.contains_key(client_id) ==> match old(self).clients@[client_id].previous {
                Some(p) => final(self).clients@[client_id].times@ == with_gap(
                    old(self).clients@[client_id].times@,
                    arrival_gap(p, sample),
                ),
                None => final(self).clients@[client_id].times@ == old(self).clients@[client_id].times@,
            },
            !old(self).clients@.contains_key(client_id) ==> final(self).clients@[client_id].times@.len() == 0,
    {
        let mut h = match self.clients.remove(client_id) {
            Some(h) => h,
            None => ReceivedHistory::new(),
        };
        h.push(sample);
        self.clients.insert(client_id, h);
        proof {
            assert(self.clients@.dom() =~= old(self).clients@.dom().insert(client_id));
        }
    }

    /// The mean arrival gap of `client_id`, zero where nothing is known.
    pub fn mean_gap(&self, client_id: u64) -> (r: u64)
        ensures
            self.clients@.contains_key(client_id) && self.clients@[client_id].times@.len() > 0 ==> r
                == gap_sum(self.clients@[client_id].times@) / (self.clients@[client_id].times@.len() as int),
            !(self.clients@.contains_key(client_id) && self.clients@[client_id].times@.len() > 0) ==> r == 0,
    {
        match self.clients.get(client_id) {
            Some(h) => h.mean_gap(),
            None => 0,
        }
    }
}

/// The message a client sends this tick: its inputs for the last `INPUT_SEND_BUFFER` ticks,
/// with the ack of what it received.
pub fn client_input_message<I>(tick: NetworkTick, ack: NetworkAck, inputs: QueuedInputs<I>) -> (r: ClientInputMessage<I>)
    ensures
        r.tick == tick,
        r.ack == ack,
        r.inputs.queue@ == kept(inputs.queue@, INPUT_SEND_BUFFER),
{
    let mut send_buffer = inputs;
    send_buffer.retain(INPUT_SEND_BUFFER);
    ClientInputMessage { tick, ack, inputs: send_buffer }
}

} // verus!

verus! {

/// Which entity each client plays.
pub struct Lobby {
    pub players: OrderedMap<u64>,
}

impl Lobby {
    pub fn new() -> (r: Lobby)
        ensures
            r.players@ == Map::<u64, u64>::empty(),
    {
        Lobby { players: OrderedMap::new() }
    }
}

/// The players whose input for `tick` has arrived, as (client, entity) pairs in increasing
/// client order: the host writes each such input to the entity.
pub fn server_apply_input<I>(lobby: &Lobby, inputs: &ClientQueuedInputs<I>, tick: NetworkTick) -> (r: Vec<(u64, u64)>)
    ensures
        forall|i: int, j: int| 0 <= i < j < r@.len() ==> r@[i].0 < r@[j].0,
        forall|i: int| 0 <= i < r@.len() ==> lobby.players@.contains_key(#[trigger] r@[i].0)
            && r@[i].1 == lobby.players@[r@[i].0] && inputs.clients@.contains_key(r@[i].0)
            && inputs.clients@[r@[i].0].queue@.contains_key(tick.0),
        forall|c: u64| lobby.players@.contains_key(c) && inputs.clients@.contains_key(c)
            && inputs.clients@[c].queue@.contains_key(tick.0) ==> exists|i: int| 0 <= i < r@.len() && #[trigger] r@[i].0 == c,
{
    let clients = lobby.players.keys();
    let mut r: Vec<(u64, u64)> = Vec::new();
    let ghost mut idx: Seq<int> = Seq::empty();
    let mut i: usize = 0;
    while i < clients.len()
        invariant
            i <= clients@.len(),
            forall|a: int, b: int| 0 <= a < b < clients@.len() ==> clients@[a] < clients@[b],
            forall|c: u64| #![trigger lobby.players@.contains_key(c)] #![trigger clients@.contains(c)]
                lobby.players@.contains_key(c) <==> clients@.contains(c),
            idx.len() == r@.len(),
            forall|a: int| 0 <= a < r@.len() ==> 0 <= #[trigger] idx[a] < i && clients@[idx[a]] == r@[a].0,
            forall|a: int, b: int| 0 <= a < b < r@.len() ==> idx[a] < idx[b],
            forall|a: int| 0 <= a < r@.len() ==> lobby.players@.contains_key(#[trigger] r@[a].0)
                && r@[a].1 == lobby.players@[r@[a].0] && inputs.clients@.contains_key(r@[a].0)
                && inputs.clients@[r@[a].0].queue@.contains_key(tick.0),
            forall|j: int| 0 <= j < i && inputs.clients@.contains_key(#[trigger] clients@[j])
                && inputs.clients@[clients@[j]].queue@.contains_key(tick.0) ==> exists|a: int| 0 <= a < r@.len() && idx[a] == j,
        decreases clients@.len() - i,
    {
        let c = clients[i];
        proof {
            assert(clients@.contains(c));
        }
        let ghost before = r@;
        let ghost idx0 = idx;
        match inputs.get(c, &tick) {
            Some(_) => {
                let e = match lobby.players.get(c) {
                    Some(e) => *e,
                    None => 0,
                };
                r.push((c, e));
                proof {
                    idx = idx.push(i as int);
                    assert forall|a: int| 0 <= a < r@.len() implies lobby.players@.contains_key(#[trigger] r@[a].0)
                        && r@[a].1 == lobby.players@[r@[a].0] && inputs.clients@.contains_key(r@[a].0)
                        && inputs.clients@[r@[a].0].queue@.contains_key(tick.0) by {
                        if a < before.len() {
                            assert(r@[a] == before[a]);
                        }
                    }
                    assert forall|a: int| 0 <= a < r@.len() implies 0 <= #[trigger] idx[a] < i + 1 && clients@[idx[a]] == r@[a].0 by {
                        if a < before.len() {
                            assert(r@[a] == before[a]);
                            assert(idx[a] == idx0[a]);
                        }
                    }
                    assert forall|j: int| 0 <= j < i + 1 && inputs.clients@.contains_key(#[trigger] clients@[j])
                        && inputs.clients@[clients@[j]].queue@.contains_key(tick.0) implies exists|a: int| 0 <= a < r@.len() && idx[a] == j by {
                        if j < i {
                            let a = choose|a: int| 0 <= a < idx0.len() && idx0[a] == j;
                            assert(idx[a] == j);
                        } else {
                            assert(idx[idx.len() - 1] == j);
                        }
                    }
                }
            },
            None => {},
        }
        i = i + 1;
    }
    proof {
        assert forall|a: int, b: int| 0 <= a < b < r@.len() implies r@[a].0 < r@[b].0 by {
            assert(idx[a] < idx[b]);
            assert(clients@[idx[a]] == r@[a].0);
            assert(clients@[idx[b]] == r@[b].0);
        }
        assert forall|c: u64| lobby.players@.contains_key(c) && inputs.clients@.contains_key(c)
            && inputs.clients@[c].queue@.contains_key(tick.0) implies exists|i: int| 0 <= i < r@.len() && #[trigger] r@[i].0 == c by {
            assert(clients@.contains(c));
            let j = choose|j: int| 0 <= j < clients@.len() && clients@[j] == c;
            assert(inputs.clients@.contains_key(clients@[j]));
            let a = choose|a: int| 0 <= a < r@.len() && idx[a] == j;
            assert(r@[a].0 == c);
        }
    }
    r
}

} // verus!
