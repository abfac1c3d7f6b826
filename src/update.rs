use vstd::prelude::*;

use crate::demands::ReplicateSizeEstimates;
use crate::input::InputDeviation;
use crate::demands::averaged;
use crate::interest::{Interest, InterestsToSend, concat_entries, increasing, lemma_increasing_unique, lemma_prefix_step};
use crate::ordered_map::OrderedMap;
use crate::replicate::ReplicateId;
use crate::resim::{kept, SNAPSHOT_RETAIN_BUFFER};
use crate::tick::NetworkTick;

verus! {

/// Number of distinct entity indices: a stable id is `generation * ENTITY_INDICES + index`.
pub const ENTITY_INDICES: u64 = 0x1_0000_0000;

/// Serialized components past this size are worth a warning.
pub const LARGE_COMPONENT: usize = 1000;

/// Identifier of a replicated entity that server and clients share: the server's own entity
/// index and generation.
#[derive(Debug, Clone, Copy, PartialEq, Eq, Structural, Hash)]
pub struct ServerEntity(pub u32, pub u32);

impl ServerEntity {
    /// The 64-bit stable id.
    pub open spec fn id(self) -> u64 {
        (self.1 as int * ENTITY_INDICES + self.0 as int) as u64
    }

    /// The server entity whose handle bits are `entity`: low half index, high half generation.
    pub fn from_entity(entity: u64) -> (r: ServerEntity)
        ensures
            r.0 == entity % ENTITY_INDICES,
            r.1 == entity / ENTITY_INDICES,
            r.id() == entity,
    {
        let r = ServerEntity((entity % ENTITY_INDICES) as u32, (entity / ENTITY_INDICES) as u32);
        proof {
            vstd::arithmetic::div_mod::lemma_fundamental_div_mod(entity as int, ENTITY_INDICES as int);
        }
        r
    }

    pub fn stable_id(&self) -> (r: u64)
        ensures
            r == self.id(),
    {
        proof {
            assert(self.1 as int * ENTITY_INDICES + self.0 as int <= u64::MAX) by (nonlinear_arith)
                requires self.1 <= u32::MAX, self.0 <= u32::MAX;
        }
        self.1 as u64 * ENTITY_INDICES + self.0 as u64
    }
}

/// Serialized components of one entity, by kind.
pub struct ComponentsUpdate {
    pub components: OrderedMap<Vec<u8>>,
}

impl ComponentsUpdate {
    /// Kind to bytes.
    pub open spec fn view_bytes(self) -> Map<u64, Seq<u8>> {
        self.components@.map_values(|v: Vec<u8>| v@)
    }

    pub fn new() -> (r: ComponentsUpdate)
        ensures
            r.view_bytes() == Map::<u64, Seq<u8>>::empty(),
    {
        let r = ComponentsUpdate { components: OrderedMap::new() };
        proof {
            assert(r.view_bytes() =~= Map::<u64, Seq<u8>>::empty());
        }
        r
    }

    pub fn insert(&mut self, kind: ReplicateId, bytes: Vec<u8>)
        ensures
            final(self).view_bytes() == old(self).view_bytes().insert(kind.key(), bytes@),
    {
        self.components.insert(kind.key_of(), bytes);
        proof {
            assert(self.view_bytes() =~= old(self).view_bytes().insert(kind.key(), bytes@));
        }
    }

    pub fn get(&self, kind: &ReplicateId) -> (r: Option<&Vec<u8>>)
        ensures
            match r {
                Some(b) => self.view_bytes().contains_key(kind.key()) && b@ == self.view_bytes()[kind.key()],
                None => !self.view_bytes().contains_key(kind.key()),
            },
    {
        self.components.get(kind.key_of())
    }

    /// Takes in `other`'s components; for a kind in both, `other`'s bytes win.
    pub fn apply(&mut self, other: ComponentsUpdate)
        ensures
            final(self).view_bytes() == old(self).view_bytes().union_prefer_right(other.view_bytes()),
    {
        let ghost target = self.view_bytes().union_prefer_right(other.view_bytes());
        let mut rest = other;
        proof {
            rest.components.lemma_finite();
            assert(self.view_bytes().union_prefer_right(rest.view_bytes()) =~= target);
        }
        while rest.components.len() > 0
            invariant
                self.view_bytes().union_prefer_right(rest.view_bytes()) == target,
                rest.components@.dom().finite(),
            decreases rest.components@.dom().len(),
        {
            let ghost before = self.view_bytes();
            let ghost rest_before = rest.view_bytes();
            match rest.components.pop_first() {
                Some(e) => {
                    self.components.insert(e.0, e.1);
                    proof {
                        rest.components.lemma_finite();
                        assert(self.view_bytes() =~= before.insert(e.0, e.1@));
                        assert(rest.view_bytes() =~= rest_before.remove(e.0));
                    }
                },
                None => {},
            }
            proof {
                assert(self.view_bytes().union_prefer_right(rest.view_bytes()) =~= target);
            }
        }
        proof {
            rest.components.lemma_finite();
            rest.components@.dom().lemma_len0_is_empty();
            assert(self.view_bytes().union_prefer_right(rest.view_bytes()) =~= self.view_bytes());
        }
    }
}

/// `a` with `b` folded in, entity by entity: where both hold an entity, their components
/// merge with `b`'s winning.
pub open spec fn merged(a: Map<u64, Map<u64, Seq<u8>>>, b: Map<u64, Map<u64, Seq<u8>>>) -> Map<
    u64,
    Map<u64, Seq<u8>>,
> {
    Map::new(
        |k: u64| a.contains_key(k) || b.contains_key(k),
        |k: u64|
            if a.contains_key(k) && b.contains_key(k) {
                a[k].union_prefer_right(b[k])
            } else if b.contains_key(k) {
                b[k]
            } else {
                a[k]
            },
    )
}

/// Serialized components by entity (its stable id).
pub struct EntityUpdate {
    pub updates: OrderedMap<ComponentsUpdate>,
}

impl EntityUpdate {
    /// Stable id to kind to bytes.
    pub open spec fn view_entities(self) -> Map<u64, Map<u64, Seq<u8>>> {
        self.updates@.map_values(|c: ComponentsUpdate| c.view_bytes())
    }

    pub fn new() -> (r: EntityUpdate)
        ensures
            r.view_entities() == Map::<u64, Map<u64, Seq<u8>>>::empty(),
    {
        let r = EntityUpdate { updates: OrderedMap::new() };
        proof {
            assert(r.view_entities() =~= Map::<u64, Map<u64, Seq<u8>>>::empty());
        }
        r
    }

    pub fn clear(&mut self)
        ensures
            final(self).view_entities() == Map::<u64, Map<u64, Seq<u8>>>::empty(),
    {
        self.updates = OrderedMap::new();
        proof {
            assert(self.view_entities() =~= Map::<u64, Map<u64, Seq<u8>>>::empty());
        }
    }

    pub fn len(&self) -> (r: usize)
        ensures
            r == self.view_entities().dom().len(),
    {
        proof {
            assert(self.view_entities().dom() =~= self.updates@.dom());
        }
        self.updates.len()
    }

    /// The entities, in increasing order of stable id.
    pub fn entities(&self) -> (r: Vec<u64>)
        ensures
            forall|i: int, j: int| 0 <= i < j < r@.len() ==> r@[i] < r@[j],
            forall|k: u64| self.view_entities().contains_key(k) <==> r@.contains(k),
    {
        self.updates.keys()
    }

    pub fn get(&self, entity: &ServerEntity) -> (r: Option<&ComponentsUpdate>)
        ensures
            match r {
                Some(c) => self.view_entities().contains_key(entity.id()) && c.view_bytes() == self.view_entities()[entity.id()],
                None => !self.view_entities().contains_key(entity.id()),
            },
    {
        self.updates.get(entity.stable_id())
    }

    /// Sets the bytes of `kind` on `entity`.
    pub fn insert(&mut self, entity: u64, kind: ReplicateId, bytes: Vec<u8>)
        ensures
            final(self).view_entities() == old(self).view_entities().insert(
                entity,
                (if old(self).view_entities().contains_key(entity) {
                    old(self).view_entities()[entity]
                } else {
                    Map::empty()
                }).insert(kind.key(), bytes@),
            ),
    {
        let mut c = match self.updates.remove(entity) {
            Some(c) => c,
            None => ComponentsUpdate::new(),
        };
        c.insert(kind, bytes);
        self.updates.insert(entity, c);
        proof {
            assert(self.view_entities() =~= old(self).view_entities().insert(
                entity,
                (if old(self).view_entities().contains_key(entity) {
                    old(self).view_entities()[entity]
                } else {
                    Map::empty()
                }).insert(kind.key(), bytes@),
            ));
        }
    }

    /// Takes in `other`, entity by entity.
    pub fn apply(&mut self, other: EntityUpdate)
        ensures
            final(self).view_entities() == merged(old(self).view_entities(), other.view_entities()),
    {
        let ghost a0 = self.view_entities();
        let ghost b0 = other.view_entities();
        let mut rest = other;
        proof {
            rest.updates.lemma_finite();
            assert(merged(a0, b0) =~= merged(self.view_entities(), rest.view_entities()));
        }
        while rest.updates.len() > 0
            invariant
                merged(self.view_entities(), rest.view_entities()) == merged(a0, b0),
                rest.updates@.dom().finite(),
            decreases rest.updates@.dom().len(),
        {
            let ghost before = self.view_entities();
            let ghost rest_before = rest.view_entities();
            match rest.updates.pop_first() {
                Some(e) => {
                    let (k, c) = e;
                    match self.updates.remove(k) {
                        Some(mut mine) => {
                            mine.apply(c);
                            self.updates.insert(k, mine);
                        },
                        None => {
                            self.updates.insert(k, c);
                        },
                    }
                    proof {
                        rest.updates.lemma_finite();
                        assert(rest.view_entities() =~= rest_before.remove(k));
                        assert(merged(self.view_entities(), rest.view_entities()) =~= merged(before, rest_before));
                    }
                },
                None => {},
            }
        }
        proof {
            rest.updates.lemma_finite();
            rest.updates@.dom().lemma_len0_is_empty();
            assert(merged(self.view_entities(), rest.view_entities()) =~= self.view_entities());
        }
    }
}

/// One server update to a client: the components that changed at `tick`, with the
/// server's view of the client's input timing.
pub struct UpdateMessage {
    pub tick: NetworkTick,
    pub input_deviation: InputDeviation,
    pub entity_update: EntityUpdate,
    pub component_despawn: Vec<(ServerEntity, ReplicateId)>,
    pub entity_despawn: Vec<ServerEntity>,
}

impl UpdateMessage {
    /// Folds in another update for the same tick.
    pub fn apply(&mut self, other: UpdateMessage)
        requires
            other.tick == old(self).tick,
        ensures
            final(self).tick == old(self).tick,
            final(self).input_deviation == old(self).input_deviation,
            final(self).entity_update.view_entities() == merged(
                old(self).entity_update.view_entities(),
                other.entity_update.view_entities(),
            ),
    {
        self.entity_update.apply(other.entity_update);
    }
}

/// Updates received from the server, by tick.
pub struct UpdateMessages {
    pub messages: OrderedMap<UpdateMessage>,
}

impl UpdateMessages {
    pub fn new() -> (r: UpdateMessages)
        ensures
            r.messages@ == Map::<u64, UpdateMessage>::empty(),
    {
        UpdateMessages { messages: OrderedMap::new() }
    }

    pub fn get(&self, tick: &NetworkTick) -> (r: Option<&UpdateMessage>)
        ensures
            match r {
                Some(m) => self.messages@.contains_key(tick.0) && *m == self.messages@[tick.0],
                None => !self.messages@.contains_key(tick.0),
            },
    {
        self.messages.get(tick.0)
    }

    /// The newest tick held.
    pub fn latest(&self) -> (r: Option<NetworkTick>)
        ensures
            match r {
                Some(t) => self.messages@.contains_key(t.0) && forall|k: u64| #[trigger]
                    self.messages@.contains_key(k) ==> k <= t.0,
                None => self.messages@.dom() == Set::<u64>::empty(),
            },
    {
        match self.messages.max_key() {
            Some(k) => Some(NetworkTick::new(k)),
            None => None,
        }
    }

    /// Stores `message` under its tick, folding it into one stored there already.
    pub fn push(&mut self, message: UpdateMessage)
        ensures
            final(self).messages@.dom() == old(self).messages@.dom().insert(message.tick.0),
            forall|k: u64| k != message.tick.0 && old(self).messages@.contains_key(k) ==> #[trigger] final(self).messages@[k]
                == old(self).messages@[k],
            !old(self).messages@.contains_key(message.tick.0) ==> final(self).messages@[message.tick.0] == message,
            old(self).messages@.contains_key(message.tick.0) && old(self).messages@[message.tick.0].tick == message.tick
                ==> final(self).messages@[message.tick.0].entity_update.view_entities() == merged(
                old(self).messages@[message.tick.0].entity_update.view_entities(),
                message.entity_update.view_entities(),
            ),
            old(self).messages@.contains_key(message.tick.0) && old(self).messages@[message.tick.0].tick != message.tick
                ==> final(self).messages@[message.tick.0] == message,
    {
        let t = message.tick.0;
        match self.messages.remove(t) {
            Some(mut m) => {
                if m.tick.0 == t {
                    m.apply(message);
                    self.messages.insert(t, m);
                } else {
                    self.messages.insert(t, message);
                }
            },
            None => {
                self.messages.insert(t, message);
            },
        }
        proof {
            assert(self.messages@.dom() =~= old(self).messages@.dom().insert(t));
        }
    }

    /// Keeps the updates less than `SNAPSHOT_RETAIN_BUFFER` ticks older than the newest.
    pub fn retain(&mut self)
        ensures
            final(self).messages@ == kept(old(self).messages@, SNAPSHOT_RETAIN_BUFFER),
    {
        self.messages.retain_window(SNAPSHOT_RETAIN_BUFFER);
    }
}

/// How the client's clock should move after an update.
#[derive(Debug, Clone, Copy, PartialEq, Eq, Structural)]
pub enum Dilation {
    Accelerate,
    Decelerate,
    Hold,
}

/// How far, in nanoseconds, the client wants to run ahead of the server: half the round
/// trip, two standard deviations of the input arrival gaps, and three steps.
pub open spec fn frame_buffer_spec(step: u64, rtt: u64, deviation: u64) -> int {
    rtt / 2 + 2 * deviation + 3 * step
}

/// `frame_buffer_spec`, capped at `u64::MAX`.
pub fn client_frame_buffer(step: u64, rtt: u64, deviation: u64) -> (r: u64)
    ensures
        r == if frame_buffer_spec(step, rtt, deviation) > u64::MAX {
            u64::MAX as int
        } else {
            frame_buffer_spec(step, rtt, deviation)
        },
{
    let total: u128 = (rtt / 2) as u128 + 2 * (deviation as u128) + 3 * (step as u128);
    if total > u64::MAX as u128 {
        u64::MAX
    } else {
        total as u64
    }
}

/// The clock correction for an update of tick `server` seen at local tick `local`: the lead,
/// `(local - server)` steps, is held against the frame buffer.
pub open spec fn dilation_spec(local: u64, server: u64, step: u64, frame_buffer: u64) -> Dilation {
    let lead = (local - server) * step;
    if lead > frame_buffer {
        Dilation::Decelerate
    } else if lead < frame_buffer {
        Dilation::Accelerate
    } else {
        Dilation::Hold
    }
}

pub fn time_dilation(local: NetworkTick, server: NetworkTick, step: u64, frame_buffer: u64) -> (r: Dilation)
    ensures
        r == dilation_spec(local.0, server.0, step, frame_buffer),
{
    if local.0 >= server.0 {
        let d = local.0 - server.0;
        proof {
            assert((d as int) * (step as int) <= (u64::MAX as int) * (u64::MAX as int)) by (nonlinear_arith)
                requires d <= u64::MAX, step <= u64::MAX;
            assert((u64::MAX as int) * (u64::MAX as int) <= u128::MAX);
        }
        let lead: u128 = (d as u128) * (step as u128);
        proof {
            assert(lead == (local.0 - server.0) * step);
        }
        if lead > frame_buffer as u128 {
            Dilation::Decelerate
        } else if lead < frame_buffer as u128 {
            Dilation::Accelerate
        } else {
            Dilation::Hold
        }
    } else if step == 0 {
        proof {
            let d = local.0 as int - server.0 as int;
            assert(d * (step as int) == 0) by (nonlinear_arith)
                requires step == 0;
        }
        if frame_buffer > 0 {
            Dilation::Accelerate
        } else {
            Dilation::Hold
        }
    } else {
        proof {
            let d = local.0 as int - server.0 as int;
            assert(d * (step as int) < 0) by (nonlinear_arith)
                requires d < 0, step > 0;
        }
        Dilation::Accelerate
    }
}

/// The oldest tick to rewind to, given the one found so far and the tick of a new update.
pub fn earliest_rewind(rewind: Option<NetworkTick>, tick: NetworkTick) -> (r: Option<NetworkTick>)
    ensures
        match rewind {
            Some(t) => r == Some(if tick.0 < t.0 { tick } else { t }),
            None => r == Some(tick),
        },
{
    match rewind {
        Some(t) => {
            if tick.0 < t.0 {
                Some(tick)
            } else {
                Some(t)
            }
        },
        None => Some(tick),
    }
}

} // verus!

verus! {

/// `update` with the bytes of `kind` put in for each interest of `interests` that is of
/// `kind` and whose entity has bytes in `values`.
pub open spec fn queued_into(
    update: Map<u64, Map<u64, Seq<u8>>>,
    interests: Seq<Interest>,
    kind: ReplicateId,
    values: Map<u64, Vec<u8>>,
) -> Map<u64, Map<u64, Seq<u8>>>
    decreases interests.len(),
{
    if interests.len() == 0 {
        update
    } else {
        let u = queued_into(update, interests.drop_last(), kind, values);
        let x = interests.last();
        if x.kind.0 == kind.0 && values.contains_key(x.entity) {
            u.insert(
                x.entity,
                (if u.contains_key(x.entity) { u[x.entity] } else { Map::empty() }).insert(kind.key(), values[x.entity]@),
            )
        } else {
            u
        }
    }
}

/// `sizes` after learning, in order, the size of the bytes of each interest of `interests`
/// that is of `kind` and whose entity has bytes in `values`.
pub open spec fn estimates_after(
    sizes: Map<u64, usize>,
    interests: Seq<Interest>,
    kind: ReplicateId,
    values: Map<u64, Vec<u8>>,
) -> Map<u64, usize>
    decreases interests.len(),
{
    if interests.len() == 0 {
        sizes
    } else {
        let m = estimates_after(sizes, interests.drop_last(), kind, values);
        let x = interests.last();
        if x.kind.0 == kind.0 && values.contains_key(x.entity) {
            averaged(m, kind.key(), values[x.entity]@.len() as usize)
        } else {
            m
        }
    }
}

/// Learning the sizes of `a + b` is learning those of `a`, then those of `b`.
proof fn lemma_estimates_after_concat(
    sizes: Map<u64, usize>,
    a: Seq<Interest>,
    b: Seq<Interest>,
    kind: ReplicateId,
    values: Map<u64, Vec<u8>>,
)
    ensures
        estimates_after(sizes, a + b, kind, values) == estimates_after(
            estimates_after(sizes, a, kind, values),
            b,
            kind,
            values,
        ),
    decreases b.len(),
{
    if b.len() == 0 {
        assert(a + b =~= a);
    } else {
        lemma_estimates_after_concat(sizes, a, b.drop_last(), kind, values);
        assert((a + b).drop_last() =~= a + b.drop_last());
        assert((a + b).last() == b.last());
    }
}

/// The interests chosen for every client, client by client in increasing order.
pub open spec fn all_sends(sends: Map<u64, Seq<Interest>>) -> Seq<Interest> {
    concat_entries(sends, sorted_keys(sends))
}

/// The clients of `sends` in increasing order.
pub open spec fn sorted_keys(sends: Map<u64, Seq<Interest>>) -> Seq<u64> {
    choose|ts: Seq<u64>| increasing(ts) && forall|t: u64| #[trigger] ts.contains(t) <==> sends.contains_key(t)
}

/// The per-client updates being built this tick.
pub struct ClientEntityUpdates {
    pub clients: OrderedMap<EntityUpdate>,
}

impl ClientEntityUpdates {
    /// Client to its update.
    pub open spec fn view_clients(self) -> Map<u64, Map<u64, Map<u64, Seq<u8>>>> {
        self.clients@.map_values(|u: EntityUpdate| u.view_entities())
    }

    pub fn new() -> (r: ClientEntityUpdates)
        ensures
            r.view_clients() == Map::<u64, Map<u64, Map<u64, Seq<u8>>>>::empty(),
    {
        let r = ClientEntityUpdates { clients: OrderedMap::new() };
        proof {
            assert(r.view_clients() =~= Map::<u64, Map<u64, Map<u64, Seq<u8>>>>::empty());
        }
        r
    }

    pub fn get(&self, client_id: u64) -> (r: Option<&EntityUpdate>)
        ensures
            match r {
                Some(u) => self.view_clients().contains_key(client_id) && u.view_entities() == self.view_clients()[client_id],
                None => !self.view_clients().contains_key(client_id),
            },
    {
        self.clients.get(client_id)
    }

    /// The clients with an update, in increasing order.
    pub fn clients(&self) -> (r: Vec<u64>)
        ensures
            forall|i: int, j: int| 0 <= i < j < r@.len() ==> r@[i] < r@[j],
            forall|c: u64| self.view_clients().contains_key(c) <==> r@.contains(c),
    {
        self.clients.keys()
    }

    /// Empties every client's update.
    pub fn clear(&mut self)
        ensures
            final(self).view_clients().dom() == old(self).view_clients().dom(),
            forall|c: u64| #[trigger] final(self).view_clients().contains_key(c) ==> final(self).view_clients()[c]
                == Map::<u64, Map<u64, Seq<u8>>>::empty(),
    {
        let keys = self.clients.keys();
        let ghost d0 = self.view_clients().dom();
        let mut i: usize = 0;
        while i < keys.len()
            invariant
                i <= keys@.len(),
                forall|c: u64| #![trigger d0.contains(c)] #![trigger keys@.contains(c)] d0.contains(c) <==> keys@.contains(c),
                self.view_clients().dom() == d0,
                forall|j: int| 0 <= j < i ==> #[trigger] self.view_clients()[keys@[j]] == Map::<u64, Map<u64, Seq<u8>>>::empty(),
            decreases keys@.len() - i,
        {
            let k = keys[i];
            proof {
                assert(keys@.contains(k));
            }
            let ghost vb = self.view_clients();
            let fresh = EntityUpdate::new();
            self.clients.insert(k, fresh);
            proof {
                assert(self.view_clients() =~= vb.insert(k, Map::<u64, Map<u64, Seq<u8>>>::empty()));
                assert(self.view_clients().dom() =~= d0);
                assert forall|j: int| 0 <= j < i + 1 implies #[trigger] self.view_clients()[keys@[j]] == Map::<u64, Map<u64, Seq<u8>>>::empty() by {
                    if j < i {
                        assert(vb[keys@[j]] == Map::<u64, Map<u64, Seq<u8>>>::empty());
                    }
                }
            }
            i = i + 1;
        }
        proof {
            assert forall|c: u64| #[trigger] self.view_clients().contains_key(c) implies self.view_clients()[c]
                == Map::<u64, Map<u64, Seq<u8>>>::empty() by {
                let j = choose|j: int| 0 <= j < keys@.len() && keys@[j] == c;
                assert(self.view_clients()[keys@[j]] == Map::<u64, Map<u64, Seq<u8>>>::empty());
            }
        }
    }
}

/// Serializes into one client's update the interests of `kind` chosen for it, and records
/// each serialized size as the kind's estimate.
fn queue_kind_for_client(
    estimates: &mut ReplicateSizeEstimates,
    update: &mut EntityUpdate,
    interests: &Vec<Interest>,
    kind: ReplicateId,
    values: &OrderedMap<Vec<u8>>,
)
    ensures
        final(update).view_entities() == queued_into(old(update).view_entities(), interests@, kind, values@),
        final(estimates).sizes@ == estimates_after(old(estimates).sizes@, interests@, kind, values@),
{
    let ghost u0 = update.view_entities();
    let mut i: usize = 0;
    while i < interests.len()
        invariant
            i <= interests@.len(),
            update.view_entities() == queued_into(u0, interests@.subrange(0, i as int), kind, values@),
            estimates.sizes@ == estimates_after(old(estimates).sizes@, interests@.subrange(0, i as int), kind, values@),
        decreases interests@.len() - i,
    {
        let x = interests[i];
        proof {
            assert(interests@.subrange(0, i + 1).drop_last() =~= interests@.subrange(0, i as int));
            assert(interests@.subrange(0, i + 1).last() == x);
        }
        if x.kind.0 == kind.0 {
            match values.get(x.entity) {
                Some(bytes) => {
                    let server_entity = ServerEntity::from_entity(x.entity);
                    estimates.add(kind, bytes.len());
                    update.insert(server_entity.stable_id(), kind, bytes.clone());
                },
                None => {},
            }
        }
        i = i + 1;
    }
    proof {
        assert(interests@.subrange(0, i as int) =~= interests@);
    }
}

/// For one component kind: puts into each client's update the bytes of every interest of
/// that kind chosen for it this tick, where `values` holds the entity's serialized value.
pub fn server_queue_interest(
    estimates: &mut ReplicateSizeEstimates,
    updates: &mut ClientEntityUpdates,
    to_send: &InterestsToSend,
    kind: ReplicateId,
    values: &OrderedMap<Vec<u8>>,
)
    ensures
        forall|c: u64| #[trigger]
            final(updates).view_clients().contains_key(c) <==> (old(updates).view_clients().contains_key(c)
                || to_send.view_sends().contains_key(c)),
        forall|c: u64| #[trigger] to_send.view_sends().contains_key(c) ==> final(updates).view_clients()[c] == queued_into(
            if old(updates).view_clients().contains_key(c) { old(updates).view_clients()[c] } else { Map::empty() },
            to_send.view_sends()[c],
            kind,
            values@,
        ),
        forall|c: u64| #[trigger] old(updates).view_clients().contains_key(c) && !to_send.view_sends().contains_key(c)
            ==> final(updates).view_clients()[c] == old(updates).view_clients()[c],
        final(estimates).sizes@ == estimates_after(old(estimates).sizes@, all_sends(to_send.view_sends()), kind, values@),
{
    let clients = to_send.clients();
    let ghost e0 = estimates.sizes@;
    let ghost v0 = updates.view_clients();
    let ghost s = to_send.view_sends();
    let mut i: usize = 0;
    while i < clients.len()
        invariant
            i <= clients@.len(),
            crate::interest::increasing(clients@),
            s == to_send.view_sends(),
            forall|c: u64| #![trigger s.contains_key(c)] #![trigger clients@.contains(c)] s.contains_key(c) <==> clients@.contains(c),
            forall|c: u64| #[trigger] updates.view_clients().contains_key(c) <==> (v0.contains_key(c)
                || clients@.subrange(0, i as int).contains(c)),
            forall|c: u64| #[trigger] clients@.subrange(0, i as int).contains(c) ==> updates.view_clients()[c] == queued_into(
                if v0.contains_key(c) { v0[c] } else { Map::empty() },
                s[c],
                kind,
                values@,
            ),
            forall|c: u64| #[trigger] v0.contains_key(c) && !clients@.subrange(0, i as int).contains(c)
                ==> updates.view_clients()[c] == v0[c],
            estimates.sizes@ == estimates_after(e0, concat_entries(s, clients@.subrange(0, i as int)), kind, values@),
        decreases clients@.len() - i,
    {
        let c = clients[i];
        let ghost pre = clients@.subrange(0, i as int);
        let ghost pre1 = clients@.subrange(0, i + 1);
        let ghost eb = estimates.sizes@;
        proof {
            assert(pre1.drop_last() =~= pre);
            assert(pre1.last() == c);
            assert(concat_entries(s, pre1) == concat_entries(s, pre) + s[c]);
            lemma_estimates_after_concat(e0, concat_entries(s, pre), s[c], kind, values@);
            assert(clients@.contains(c));
            lemma_prefix_step(clients@, i as int);
        }
        let ghost vb = updates.view_clients();
        proof {
            assert(vb.contains_key(c) == v0.contains_key(c));
            if v0.contains_key(c) {
                assert(vb[c] == v0[c]);
            }
        }
        let mut u = match updates.clients.remove(c) {
            Some(u) => u,
            None => EntityUpdate::new(),
        };
        proof {
            assert(updates.view_clients() =~= vb.remove(c));
            assert(u.view_entities() == (if v0.contains_key(c) { v0[c] } else { Map::<u64, Map<u64, Seq<u8>>>::empty() }));
        }
        match to_send.get(c) {
            Some(interests) => {
                queue_kind_for_client(estimates, &mut u, interests, kind, values);
            },
            None => {},
        }
        let ghost uv = u.view_entities();
        updates.clients.insert(c, u);
        proof {
            assert(updates.view_clients() =~= vb.insert(c, uv));
            assert(estimates.sizes@ == estimates_after(eb, s[c], kind, values@));
        }
        i = i + 1;
    }
    proof {
        assert(clients@.subrange(0, i as int) =~= clients@);
        assert(increasing(clients@) && forall|t: u64| #[trigger] clients@.contains(t) <==> s.contains_key(t));
        lemma_increasing_unique(sorted_keys(s), clients@);
    }
}

} // verus!
