use vstd::prelude::*;

use crate::ordered_map::{OrderedMap, max_key_of, lemma_bounded_keys};
use crate::tick::NetworkTick;

verus! {

/// How many ticks of snapshots are kept.
pub const SNAPSHOT_RETAIN_BUFFER: u64 = 32;

/// The value of one component kind on each entity at one tick.
pub struct ComponentSnapshot<C> {
    pub components: OrderedMap<C>,
}

impl<C> ComponentSnapshot<C> {
    pub fn new() -> (r: ComponentSnapshot<C>)
        ensures
            r.components@ == Map::<u64, C>::empty(),
    {
        ComponentSnapshot { components: OrderedMap::new() }
    }

    pub fn insert(&mut self, entity: u64, component: C)
        ensures
            final(self).components@ == old(self).components@.insert(entity, component),
    {
        self.components.insert(entity, component);
    }

    pub fn get(&self, entity: u64) -> (r: Option<&C>)
        ensures
            match r {
                Some(c) => self.components@.contains_key(entity) && *c == self.components@[entity],
                None => !self.components@.contains_key(entity),
            },
    {
        self.components.get(entity)
    }
}

/// The ticks kept once `window` is applied to a table whose keys are `dom`.
pub open spec fn kept<V>(m: Map<u64, V>, window: u64) -> Map<u64, V> {
    m.restrict(m.dom().filter(|k: u64| max_key_of(m) - k < window))
}

/// Past values of one component kind, by tick, for rewinding.
pub struct SnapshotBuffer<C> {
    pub snapshots: OrderedMap<ComponentSnapshot<C>>,
}

impl<C> SnapshotBuffer<C> {
    pub fn new() -> (r: SnapshotBuffer<C>)
        ensures
            r.snapshots@ == Map::<u64, ComponentSnapshot<C>>::empty(),
    {
        SnapshotBuffer { snapshots: OrderedMap::new() }
    }

    /// Stores `snapshot` as the values at `tick` and drops snapshots that are
    /// `SNAPSHOT_RETAIN_BUFFER` ticks or more older than the newest.
    pub fn push(&mut self, tick: NetworkTick, snapshot: ComponentSnapshot<C>)
        ensures
            final(self).snapshots@ == kept(old(self).snapshots@.insert(tick.0, snapshot), SNAPSHOT_RETAIN_BUFFER),
            final(self).snapshots@.dom().len() <= SNAPSHOT_RETAIN_BUFFER,
            forall|k: u64| #[trigger] final(self).snapshots@.contains_key(k) ==> k + SNAPSHOT_RETAIN_BUFFER
                > max_key_of(old(self).snapshots@.insert(tick.0, snapshot)),
    {
        self.snapshots.insert(tick.0, snapshot);
        self.clean_old();
    }

    /// Drops snapshots that are `SNAPSHOT_RETAIN_BUFFER` ticks or more older than the newest.
    pub fn clean_old(&mut self)
        ensures
            final(self).snapshots@ == kept(old(self).snapshots@, SNAPSHOT_RETAIN_BUFFER),
            final(self).snapshots@.dom().len() <= SNAPSHOT_RETAIN_BUFFER,
            forall|k: u64| #[trigger] final(self).snapshots@.contains_key(k) ==> k + SNAPSHOT_RETAIN_BUFFER
                > max_key_of(old(self).snapshots@),
    {
        let ghost m0 = self.snapshots@;
        let newest = self.snapshots.max_key();
        self.snapshots.retain_window(SNAPSHOT_RETAIN_BUFFER);
        proof {
            let n = max_key_of(m0);
            match newest {
                Some(x) => {
                    assert(m0.contains_key(n) && n <= x && x <= n);
                    assert forall|k: u64| #[trigger] self.snapshots@.dom().contains(k) implies n - 31 <= k <= n by {
                        assert(m0.contains_key(k));
                    }
                    self.snapshots.lemma_finite();
                    lemma_bounded_keys(self.snapshots@.dom(), n - 31, n as int);
                },
                None => {
                    assert(self.snapshots@.dom() =~= Set::<u64>::empty());
                },
            }
        }
    }

    /// The oldest tick with a snapshot.
    pub fn oldest(&self) -> (r: Option<NetworkTick>)
        ensures
            match r {
                Some(t) => self.snapshots@.contains_key(t.0) && forall|k: u64| #[trigger]
                    self.snapshots@.contains_key(k) ==> t.0 <= k,
                None => self.snapshots@.dom() == Set::<u64>::empty(),
            },
    {
        match self.snapshots.min_key() {
            Some(k) => Some(NetworkTick::new(k)),
            None => None,
        }
    }

    /// The snapshot taken at `tick`, if still kept.
    pub fn get(&self, tick: &NetworkTick) -> (r: Option<&ComponentSnapshot<C>>)
        ensures
            match r {
                Some(s) => self.snapshots@.contains_key(tick.0) && *s == self.snapshots@[tick.0],
                None => !self.snapshots@.contains_key(tick.0),
            },
    {
        self.snapshots.get(tick.0)
    }
}

/// The snapshot made of `components`: each entity with its value, the first listing of an
/// entity counting.
pub open spec fn snapshot_of<C>(components: Seq<(u64, C)>) -> Map<u64, C>
    decreases components.len(),
{
    if components.len() == 0 {
        Map::empty()
    } else {
        snapshot_of(components.drop_first()).insert(components[0].0, components[0].1)
    }
}

/// Records the values of one kind at `tick`: `components` lists each entity with its value.
pub fn store_snapshot<C>(tick: NetworkTick, snapshots: &mut SnapshotBuffer<C>, components: Vec<(u64, C)>)
    ensures
        exists|s: ComponentSnapshot<C>| #[trigger] s.components@ == snapshot_of(components@)
            && final(snapshots).snapshots@ == kept(old(snapshots).snapshots@.insert(tick.0, s), SNAPSHOT_RETAIN_BUFFER),
        final(snapshots).snapshots@.dom().len() <= SNAPSHOT_RETAIN_BUFFER,
{
    let ghost all = components@;
    let mut snapshot = ComponentSnapshot::new();
    let mut components = components;
    let n = components.len();
    let mut i: usize = 0;
    while i < n
        invariant
            i <= n,
            n == all.len(),
            components@ == all.subrange(0, n - i),
            snapshot.components@ == snapshot_of(all.subrange(n - i, n as int)),
        decreases n - i,
    {
        let ghost j = n - i - 1;
        let (e, c) = components.pop().unwrap();
        proof {
            assert(all.subrange(j, n as int).drop_first() =~= all.subrange(j + 1, n as int));
            assert(all.subrange(j, n as int)[0] == all[j]);
        }
        snapshot.insert(e, c);
        i = i + 1;
        proof {
            assert(components@ =~= all.subrange(0, n - i));
        }
    }
    proof {
        assert(all.subrange(0, n as int) =~= all);
    }
    let ghost s = snapshot;
    snapshots.push(tick, snapshot);
    proof {
        assert(s.components@ == snapshot_of(all));
    }
}

} // verus!
