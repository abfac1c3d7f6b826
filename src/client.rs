use vstd::prelude::*;

use crate::ordered_map::OrderedMap;
use crate::interest::lemma_prefix_step;
use crate::update::ServerEntity;

verus! {

/// The client's map from server entities (by stable id) to its own entity handles.
pub struct ServerEntities {
    pub entities: OrderedMap<u64>,
}

impl ServerEntities {
    pub fn new() -> (r: ServerEntities)
        ensures
            r.entities@ == Map::<u64, u64>::empty(),
    {
        ServerEntities { entities: OrderedMap::new() }
    }

    /// The local handle of `server_entity`, if it has one.
    pub fn get(&self, server_entity: ServerEntity) -> (r: Option<u64>)
        ensures
            match r {
                Some(h) => self.entities@.contains_key(server_entity.id()) && h == self.entities@[server_entity.id()],
                None => !self.entities@.contains_key(server_entity.id()),
            },
    {
        match self.entities.get(server_entity.stable_id()) {
            Some(h) => Some(*h),
            None => None,
        }
    }

    /// The handle of `server_entity`, recording `spawned` as its handle when it has none
    /// yet. `spawned` is the entity the host made for it.
    pub fn spawn_or_get(&mut self, server_entity: ServerEntity, spawned: u64) -> (r: u64)
        ensures
            old(self).entities@.contains_key(server_entity.id()) ==> r == old(self).entities@[server_entity.id()]
                && final(self).entities@ == old(self).entities@,
            !old(self).entities@.contains_key(server_entity.id()) ==> r == spawned
                && final(self).entities@ == old(self).entities@.insert(server_entity.id(), spawned),
    {
        let id = server_entity.stable_id();
        match self.entities.get(id) {
            Some(h) => *h,
            None => {
                self.entities.insert(id, spawned);
                spawned
            },
        }
    }

    /// Whether `server_entity` has a local handle: the host must spawn one when it has not.
    pub fn needs_spawn(&self, server_entity: ServerEntity) -> (r: bool)
        ensures
            r == !self.entities@.contains_key(server_entity.id()),
    {
        !self.entities.contains_key(server_entity.stable_id())
    }

    /// Drops the entries whose local handle is not in `live`; returns whether any went.
    pub fn clean(&mut self, live: &Vec<u64>) -> (r: bool)
        ensures
            forall|k: u64| #[trigger] final(self).entities@.contains_key(k) <==> (old(self).entities@.contains_key(k)
                && live@.contains(old(self).entities@[k])),
            forall|k: u64| #[trigger] final(self).entities@.contains_key(k) ==> final(self).entities@[k] == old(self).entities@[k],
            r == exists|k: u64| old(self).entities@.contains_key(k) && !live@.contains(#[trigger] old(self).entities@[k]),
    {
        let keys = self.entities.keys();
        let ghost m0 = self.entities@;
        let mut removed = false;
        let mut i: usize = 0;
        while i < keys.len()
            invariant
                i <= keys@.len(),
                forall|a: int, b: int| 0 <= a < b < keys@.len() ==> keys@[a] < keys@[b],
                forall|k: u64| #![trigger m0.contains_key(k)] #![trigger keys@.contains(k)]
                    m0.contains_key(k) <==> keys@.contains(k),
                forall|k: u64| #[trigger] self.entities@.contains_key(k) <==> (m0.contains_key(k) && !(
                    keys@.subrange(0, i as int).contains(k) && !live@.contains(m0[k]))),
                forall|k: u64| #[trigger] self.entities@.contains_key(k) ==> self.entities@[k] == m0[k],
                removed == exists|j: int| 0 <= j < i && !live@.contains(#[trigger] m0[keys@[j]]),
            decreases keys@.len() - i,
        {
            let k = keys[i];
            let ghost pre = keys@.subrange(0, i as int);
            let ghost pre1 = keys@.subrange(0, i + 1);
            proof {
                assert(keys@.contains(k));
                lemma_prefix_step(keys@, i as int);
                assert(self.entities@.contains_key(k));
            }
            let h = match self.entities.get(k) {
                Some(h) => *h,
                None => 0,
            };
            let mut alive = false;
            let mut j: usize = 0;
            while j < live.len()
                invariant
                    j <= live@.len(),
                    alive == live@.subrange(0, j as int).contains(h),
                decreases live@.len() - j,
            {
                proof {
                    assert(live@.subrange(0, j + 1) =~= live@.subrange(0, j as int).push(live@[j as int]));
                }
                proof {
                    let p = live@.subrange(0, j as int);
                    let p1 = live@.subrange(0, j + 1);
                    assert(p1.contains(h) <==> (p.contains(h) || live@[j as int] == h)) by {
                        if p1.contains(h) {
                            let a = choose|a: int| 0 <= a < p1.len() && p1[a] == h;
                            if a < p.len() {
                                assert(p[a] == h);
                            }
                        }
                        if p.contains(h) {
                            let a = choose|a: int| 0 <= a < p.len() && p[a] == h;
                            assert(p1[a] == h);
                        }
                        if live@[j as int] == h {
                            assert(p1[p.len() as int] == h);
                        }
                    }
                }
                if live[j] == h {
                    alive = true;
                }
                j = j + 1;
            }
            proof {
                assert(live@.subrange(0, j as int) =~= live@);
            }
            if !alive {
                self.entities.remove(k);
                removed = true;
            }
            proof {
                assert(h == m0[k]);
                assert(removed == exists|jj: int| 0 <= jj < i + 1 && !live@.contains(#[trigger] m0[keys@[jj]])) by {
                    if !alive {
                        assert(keys@[i as int] == k);
                    }
                }
            }
            i = i + 1;
        }
        proof {
            assert(keys@.subrange(0, i as int) =~= keys@);
            assert(removed == exists|k: u64| m0.contains_key(k) && !live@.contains(#[trigger] m0[k])) by {
                if removed {
                    let jj = choose|jj: int| 0 <= jj < i && !live@.contains(#[trigger] m0[keys@[jj]]);
                    assert(m0.contains_key(keys@[jj]));
                }
                if exists|k: u64| m0.contains_key(k) && !live@.contains(#[trigger] m0[k]) {
                    let k = choose|k: u64| m0.contains_key(k) && !live@.contains(#[trigger] m0[k]);
                    let jj = choose|jj: int| 0 <= jj < keys@.len() && keys@[jj] == k;
                    assert(!live@.contains(m0[keys@[jj]]));
                }
            }
        }
        removed
    }

    /// Forgets every server entity and hands back the local handles, for the host to
    /// despawn.
    pub fn disconnect(&mut self) -> (r: Vec<u64>)
        ensures
            final(self).entities@ == Map::<u64, u64>::empty(),
            forall|k: u64| #[trigger] old(self).entities@.contains_key(k) ==> r@.contains(old(self).entities@[k]),
            forall|i: int| 0 <= i < r@.len() ==> old(self).entities@.values().contains(#[trigger] r@[i]),
    {
        let ghost m0 = self.entities@;
        let mut r: Vec<u64> = Vec::new();
        let ghost mut ks: Seq<u64> = Seq::empty();
        proof {
            self.entities.lemma_finite();
        }
        while self.entities.len() > 0
            invariant
                self.entities@.dom().finite(),
                forall|k: u64| #[trigger] self.entities@.contains_key(k) ==> m0.contains_key(k) && self.entities@[k] == m0[k],
                forall|k: u64| #[trigger] m0.contains_key(k) ==> self.entities@.contains_key(k) || r@.contains(m0[k]),
                ks.len() == r@.len(),
                forall|i: int| 0 <= i < r@.len() ==> m0.contains_key(#[trigger] ks[i]) && r@[i] == m0[ks[i]],
            decreases self.entities@.dom().len(),
        {
            let ghost before = r@;
            match self.entities.pop_first() {
                Some(e) => {
                    r.push(e.1);
                    proof {
                        ks = ks.push(e.0);
                        self.entities.lemma_finite();
                        assert(r@[r@.len() - 1] == m0[e.0]);
                        assert forall|k: u64| #[trigger] m0.contains_key(k) implies self.entities@.contains_key(k)
                            || r@.contains(m0[k]) by {
                            if k == e.0 {
                                assert(r@[r@.len() - 1] == m0[k]);
                            } else if !self.entities@.contains_key(k) {
                                let a = choose|a: int| 0 <= a < before.len() && before[a] == m0[k];
                                assert(r@[a] == m0[k]);
                            }
                        }
                        assert forall|i: int| 0 <= i < r@.len() implies m0.contains_key(#[trigger] ks[i]) && r@[i] == m0[ks[i]] by {
                            if i < before.len() {
                                assert(r@[i] == before[i]);
                            }
                        }
                    }
                },
                None => {},
            }
        }
        proof {
            self.entities@.dom().lemma_len0_is_empty();
            assert(self.entities@ =~= Map::<u64, u64>::empty());
            assert forall|i: int| 0 <= i < r@.len() implies old(self).entities@.values().contains(#[trigger] r@[i]) by {
                assert(m0.contains_key(ks[i]) && r@[i] == m0[ks[i]]);
            }
        }
        r
    }
}

} // verus!
