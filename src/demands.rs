use vstd::prelude::*;

use crate::ordered_map::OrderedMap;
use crate::replicate::ReplicateId;

verus! {

/// Size assumed for a kind whose serialized size was never seen.
pub const DEFAULT_ESTIMATE: usize = 128;

/// Default byte budget of one update message.
pub const DEFAULT_MAX_SIZE: usize = 1500;

/// `sizes` after learning the observed size `sample` for `key`: the estimate moves halfway
/// towards the sample, or is the sample when there was none.
pub open spec fn averaged(sizes: Map<u64, usize>, key: u64, sample: usize) -> Map<u64, usize> {
    if sizes.contains_key(key) {
        sizes.insert(key, ((sizes[key] + sample) / 2) as usize)
    } else {
        sizes.insert(key, sample)
    }
}

/// Moving estimate of the serialized size of each component kind.
pub struct ReplicateSizeEstimates {
    pub sizes: OrderedMap<usize>,
}

impl ReplicateSizeEstimates {
    /// Estimated size of `id`.
    pub open spec fn estimate(self, id: ReplicateId) -> int {
        if self.sizes@.contains_key(id.key()) {
            self.sizes@[id.key()] as int
        } else {
            DEFAULT_ESTIMATE as int
        }
    }

    pub fn new() -> (r: ReplicateSizeEstimates)
        ensures
            r.sizes@ == Map::<u64, usize>::empty(),
    {
        ReplicateSizeEstimates { sizes: OrderedMap::new() }
    }

    /// Learns `estimate` as an observed size of `id`: the first observation is taken as it
    /// is, later ones move the estimate halfway towards the observed size.
    pub fn add(&mut self, id: ReplicateId, estimate: usize)
        ensures
            final(self).sizes@ == averaged(old(self).sizes@, id.key(), estimate),
    {
        let next = match self.sizes.get(id.key_of()) {
            Some(old) => ((*old as u128 + estimate as u128) / 2) as usize,
            None => estimate,
        };
        self.sizes.insert(id.key_of(), next);
    }

    pub fn get(&self, id: &ReplicateId) -> (r: usize)
        ensures
            r == self.estimate(*id),
    {
        match self.sizes.get(id.key_of()) {
            Some(v) => *v,
            None => DEFAULT_ESTIMATE,
        }
    }
}

/// Byte budget of one update message.
pub struct ReplicateMaxSize(pub usize);

impl ReplicateMaxSize {
    pub fn new() -> (r: ReplicateMaxSize)
        ensures
            r.0 == DEFAULT_MAX_SIZE,
    {
        ReplicateMaxSize(DEFAULT_MAX_SIZE)
    }
}

/// Which kinds must travel together: `require[k]` goes out whenever `k` does.
pub struct ReplicateDemands {
    pub require: OrderedMap<Vec<ReplicateId>>,
    pub dedup: OrderedMap<Vec<ReplicateId>>,
}

impl ReplicateDemands {
    /// The kinds sent as one group when `id` is sent: `id`, then what it requires.
    pub open spec fn group(self, id: ReplicateId) -> Seq<ReplicateId> {
        if self.require@.contains_key(id.key()) {
            seq![id] + self.require@[id.key()]@
        } else {
            seq![id]
        }
    }

    pub fn new() -> (r: ReplicateDemands)
        ensures
            r.require@ == Map::<u64, Vec<ReplicateId>>::empty(),
            r.dedup@ == Map::<u64, Vec<ReplicateId>>::empty(),
    {
        ReplicateDemands { require: OrderedMap::new(), dedup: OrderedMap::new() }
    }

    /// Declares that `dependency` must be sent whenever `root` is.
    pub fn require_dependency(&mut self, root: ReplicateId, dependency: ReplicateId)
        ensures
            final(self).dedup@ == old(self).dedup@,
            final(self).require@.dom() == old(self).require@.dom().insert(root.key()),
            forall|k: u64| k != root.key() && old(self).require@.contains_key(k) ==> #[trigger] final(self).require@[k]
                == old(self).require@[k],
            old(self).require@.contains_key(root.key()) ==> final(self).require@[root.key()]@ == old(
                self,
            ).require@[root.key()]@.push(dependency),
            !old(self).require@.contains_key(root.key()) ==> final(self).require@[root.key()]@ == seq![dependency],
    {
        let key = root.key_of();
        let mut deps = match self.require.remove(key) {
            Some(v) => v,
            None => Vec::new(),
        };
        deps.push(dependency);
        self.require.insert(key, deps);
        proof {
            assert(self.require@.dom() =~= old(self).require@.dom().insert(root.key()));
        }
    }

    /// Declares that `a` and `b` must always be sent together.
    pub fn require_together(&mut self, a: ReplicateId, b: ReplicateId)
        ensures
            final(self).dedup@ == old(self).dedup@,
            final(self).require@.dom() == old(self).require@.dom().insert(a.key()).insert(b.key()),
    {
        self.require_dependency(a, b);
        self.require_dependency(b, a);
        proof {
            assert(self.require@.dom() =~= old(self).require@.dom().insert(a.key()).insert(b.key()));
        }
    }

    /// The group of kinds sent together with `id`, `id` first.
    pub fn group_of(&self, id: ReplicateId) -> (r: Vec<ReplicateId>)
        ensures
            r@ == self.group(id),
    {
        let mut r: Vec<ReplicateId> = Vec::new();
        r.push(id);
        match self.require.get(id.key_of()) {
            Some(deps) => {
                let mut i: usize = 0;
                while i < deps.len()
                    invariant
                        i <= deps@.len(),
                        r@ == seq![id] + deps@.subrange(0, i as int),
                    decreases deps@.len() - i,
                {
                    r.push(deps[i]);
                    i = i + 1;
                    proof {
                        assert(r@ =~= seq![id] + deps@.subrange(0, i as int));
                    }
                }
                proof {
                    assert(deps@.subrange(0, i as int) =~= deps@);
                }
            },
            None => {
                proof {
                    assert(r@ =~= seq![id]);
                }
            },
        }
        r
    }
}

} // verus!
