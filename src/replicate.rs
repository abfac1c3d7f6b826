use vstd::prelude::*;
use vstd::string::StringExecFns;

use crate::message_sample::{decimal, decimal_string};

verus! {

/// Short persistent identifier of a replicated component kind.
#[derive(Debug, Clone, Copy, Eq, Hash)]
pub struct ReplicateId(pub u16);

impl PartialEq for ReplicateId {
    fn eq(&self, other: &ReplicateId) -> (r: bool)
        ensures
            r == (self.0 == other.0),
    {
        self.0 == other.0
    }
}

impl vstd::std_specs::cmp::PartialEqSpecImpl for ReplicateId {
    open spec fn obeys_eq_spec() -> bool {
        true
    }

    open spec fn eq_spec(&self, other: &ReplicateId) -> bool {
        self.0 == other.0
    }
}

impl ReplicateId {
    /// Key of this kind in the library's ordered tables.
    pub open spec fn key(self) -> u64 {
        self.0 as u64
    }

    pub fn key_of(&self) -> (r: u64)
        ensures
            r == self.key(),
    {
        self.0 as u64
    }
}

} // verus!

verus! {

/// Largest id in `entries`, zero when there is none.
pub open spec fn max_id(entries: Seq<(String, u16)>) -> u16
    decreases entries.len(),
{
    if entries.len() == 0 {
        0
    } else {
        let m = max_id(entries.drop_last());
        if entries.last().1 > m {
            entries.last().1
        } else {
            m
        }
    }
}

/// No name appears twice in `entries`.
pub open spec fn names_unique(entries: Seq<(String, u16)>) -> bool {
    forall|i: int, j: int| 0 <= i < entries.len() && 0 <= j < entries.len() && i != j ==> entries[i].0@ != entries[j].0@
}

/// The persistent registry of replicated kinds: full type name to short id, each name once.
pub struct ReplicateTypes {
    entries: Vec<(String, u16)>,
}

impl View for ReplicateTypes {
    type V = Seq<(String, u16)>;

    closed spec fn view(&self) -> Seq<(String, u16)> {
        self.entries@
    }
}

impl ReplicateTypes {
    #[verifier::type_invariant]
    closed spec fn well_formed(&self) -> bool {
        names_unique(self.entries@)
    }

    pub fn new() -> (r: ReplicateTypes)
        ensures
            r@.len() == 0,
    {
        ReplicateTypes { entries: Vec::new() }
    }

    /// Number of registered kinds.
    pub fn len(&self) -> (r: usize)
        ensures
            r == self@.len(),
    {
        self.entries.len()
    }

    /// Registers `name` under `id` unless the name is registered already; returns whether it
    /// was added.
    pub fn insert(&mut self, name: String, id: u16) -> (r: bool)
        ensures
            r == forall|i: int| 0 <= i < old(self)@.len() ==> #[trigger] old(self)@[i].0@ != name@,
            r ==> final(self)@.len() == old(self)@.len() + 1 && final(self)@.drop_last() == old(self)@
                && final(self)@.last().0@ == name@ && final(self)@.last().1 == id,
            !r ==> final(self)@ == old(self)@,
            names_unique(final(self)@),
    {
        proof {
            use_type_invariant(&*self);
        }
        match self.id_of(&name) {
            Some(_) => false,
            None => {
                let mut entries: Vec<(String, u16)> = Vec::new();
                std::mem::swap(&mut entries, &mut self.entries);
                let ghost before = entries@;
                let ghost n = name@;
                entries.push((name, id));
                proof {
                    assert(entries@.drop_last() =~= before);
                    assert forall|i: int, j: int| 0 <= i < entries@.len() && 0 <= j < entries@.len() && i != j implies entries@[i].0@
                        != entries@[j].0@ by {
                        if i < before.len() && j < before.len() {
                            assert(entries@[i] == before[i] && entries@[j] == before[j]);
                        } else if i < before.len() {
                            assert(entries@[i] == before[i]);
                        } else {
                            assert(entries@[j] == before[j]);
                        }
                    }
                }
                self.entries = entries;
                proof {
                    use_type_invariant(&*self);
                }
                true
            },
        }
    }

    /// The id after the largest one in use; `None` when the id space is used up.
    pub fn next_id(&self) -> (r: Option<u16>)
        ensures
            max_id(self@) < u16::MAX ==> r == Some((max_id(self@) + 1) as u16),
            max_id(self@) == u16::MAX ==> r is None,
    {
        let mut m: u16 = 0;
        let mut i: usize = 0;
        while i < self.entries.len()
            invariant
                i <= self.entries@.len(),
                m == max_id(self.entries@.subrange(0, i as int)),
            decreases self.entries@.len() - i,
        {
            proof {
                assert(self.entries@.subrange(0, i + 1).drop_last() =~= self.entries@.subrange(0, i as int));
            }
            if self.entries[i].1 > m {
                m = self.entries[i].1;
            }
            i = i + 1;
        }
        proof {
            assert(self.entries@.subrange(0, i as int) =~= self.entries@);
        }
        if m == u16::MAX {
            None
        } else {
            Some(m + 1)
        }
    }

    /// The name registered under `id`, the first one if several are.
    pub fn from_id(&self, id: u16) -> (r: Option<String>)
        ensures
            match r {
                Some(name) => exists|i: int| 0 <= i < self@.len() && self@[i].1 == id
                    && #[trigger] self@[i].0@ == name@,
                None => forall|i: int| 0 <= i < self@.len() ==> #[trigger] self@[i].1 != id,
            },
    {
        let mut i: usize = 0;
        while i < self.entries.len()
            invariant
                i <= self.entries@.len(),
                forall|j: int| 0 <= j < i ==> #[trigger] self.entries@[j].1 != id,
            decreases self.entries@.len() - i,
        {
            if self.entries[i].1 == id {
                let name = self.entries[i].0.clone();
                proof {
                    assert(self.entries@[i as int].0@ == name@);
                    assert(self@[i as int].1 == id && self@[i as int].0@ == name@);
                }
                return Some(name);
            }
            i = i + 1;
        }
        None
    }

    /// The id registered for `name`.
    pub fn id_of(&self, name: &String) -> (r: Option<u16>)
        ensures
            match r {
                Some(id) => exists|i: int| 0 <= i < self@.len() && #[trigger] self@[i].0@ == name@
                    && self@[i].1 == id,
                None => forall|i: int| 0 <= i < self@.len() ==> #[trigger] self@[i].0@ != name@,
            },
            r is Some ==> forall|i: int| 0 <= i < self@.len() && #[trigger] self@[i].0@ == name@ ==> self@[i].1
                == r.unwrap(),
    {
        proof {
            use_type_invariant(self);
        }
        let mut i: usize = 0;
        while i < self.entries.len()
            invariant
                i <= self.entries@.len(),
                forall|j: int| 0 <= j < i ==> #[trigger] self.entries@[j].0@ != name@,
                names_unique(self.entries@),
            decreases self.entries@.len() - i,
        {
            if self.entries[i].0 == *name {
                proof {
                    assert(self@[i as int].0@ == name@);
                }
                return Some(self.entries[i].1);
            }
            i = i + 1;
        }
        None
    }

    /// The id of `name`, registering it under the next free id when it is new; `None` when
    /// it is new and the id space is used up.
    pub fn id_for(&mut self, name: String) -> (r: Option<ReplicateId>)
        ensures
            forall|i: int| 0 <= i < old(self)@.len() && #[trigger] old(self)@[i].0@ == name@ ==> (
                final(self)@ == old(self)@ && r == Some(ReplicateId(old(self)@[i].1))),
            (forall|i: int| 0 <= i < old(self)@.len() ==> #[trigger] old(self)@[i].0@ != name@) ==> (
                if max_id(old(self)@) < u16::MAX {
                    r == Some(ReplicateId((max_id(old(self)@) + 1) as u16))
                        && final(self)@.len() == old(self)@.len() + 1
                        && final(self)@.last().0@ == name@
                        && final(self)@.last().1 == max_id(old(self)@) + 1
                        && final(self)@.drop_last() == old(self)@
                } else {
                    r is None && final(self)@ == old(self)@
                }),
    {
        match self.id_of(&name) {
            Some(id) => Some(ReplicateId(id)),
            None => match self.next_id() {
                Some(id) => {
                    self.insert(name, id);
                    Some(ReplicateId(id))
                },
                None => None,
            },
        }
    }
}


/// The registry's table lines, one `"name" = id` line per entry, in order.
pub open spec fn toml_lines(entries: Seq<(String, u16)>) -> Seq<char>
    decreases entries.len(),
{
    if entries.len() == 0 {
        Seq::empty()
    } else {
        toml_lines(entries.drop_last()) + "\""@ + entries.last().0@ + "\" = "@ + decimal(entries.last().1 as nat)
            + "\n"@
    }
}

impl ReplicateTypes {
    /// The registry as the `[replicate]` table of the types file.
    pub fn to_toml(&self) -> (r: String)
        ensures
            r@ == "[replicate]\n"@ + toml_lines(self@),
    {
        let mut out = String::from_str("[replicate]\n");
        let mut i: usize = 0;
        while i < self.entries.len()
            invariant
                i <= self.entries@.len(),
                out@ == "[replicate]\n"@ + toml_lines(self.entries@.subrange(0, i as int)),
            decreases self.entries@.len() - i,
        {
            proof {
                assert(self.entries@.subrange(0, i + 1).drop_last() =~= self.entries@.subrange(0, i as int));
            }
            out.append("\"");
            out.append(self.entries[i].0.as_str());
            out.append("\" = ");
            let id = decimal_string(self.entries[i].1 as u64);
            out.append(id.as_str());
            out.append("\n");
            i = i + 1;
            proof {
                assert(out@ =~= "[replicate]\n"@ + toml_lines(self.entries@.subrange(0, i as int)));
            }
        }
        proof {
            assert(self.entries@.subrange(0, i as int) =~= self.entries@);
        }
        out
    }
}

/// Everything the types file holds.
pub struct Types {
    pub replicate: ReplicateTypes,
}

impl Types {
    /// The types file's text.
    pub fn to_toml(&self) -> (r: String)
        ensures
            r@ == "[replicate]\n"@ + toml_lines(self.replicate@) + "\n"@,
    {
        let mut out = self.replicate.to_toml();
        out.append("\n");
        out
    }
}

} // verus!
