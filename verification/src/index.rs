//! The declarations that are still pending, grouped by name.

use crate::api::Api;
use crate::facts::{lemma_named_after_leave, lemma_named_push};
use crate::reach::{named, not_named};
use vstd::hash_map::StringHashMap;
use vstd::prelude::*;

verus! {

/// Pending declarations, found by name.
///
/// `slots` leads from a name to the place of its group in `groups`. A
/// group that has left stays behind as an empty place, with no name
/// leading to it.
pub struct Index<T> {
    slots: StringHashMap<usize>,
    groups: Vec<Vec<Api<T>>>,
    pending: Ghost<Seq<Api<T>>>,
}

impl<T> Index<T> {
    /// The pending declarations, in the order in which they were added.
    pub closed spec fn pending(&self) -> Seq<Api<T>> {
        self.pending@
    }

    /// Every name with pending declarations leads to a group that holds
    /// exactly those, in order, and no two names share a group.
    pub closed spec fn wf(&self) -> bool {
        &&& forall|name: Seq<char>| #[trigger]
            self.slots@.contains_key(name) ==> {
                &&& self.slots@[name] < self.groups@.len()
                &&& self.groups@[self.slots@[name] as int]@ == named(self.pending@, name)
                &&& named(self.pending@, name).len() > 0
            }
        &&& forall|name: Seq<char>|
            !self.slots@.contains_key(name) ==> (#[trigger] named(self.pending@, name)).len() == 0
        &&& forall|a: Seq<char>, b: Seq<char>|
            #![trigger self.slots@[a], self.slots@[b]]
            self.slots@.contains_key(a) && self.slots@.contains_key(b) && a != b
                ==> self.slots@[a] != self.slots@[b]
    }

    /// An index with nothing pending.
    pub fn new() -> (index: Self)
        ensures
            index.wf(),
            index.pending() == Seq::<Api<T>>::empty(),
    {
        let index = Index {
            slots: StringHashMap::new(),
            groups: Vec::new(),
            pending: Ghost(Seq::empty()),
        };
        proof {
            reveal(Seq::filter);
        }
        index
    }

    /// Adds a declaration behind those that are pending.
    pub fn add(&mut self, api: Api<T>)
        requires
            old(self).wf(),
        ensures
            final(self).wf(),
            final(self).pending() == old(self).pending().push(api),
    {
        let ghost before = self.pending@;
        let ghost name = api.name@;
        proof {
            assert forall|other: Seq<char>|
                named(before.push(api), other) == if name == other {
                    named(before, other).push(api)
                } else {
                    named(before, other)
                } by {
                lemma_named_push(before, api, other);
            }
        }
        match self.slots.get(api.name.as_str()) {
            Some(slot) => {
                let slot = *slot;
                self.groups[slot].push(api);
            },
            None => {
                let key = api.name.clone();
                let mut group: Vec<Api<T>> = Vec::new();
                group.push(api);
                let slot = self.groups.len();
                self.groups.push(group);
                self.slots.insert(key, slot);
            },
        }
        proof {
            self.pending@ = before.push(api);
            let old_slots = old(self).slots@;
            let old_groups = old(self).groups@;
            assert forall|other: Seq<char>| #[trigger]
                self.slots@.contains_key(other) implies {
                &&& self.slots@[other] < self.groups@.len()
                &&& self.groups@[self.slots@[other] as int]@ == named(self.pending@, other)
                &&& named(self.pending@, other).len() > 0
            } by {
                if other != name {
                    assert(old_slots.contains_key(other));
                    if old_slots.contains_key(name) {
                        assert(old_slots[other] != old_slots[name]);
                    }
                }
            }
            assert forall|other: Seq<char>| !self.slots@.contains_key(other) implies (
            #[trigger] named(self.pending@, other)).len() == 0 by {
                assert(!old_slots.contains_key(other));
                assert(named(before, other).len() == 0);
            }
            assert forall|a: Seq<char>, b: Seq<char>|
                #![trigger self.slots@[a], self.slots@[b]]
                self.slots@.contains_key(a) && self.slots@.contains_key(b) && a != b
                    implies self.slots@[a] != self.slots@[b] by {
                if old_slots.contains_key(a) && old_slots.contains_key(b) {
                    assert(old_slots[a] != old_slots[b]);
                }
                if old_slots.contains_key(a) {
                    assert(old_slots[a] < old_groups.len());
                }
                if old_slots.contains_key(b) {
                    assert(old_slots[b] < old_groups.len());
                }
            }
        }
    }

    /// Takes the declarations of `name` out, if any are pending.
    pub fn take(&mut self, name: &str) -> (group: Option<Vec<Api<T>>>)
        requires
            old(self).wf(),
        ensures
            final(self).wf(),
            match group {
                Some(found) => {
                    &&& found@ == named(old(self).pending(), name@)
                    &&& found@.len() > 0
                    &&& final(self).pending() == not_named(old(self).pending(), name@)
                },
                None => {
                    &&& named(old(self).pending(), name@).len() == 0
                    &&& final(self).pending() == old(self).pending()
                },
            },
    {
        let ghost before = self.pending@;
        match self.slots.get(name) {
            None => None,
            Some(slot) => {
                let slot = *slot;
                let mut group: Vec<Api<T>> = Vec::new();
                std::mem::swap(&mut group, &mut self.groups[slot]);
                self.slots.remove(name);
                proof {
                    self.pending@ = not_named(before, name@);
                    assert forall|other: Seq<char>|
                        named(not_named(before, name@), other) == if other == name@ {
                            Seq::<Api<T>>::empty()
                        } else {
                            named(before, other)
                        } by {
                        lemma_named_after_leave(before, name@, other);
                    }
                }
                Some(group)
            },
        }
    }
}

} // verus!
