//! A name-to-slot table backed by `indexmap::IndexMap`.
//!
//! The layout engines register participant and state names in first-appearance
//! order and then look slots up by name. The ordered list of names lives in a
//! verified `Vec`; the hash lookup is delegated to `indexmap` through the
//! trusted wrappers below, whose contracts state what the crate's
//! documentation promises of `new`, `insert` and `get`.

use vstd::prelude::*;
use indexmap::IndexMap;

verus! {

#[verifier::external_type_specification]
#[verifier::external_body]
#[verifier::reject_recursive_types(K)]
#[verifier::reject_recursive_types(V)]
#[verifier::reject_recursive_types(S)]
pub struct ExIndexMap<K, V, S>(IndexMap<K, V, S>);

/// What a slot table holds: the value stored under each key.
pub uninterp spec fn slot_entries(m: IndexMap<String, u64>) -> Map<Seq<char>, u64>;

/// The contents of a freshly created slot table.
pub open spec fn no_slots() -> Map<Seq<char>, u64> {
    Map::empty()
}

/// Relies on indexmap::IndexMap::new: creates an empty map.
#[verifier::external_body]
fn slot_map_new() -> (m: IndexMap<String, u64>)
    ensures
        slot_entries(m) == no_slots(),
{
    IndexMap::new()
}

/// Relies on indexmap::IndexMap::insert: stores the value under the key,
/// returning the previously stored value if the key was already present.
#[verifier::external_body]
fn slot_map_insert(m: &mut IndexMap<String, u64>, key: String, value: u64) -> (prev: Option<u64>)
    ensures
        slot_entries(*final(m)) == slot_entries(*old(m)).insert(key@, value),
        prev == if slot_entries(*old(m)).dom().contains(key@) {
            Some(slot_entries(*old(m))[key@])
        } else {
            None::<u64>
        },
{
    m.insert(key, value)
}

/// Relies on indexmap::IndexMap::get: returns the value stored under the key,
/// or nothing when the key is absent.
#[verifier::external_body]
fn slot_map_get(m: &IndexMap<String, u64>, key: &str) -> (r: Option<u64>)
    ensures
        r == if slot_entries(*m).dom().contains(key@) {
            Some(slot_entries(*m)[key@])
        } else {
            None::<u64>
        },
{
    m.get(key).copied()
}

/// An insertion-ordered registry of distinct names. Slot `i` holds the `i`-th
/// distinct name ever registered; lookups by name return the slot.
pub struct NameIndex {
    names: Vec<String>,
    table: IndexMap<String, u64>,
}

impl NameIndex {
    /// The registered names, in first-appearance order.
    pub closed spec fn names(self) -> Seq<Seq<char>> {
        Seq::new(self.names@.len(), |i: int| self.names@[i]@)
    }

    /// The table agrees with the name list and the names are distinct.
    pub closed spec fn wf(self) -> bool {
        &&& self.names@.len() <= usize::MAX as nat
        &&& forall|i: int|
            0 <= i < self.names@.len() ==> {
                &&& slot_entries(self.table).dom().contains(#[trigger] self.names@[i]@)
                &&& slot_entries(self.table)[self.names@[i]@] == i as u64
            }
        &&& forall|k: Seq<char>|
            slot_entries(self.table).dom().contains(k) ==> exists|i: int|
                0 <= i < self.names@.len() && #[trigger] self.names@[i]@ == k
    }

    /// Whether a name is registered.
    pub open spec fn has(self, name: Seq<char>) -> bool {
        self.names().contains(name)
    }

    pub proof fn lemma_names_distinct(self, i: int, j: int)
        requires
            self.wf(),
            0 <= i < self.names().len(),
            0 <= j < self.names().len(),
            i != j,
        ensures
            self.names()[i] != self.names()[j],
    {
    }

    pub fn new() -> (r: NameIndex)
        ensures
            r.wf(),
            r.names() == Seq::<Seq<char>>::empty(),
    {
        let r = NameIndex { names: Vec::new(), table: slot_map_new() };
        proof {
            assert(r.names() =~= Seq::<Seq<char>>::empty());
        }
        r
    }

    pub fn len(&self) -> (n: usize)
        ensures
            n == self.names().len(),
    {
        self.names.len()
    }

    /// The name registered at a slot.
    pub fn name_at(&self, i: usize) -> (r: &String)
        requires
            i < self.names().len(),
        ensures
            r@ == self.names()[i as int],
    {
        &self.names[i]
    }

    /// The slot of a name, if it is registered.
    pub fn lookup(&self, name: &str) -> (r: Option<usize>)
        requires
            self.wf(),
        ensures
            match r {
                Some(i) => i < self.names().len() && self.names()[i as int] == name@,
                None => !self.has(name@),
            },
    {
        match slot_map_get(&self.table, name) {
            Some(slot) => {
                proof {
                    let i = choose|i: int|
                        0 <= i < self.names@.len() && self.names@[i]@ == name@;
                    assert(slot_entries(self.table)[name@] == i as u64);
                }
                if slot < self.names.len() as u64 {
                    Some(slot as usize)
                } else {
                    None
                }
            },
            None => {
                proof {
                    if self.has(name@) {
                        let i = choose|i: int|
                            0 <= i < self.names().len() && self.names()[i] == name@;
                        assert(slot_entries(self.table).dom().contains(self.names@[i]@));
                    }
                }
                None
            },
        }
    }

    /// Registers a name if it is new; returns its slot either way.
    pub fn get_or_insert(&mut self, name: &str) -> (r: usize)
        requires
            old(self).wf(),
            old(self).names().len() < usize::MAX as nat,
        ensures
            final(self).wf(),
            old(self).has(name@) ==> {
                &&& final(self).names() == old(self).names()
                &&& r < final(self).names().len()
                &&& final(self).names()[r as int] == name@
            },
            !old(self).has(name@) ==> {
                &&& final(self).names() == old(self).names().push(name@)
                &&& r == old(self).names().len()
            },
    {
        match self.lookup(name) {
            Some(i) => i,
            None => {
                let i = self.names.len();
                let owned: String = name.to_owned();
                self.names.push(owned);
                let owned2: String = name.to_owned();
                let _ = slot_map_insert(&mut self.table, owned2, i as u64);
                proof {
                    let post = *self;
                    let pre = *old(self);
                    assert(post.names() =~= pre.names().push(name@));
                    assert forall|j: int| 0 <= j < post.names@.len() implies {
                        &&& slot_entries(post.table).dom().contains(#[trigger] post.names@[j]@)
                        &&& slot_entries(post.table)[post.names@[j]@] == j as u64
                    } by {
                        if j < pre.names@.len() {
                            assert(pre.names@[j]@ != name@) by {
                                assert(pre.names()[j] == pre.names@[j]@);
                            }
                        }
                    }
                    assert forall|k: Seq<char>|
                        slot_entries(post.table).dom().contains(k) implies exists|jj: int|
                            0 <= jj < post.names@.len() && #[trigger] post.names@[jj]@ == k
                    by {
                        if k != name@ {
                            let jj = choose|jj: int|
                                0 <= jj < pre.names@.len() && #[trigger] pre.names@[jj]@ == k;
                            assert(post.names@[jj]@ == k);
                        } else {
                            assert(post.names@[i as int]@ == k);
                        }
                    }
                }
                i
            },
        }
    }
}

} // verus!
