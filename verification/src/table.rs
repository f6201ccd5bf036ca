//! A table of values by name that keeps the order in which the names came.

use vstd::hash_map::StringHashMap;
use vstd::prelude::*;

verus! {

/// Values by name. Names are distinct; a name that is stored again keeps its
/// place and takes the new value.
#[verifier::reject_recursive_types(V)]
pub struct Table<V> {
    entries: Vec<(String, V)>,
    slots: StringHashMap<usize>,
}

impl<V> View for Table<V> {
    type V = Map<Seq<char>, V>;

    closed spec fn view(&self) -> Map<Seq<char>, V> {
        let entries = self.entries@;
        self.slots@.map_values(|i: usize| entries[i as int].1)
    }
}

/// Whether `slots` says where each name stands.
spec fn indexed<V>(entries: Seq<(String, V)>, slots: Map<Seq<char>, usize>) -> bool {
    &&& slots.dom().finite()
    &&& slots.len() == entries.len()
    &&& forall|k: Seq<char>| #[trigger]
        slots.contains_key(k) ==> slots[k] < entries.len() && entries[slots[k] as int].0@ == k
    &&& forall|i: int|
        0 <= i < entries.len() ==> slots.contains_key(#[trigger] entries[i].0@)
            && slots[entries[i].0@] == i
}

/// Whether a list holds every entry of a map.
pub open spec fn lists_all<V>(listed: Seq<(Seq<char>, V)>, m: Map<Seq<char>, V>) -> bool {
    forall|k: Seq<char>| #[trigger]
        m.contains_key(k) ==> exists|i: int|
            0 <= i < listed.len() && #[trigger] listed[i] == (k, m[k])
}

impl<V> Table<V> {
    #[verifier::type_invariant]
    spec fn well_indexed(&self) -> bool {
        indexed(self.entries@, self.slots@)
    }

    /// The entries in their order.
    pub closed spec fn listed(&self) -> Seq<(Seq<char>, V)> {
        self.entries@.map_values(|e: (String, V)| (e.0@, e.1))
    }

    pub fn new() -> (t: Self)
        ensures
            t@ == Map::<Seq<char>, V>::empty(),
            t.listed().len() == 0,
    {
        let t = Table { entries: Vec::new(), slots: StringHashMap::new() };
        assert(t@ =~= Map::<Seq<char>, V>::empty());
        t
    }

    pub fn len(&self) -> (n: usize)
        ensures
            n == self@.len(),
            n == self.listed().len(),
            lists_all(self.listed(), self@),
    {
        proof {
            use_type_invariant(self);
            assert(self@.dom() =~= self.slots@.dom());
            assert forall|k: Seq<char>| #[trigger]
                self@.contains_key(k) implies exists|i: int|
                0 <= i < self.listed().len() && #[trigger] self.listed()[i] == (k, self@[k]) by {
                assert(self.listed()[self.slots@[k] as int] == (k, self@[k]));
            }
        }
        self.entries.len()
    }

    pub fn is_empty(&self) -> (b: bool)
        ensures
            b == (self@ == Map::<Seq<char>, V>::empty()),
    {
        proof {
            use_type_invariant(self);
            if self.entries@.len() == 0 {
                assert(self@ =~= Map::<Seq<char>, V>::empty());
            } else {
                assert(self@.contains_key(self.entries@[0].0@));
            }
        }
        self.entries.len() == 0
    }

    pub fn get(&self, key: &str) -> (v: Option<&V>)
        ensures
            v is Some <==> self@.contains_key(key@),
            v is Some ==> *v->0 == self@[key@],
    {
        proof {
            use_type_invariant(self);
        }
        match self.slots.get(key) {
            Some(i) => Some(&self.entries[*i].1),
            None => None,
        }
    }

    /// The entry at a place.
    pub fn entry(&self, i: usize) -> (e: (&str, &V))
        requires
            i < self.listed().len(),
        ensures
            (e.0@, *e.1) == self.listed()[i as int],
            self@.contains_key(e.0@),
            *e.1 == self@[e.0@],
    {
        proof {
            use_type_invariant(self);
        }
        (self.entries[i].0.as_str(), &self.entries[i].1)
    }

    /// Stores a value under a name.
    pub fn insert(&mut self, key: String, value: V)
        ensures
            final(self)@ == old(self)@.insert(key@, value),
    {
        let mut whole: Table<V> = Table::new();
        std::mem::swap(self, &mut whole);
        proof {
            use_type_invariant(&whole);
        }
        let Table { mut entries, mut slots } = whole;
        let ghost entries0 = entries@;
        let ghost slots0 = slots@;
        let found: Option<usize> = match slots.get(key.as_str()) {
            Some(i) => Some(*i),
            None => None,
        };
        match found {
            Some(i) => {
                let ghost name = entries@[i as int].0;
                entries.set(i, (key, value));
                proof {
                    assert(indexed(entries@, slots@)) by {
                        assert forall|k: int| 0 <= k < entries@.len() implies slots@.contains_key(
                            #[trigger] entries@[k].0@,
                        ) && slots@[entries@[k].0@] == k by {
                            assert(entries@[k].0@ == entries0[k].0@);
                        }
                    }
                }
            },
            None => {
                let at: usize = entries.len();
                slots.insert(key.clone(), at);
                entries.push((key, value));
                proof {
                    assert(indexed(entries@, slots@)) by {
                        assert forall|k: int| 0 <= k < entries@.len() implies slots@.contains_key(
                            #[trigger] entries@[k].0@,
                        ) && slots@[entries@[k].0@] == k by {
                            if k < entries0.len() {
                                assert(entries@[k] == entries0[k]);
                                assert(slots0.contains_key(entries0[k].0@));
                            }
                        }
                        assert forall|k: Seq<char>| #[trigger]
                            slots@.contains_key(k) implies slots@[k] < entries@.len()
                            && entries@[slots@[k] as int].0@ == k by {
                            if k != key@ {
                                assert(slots0.contains_key(k));
                            }
                        }
                    }
                }
            },
        }
        *self = Table { entries, slots };
        proof {
            assert forall|k: Seq<char>| #[trigger]
                self@.contains_key(k) implies old(self)@.insert(key@, value).contains_key(k)
                && self@[k] == old(self)@.insert(key@, value)[k] by {
                if k != key@ {
                    assert(slots0.contains_key(k));
                    assert(entries0[slots0[k] as int].0@ == k);
                }
            }
            assert forall|k: Seq<char>| old(self)@.insert(key@, value).contains_key(k) implies
                #[trigger] self@.contains_key(k) by {
                if k != key@ {
                    assert(slots0.contains_key(k));
                }
            }
            assert(self@ =~= old(self)@.insert(key@, value));
        }
    }

    /// Takes a name and its value out.
    pub fn remove(&mut self, key: &str) -> (v: Option<V>)
        ensures
            final(self)@ == old(self)@.remove(key@),
            v is Some <==> old(self)@.contains_key(key@),
            v is Some ==> v->0 == old(self)@[key@],
    {
        let mut whole: Table<V> = Table::new();
        std::mem::swap(self, &mut whole);
        proof {
            use_type_invariant(&whole);
        }
        let found: Option<usize> = match whole.slots.get(key) {
            Some(i) => Some(*i),
            None => None,
        };
        match found {
            None => {
                assert(whole@.remove(key@) =~= whole@);
                std::mem::swap(self, &mut whole);
                None
            },
            Some(at) => {
                let Table { mut entries, slots } = whole;
                let ghost entries0 = entries@;
                let ghost slots0 = slots@;
                let (_name, value) = entries.remove(at);
                let mut left: StringHashMap<usize> = StringHashMap::new();
                let mut i: usize = 0;
                while i < entries.len()
                    invariant
                        i <= entries@.len(),
                        entries@ == entries0.remove(at as int),
                        at < entries0.len(),
                        indexed(entries0, slots0),
                        indexed(entries@.take(i as int), left@),
                    decreases entries@.len() - i,
                {
                    let ghost left0 = left@;
                    let name: String = entries[i].0.clone();
                    proof {
                        let part = entries@.take(i as int);
                        if left0.contains_key(name@) {
                            let j = left0[name@] as int;
                            assert(part[j].0@ == name@);
                            let a = if j < at { j } else { j + 1 };
                            let b = if i < at { i as int } else { i + 1 };
                            assert(entries0[a].0@ == name@);
                            assert(entries0[b].0@ == name@);
                            assert(slots0[entries0[a].0@] == a);
                            assert(slots0[entries0[b].0@] == b);
                        }
                    }
                    left.insert(name, i);
                    i = i + 1;
                    proof {
                        let part0 = entries@.take(i - 1);
                        let part = entries@.take(i as int);
                        assert forall|k: Seq<char>| #[trigger]
                            left@.contains_key(k) implies left@[k] < part.len()
                            && part[left@[k] as int].0@ == k by {
                            if k != name@ {
                                assert(left0.contains_key(k));
                                assert(part0[left0[k] as int].0@ == k);
                            }
                        }
                        assert forall|k: int| 0 <= k < part.len() implies left@.contains_key(
                            #[trigger] part[k].0@,
                        ) && left@[part[k].0@] == k by {
                            if k < i - 1 {
                                assert(part0[k] == part[k]);
                                assert(left0.contains_key(part0[k].0@));
                            }
                        }
                    }
                }
                proof {
                    assert(entries@.take(i as int) =~= entries@);
                    assert forall|k: Seq<char>| left@.contains_key(k) <==> slots0.contains_key(k)
                        && k != key@ by {
                        if left@.contains_key(k) {
                            let j = left@[k] as int;
                            let a = if j < at { j } else { j + 1 };
                            assert(entries0[a] == entries@[j]);
                            assert(slots0.contains_key(entries0[a].0@));
                            assert(slots0[entries0[a].0@] == a);
                        }
                        if slots0.contains_key(k) && k != key@ {
                            let a = slots0[k] as int;
                            assert(entries0[a].0@ == k);
                            assert(a != at);
                            let j = if a < at { a } else { a - 1 };
                            assert(entries0[a] == entries@[j]);
                            assert(left@.contains_key(entries@[j].0@));
                        }
                    }
                }
                *self = Table { entries, slots: left };
                proof {
                    assert forall|k: Seq<char>| #[trigger]
                        self@.contains_key(k) implies self@[k] == old(self)@[k] by {
                        assert(left@.contains_key(k));
                        let j = left@[k] as int;
                        let a = if j < at { j } else { j + 1 };
                        assert(entries0[a] == entries@[j]);
                        assert(slots0[entries0[a].0@] == a);
                    }
                    assert(self@ =~= old(self)@.remove(key@));
                }
                Some(value)
            },
        }
    }
}

} // verus!
