//! Maps keyed by text, kept in ascending order of their keys.

use crate::text::{lemma_lex_lt_asymmetric, lemma_lex_lt_total, lemma_lex_lt_transitive, lex_lt, str_lt, views};
use vstd::prelude::*;

verus! {

/// Each key comes before every later one, so no key occurs twice.
pub open spec fn ascending(keys: Seq<Seq<char>>) -> bool {
    forall|i: int, j: int| 0 <= i < j < keys.len() ==> lex_lt(#[trigger] keys[i], #[trigger] keys[j])
}

/// How many of `keys` come before `key`. In an ascending list this is the
/// place where `key` stands or would have to be put.
pub open spec fn lower_bound(keys: Seq<Seq<char>>, key: Seq<char>) -> int
    decreases keys.len(),
{
    if keys.len() == 0 {
        0
    } else {
        lower_bound(keys.drop_last(), key) + if lex_lt(keys.last(), key) {
            1int
        } else {
            0int
        }
    }
}

/// `p` parts `keys` into those that come before `key` and those that do not.
pub open spec fn parts_at(keys: Seq<Seq<char>>, key: Seq<char>, p: int) -> bool {
    &&& 0 <= p <= keys.len()
    &&& forall|i: int| 0 <= i < p ==> lex_lt(#[trigger] keys[i], key)
    &&& forall|i: int| p <= i < keys.len() ==> !lex_lt(#[trigger] keys[i], key)
}

/// A place that parts the keys is the lower bound.
pub proof fn lemma_parts_at_is_lower_bound(keys: Seq<Seq<char>>, key: Seq<char>, p: int)
    requires
        parts_at(keys, key, p),
    ensures
        p == lower_bound(keys, key),
    decreases keys.len(),
{
    if keys.len() > 0 {
        let rest = keys.drop_last();
        let last = keys.len() - 1;
        assert(keys.last() == keys[last]);
        if p == keys.len() {
            assert(lex_lt(keys[last], key));
            assert forall|i: int| 0 <= i < p - 1 implies lex_lt(#[trigger] rest[i], key) by {
                assert(rest[i] == keys[i]);
            }
            lemma_parts_at_is_lower_bound(rest, key, p - 1);
        } else {
            assert(!lex_lt(keys[last], key));
            assert forall|i: int| 0 <= i < p implies lex_lt(#[trigger] rest[i], key) by {
                assert(rest[i] == keys[i]);
            }
            assert forall|i: int| p <= i < rest.len() implies !lex_lt(#[trigger] rest[i], key) by {
                assert(rest[i] == keys[i]);
            }
            lemma_parts_at_is_lower_bound(rest, key, p);
        }
    }
}

/// In an ascending list the lower bound parts the keys, and a key of the list
/// stands at its own lower bound.
pub proof fn lemma_lower_bound(keys: Seq<Seq<char>>, key: Seq<char>)
    requires
        ascending(keys),
    ensures
        parts_at(keys, key, lower_bound(keys, key)),
        forall|i: int| 0 <= i < keys.len() && #[trigger] keys[i] == key ==> i == lower_bound(keys, key),
    decreases keys.len(),
{
    if keys.len() > 0 {
        let rest = keys.drop_last();
        let last = keys.len() - 1;
        assert(keys.last() == keys[last]);
        assert(ascending(rest)) by {
            assert forall|i: int, j: int| 0 <= i < j < rest.len() implies lex_lt(
                #[trigger] rest[i],
                #[trigger] rest[j],
            ) by {
                assert(rest[i] == keys[i] && rest[j] == keys[j]);
            }
        }
        lemma_lower_bound(rest, key);
        let q = lower_bound(rest, key);
        assert forall|i: int| 0 <= i < q implies lex_lt(#[trigger] keys[i], key) by {
            assert(rest[i] == keys[i]);
        }
        if lex_lt(keys[last], key) {
            assert forall|i: int| 0 <= i < last implies lex_lt(#[trigger] keys[i], key) by {
                lemma_lex_lt_transitive(keys[i], keys[last], key);
            }
            if q < last {
                assert(!lex_lt(rest[q], key));
                assert(rest[q] == keys[q]);
            }
            assert(q == last);
        } else {
            assert forall|i: int| q <= i < keys.len() implies !lex_lt(#[trigger] keys[i], key) by {
                if i < last {
                    assert(rest[i] == keys[i]);
                }
            }
        }
        let p = lower_bound(keys, key);
        assert forall|i: int| 0 <= i < keys.len() && #[trigger] keys[i] == key implies i == p by {
            if lex_lt(keys[i], key) {
                lemma_lex_lt_asymmetric(keys[i], key);
            }
            if i > p {
                assert(lex_lt(keys[p], keys[i]));
            }
        }
    }
}

/// A map from text to values of `V`, stored in ascending order of the keys.
#[derive(Debug)]
pub struct StrMap<V> {
    keys: Vec<String>,
    values: Vec<V>,
}

impl<V> StrMap<V> {
    /// The keys in stored order.
    pub closed spec fn keys(&self) -> Seq<Seq<char>> {
        views(self.keys@)
    }

    /// The values in the order of their keys.
    pub closed spec fn values(&self) -> Seq<V> {
        self.values@
    }

    /// Each key has its value and the keys ascend.
    pub open spec fn wf(&self) -> bool {
        &&& self.keys().len() == self.values().len()
        &&& ascending(self.keys())
    }

    /// Whether `key` is a key of the map.
    pub open spec fn has_key(&self, key: Seq<char>) -> bool {
        self.keys().contains(key)
    }

    /// The place of `key` among the keys, where the map has it.
    pub open spec fn place_of(&self, key: Seq<char>) -> int {
        lower_bound(self.keys(), key)
    }

    /// The value stored under `key`, where the map has it.
    pub open spec fn value_of(&self, key: Seq<char>) -> V {
        self.values()[self.place_of(key)]
    }

    /// A key of the map stands at its `place_of`, and only keys do.
    pub proof fn lemma_place_of(&self, key: Seq<char>)
        requires
            self.wf(),
        ensures
            0 <= self.place_of(key) <= self.keys().len(),
            self.has_key(key) <==> (self.place_of(key) < self.keys().len() && self.keys()[self.place_of(
                key,
            )] == key),
            forall|i: int| 0 <= i < self.keys().len() && #[trigger] self.keys()[i] == key ==> i == self.place_of(key),
    {
        lemma_lower_bound(self.keys(), key);
        if self.has_key(key) {
            let i = choose|i: int| 0 <= i < self.keys().len() && self.keys()[i] == key;
        }
    }

    /// The empty map.
    pub fn new() -> (r: StrMap<V>)
        ensures
            r.wf(),
            r.keys() == Seq::<Seq<char>>::empty(),
            r.values() == Seq::<V>::empty(),
    {
        let r = StrMap { keys: Vec::new(), values: Vec::new() };
        assert(r.keys() =~= Seq::<Seq<char>>::empty());
        r
    }

    /// The number of entries.
    pub fn len(&self) -> (r: usize)
        requires
            self.wf(),
        ensures
            r == self.keys().len(),
    {
        self.keys.len()
    }

    /// Whether the map has no entry.
    pub fn is_empty(&self) -> (r: bool)
        requires
            self.wf(),
        ensures
            r == (self.keys().len() == 0),
    {
        self.keys.len() == 0
    }

    /// The key at place `i`.
    pub fn key(&self, i: usize) -> (r: &String)
        requires
            self.wf(),
            i < self.keys().len(),
        ensures
            r@ == self.keys()[i as int],
    {
        &self.keys[i]
    }

    /// The value at place `i`.
    pub fn value(&self, i: usize) -> (r: &V)
        requires
            self.wf(),
            i < self.keys().len(),
        ensures
            *r == self.values()[i as int],
    {
        &self.values[i]
    }

    /// Where `key` stands or would have to be put, and whether it is there. A
    /// binary search over the ascending keys.
    pub fn locate(&self, key: &str) -> (r: (usize, bool))
        requires
            self.wf(),
        ensures
            r.0 as int == self.place_of(key@),
            r.1 == self.has_key(key@),
            r.1 ==> r.0 < self.keys().len() && self.keys()[r.0 as int] == key@,
    {
        let mut lo: usize = 0;
        let mut hi: usize = self.keys.len();
        while lo < hi
            invariant
                0 <= lo <= hi <= self.keys().len(),
                self.wf(),
                forall|i: int| 0 <= i < lo ==> lex_lt(#[trigger] self.keys()[i], key@),
                forall|i: int| hi <= i < self.keys().len() ==> !lex_lt(#[trigger] self.keys()[i], key@),
            decreases hi - lo,
        {
            let mid: usize = lo + (hi - lo) / 2;
            if str_lt(self.keys[mid].as_str(), key) {
                assert forall|i: int| 0 <= i < mid + 1 implies lex_lt(#[trigger] self.keys()[i], key@) by {
                    if i < mid {
                        lemma_lex_lt_transitive(self.keys()[i], self.keys()[mid as int], key@);
                    }
                }
                lo = mid + 1;
            } else {
                assert forall|i: int| mid <= i < self.keys().len() implies !lex_lt(
                    #[trigger] self.keys()[i],
                    key@,
                ) by {
                    if mid < i && lex_lt(self.keys()[i], key@) {
                        lemma_lex_lt_transitive(self.keys()[mid as int], self.keys()[i], key@);
                    }
                }
                hi = mid;
            }
        }
        proof {
            lemma_parts_at_is_lower_bound(self.keys(), key@, lo as int);
            self.lemma_place_of(key@);
        }
        if lo < self.keys.len() {
            let candidate = self.keys[lo].as_str();
            let found = !str_lt(key, candidate);
            proof {
                if found && self.keys()[lo as int] != key@ {
                    lemma_lex_lt_total(self.keys()[lo as int], key@);
                }
                if !found {
                    lemma_lex_lt_asymmetric(key@, self.keys()[lo as int]);
                }
            }
            (lo, found)
        } else {
            (lo, false)
        }
    }

    /// Whether the map has an entry for `key`.
    pub fn contains_key(&self, key: &str) -> (r: bool)
        requires
            self.wf(),
        ensures
            r == self.has_key(key@),
    {
        self.locate(key).1
    }

    /// The value stored under `key`, if there is one.
    pub fn get(&self, key: &str) -> (r: Option<&V>)
        requires
            self.wf(),
        ensures
            r matches Some(v) ==> self.has_key(key@) && *v == self.value_of(key@),
            r is None ==> !self.has_key(key@),
    {
        let (p, found) = self.locate(key);
        if found {
            Some(&self.values[p])
        } else {
            None
        }
    }

    /// Stores `value` under `key`. Where the map has the key already, the new
    /// value takes the place of the old one; else the entry goes where the order
    /// of the keys puts it.
    pub fn insert(&mut self, key: String, value: V)
        requires
            old(self).wf(),
        ensures
            final(self).wf(),
            old(self).has_key(key@) ==> final(self).keys() == old(self).keys() && final(self).values()
                == old(self).values().update(old(self).place_of(key@), value),
            !old(self).has_key(key@) ==> final(self).keys() == old(self).keys().insert(
                old(self).place_of(key@),
                key@,
            ) && final(self).values() == old(self).values().insert(old(self).place_of(key@), value),
            final(self).has_key(key@),
            final(self).value_of(key@) == value,
            final(self).place_of(key@) == old(self).place_of(key@),
            forall|k: Seq<char>| #[trigger] final(self).has_key(k) == (old(self).has_key(k) || k == key@),
            forall|k: Seq<char>|
                k != key@ && old(self).has_key(k) ==> #[trigger] final(self).value_of(k) == old(
                    self,
                ).value_of(k),
            forall|i: int|
                0 <= i < final(self).values().len() ==> #[trigger] final(self).values()[i] == value
                    || old(self).values().contains(final(self).values()[i]),
    {
        let ghost start = *self;
        let ghost before = self.keys();
        let (p, found) = self.locate(key.as_str());
        proof {
            lemma_lower_bound(before, key@);
        }
        if found {
            self.values.set(p, value);
            assert(self.keys()[p as int] == key@);
        } else {
            self.keys.insert(p, key);
            self.values.insert(p, value);
            proof {
                assert(self.keys() =~= before.insert(p as int, key@));
                assert forall|i: int, j: int| 0 <= i < j < self.keys().len() implies lex_lt(
                    #[trigger] self.keys()[i],
                    #[trigger] self.keys()[j],
                ) by {
                    if j < p {
                        assert(lex_lt(before[i], before[j]));
                    } else if j == p {
                        assert(lex_lt(before[i], key@));
                    } else if i < p {
                        assert(lex_lt(before[i], before[j - 1]));
                    } else if i == p {
                        assert(!lex_lt(before[j - 1], key@));
                        assert(before[j - 1] != key@);
                        lemma_lex_lt_total(before[j - 1], key@);
                    } else {
                        assert(lex_lt(before[i - 1], before[j - 1]));
                    }
                }
                assert(self.keys()[p as int] == key@);
            }
        }
        proof {
            self.lemma_place_of(key@);
            let p = p as int;
            assert forall|i: int| 0 <= i < self.values().len() implies #[trigger] self.values()[i]
                == value || start.values().contains(self.values()[i]) by {
                if found {
                    if i != p {
                        assert(start.values()[i] == self.values()[i]);
                    }
                } else if i < p {
                    assert(start.values()[i] == self.values()[i]);
                } else if i > p {
                    assert(start.values()[i - 1] == self.values()[i]);
                }
            }
            assert forall|k: Seq<char>| #[trigger] self.has_key(k) == (start.has_key(k) || k == key@) by {
                if self.has_key(k) && k != key@ {
                    let i = choose|i: int| 0 <= i < self.keys().len() && self.keys()[i] == k;
                    if found {
                        assert(before[i] == k);
                    } else if i < p {
                        assert(before[i] == k);
                    } else {
                        assert(before[i - 1] == k);
                    }
                }
                if start.has_key(k) {
                    let i = choose|i: int| 0 <= i < before.len() && before[i] == k;
                    if found {
                        assert(self.keys()[i] == k);
                    } else if i < p {
                        assert(self.keys()[i] == k);
                    } else {
                        assert(self.keys()[i + 1] == k);
                    }
                }
            }
            assert forall|k: Seq<char>| k != key@ && start.has_key(k) implies #[trigger] self.value_of(k)
                == start.value_of(k) by {
                start.lemma_place_of(k);
                self.lemma_place_of(k);
                let i = start.place_of(k);
                if found {
                    assert(self.keys()[i] == k);
                } else if i < p {
                    assert(self.keys()[i] == k);
                } else {
                    assert(self.keys()[i + 1] == k);
                }
            }
        }
    }

    /// Takes the entry for `key` out of the map and hands back its value, if
    /// there is one.
    pub fn remove(&mut self, key: &str) -> (r: Option<V>)
        requires
            old(self).wf(),
        ensures
            final(self).wf(),
            r is Some <==> old(self).has_key(key@),
            r matches Some(v) ==> v == old(self).value_of(key@) && final(self).keys() == old(
                self,
            ).keys().remove(old(self).place_of(key@)) && final(self).values() == old(
                self,
            ).values().remove(old(self).place_of(key@)),
            r is None ==> final(self).keys() == old(self).keys() && final(self).values() == old(
                self,
            ).values(),
            forall|k: Seq<char>| #[trigger] final(self).has_key(k) == (old(self).has_key(k) && k != key@),
            forall|k: Seq<char>|
                k != key@ && old(self).has_key(k) ==> #[trigger] final(self).value_of(k) == old(
                    self,
                ).value_of(k),
    {
        let ghost start = *self;
        let ghost before = self.keys();
        let (p, found) = self.locate(key);
        if !found {
            return None;
        }
        self.keys.remove(p);
        let value = self.values.remove(p);
        proof {
            let p = p as int;
            assert(self.keys() =~= before.remove(p));
            assert forall|i: int, j: int| 0 <= i < j < self.keys().len() implies lex_lt(
                #[trigger] self.keys()[i],
                #[trigger] self.keys()[j],
            ) by {
                let a = if i < p {
                    i
                } else {
                    i + 1
                };
                let b = if j < p {
                    j
                } else {
                    j + 1
                };
                assert(lex_lt(before[a], before[b]));
            }
            assert forall|k: Seq<char>| #[trigger] self.has_key(k) == (start.has_key(k) && k != key@) by {
                if self.has_key(k) {
                    let i = choose|i: int| 0 <= i < self.keys().len() && self.keys()[i] == k;
                    let a = if i < p {
                        i
                    } else {
                        i + 1
                    };
                    assert(before[a] == k);
                    if k == key@ {
                        assert(lex_lt(before[a], before[p]) || lex_lt(before[p], before[a]));
                        lemma_lex_lt_asymmetric(
                            if a < p {
                                before[a]
                            } else {
                                before[p]
                            },
                            if a < p {
                                before[p]
                            } else {
                                before[a]
                            },
                        );
                    }
                }
                if start.has_key(k) && k != key@ {
                    let i = choose|i: int| 0 <= i < before.len() && before[i] == k;
                    if i < p {
                        assert(self.keys()[i] == k);
                    } else {
                        assert(self.keys()[i - 1] == k);
                    }
                }
            }
            assert forall|k: Seq<char>| k != key@ && start.has_key(k) implies #[trigger] self.value_of(k)
                == start.value_of(k) by {
                start.lemma_place_of(k);
                self.lemma_place_of(k);
                let i = start.place_of(k);
                if i < p {
                    assert(self.keys()[i] == k);
                } else {
                    assert(self.keys()[i - 1] == k);
                }
            }
        }
        Some(value)
    }

    /// The keys in ascending order, without the values.
    pub fn into_keys(self) -> (r: Vec<String>)
        requires
            self.wf(),
        ensures
            views(r@) == self.keys(),
    {
        self.keys
    }

    /// Adds an entry at the end. The key must come after every key of the map.
    pub(crate) fn push(&mut self, key: String, value: V)
        requires
            old(self).wf(),
            forall|i: int| 0 <= i < old(self).keys().len() ==> lex_lt(#[trigger] old(self).keys()[i], key@),
        ensures
            final(self).wf(),
            final(self).keys() == old(self).keys().push(key@),
            final(self).values() == old(self).values().push(value),
    {
        let ghost before = self.keys();
        self.keys.push(key);
        self.values.push(value);
        proof {
            assert(self.keys() =~= before.push(key@));
            assert forall|i: int, j: int| 0 <= i < j < self.keys().len() implies lex_lt(
                #[trigger] self.keys()[i],
                #[trigger] self.keys()[j],
            ) by {
                if j < before.len() {
                    assert(lex_lt(before[i], before[j]));
                } else {
                    assert(lex_lt(before[i], key@));
                }
            }
        }
    }
}

} // verus!
