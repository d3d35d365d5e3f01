//! A map from strings to strings that keeps its keys in ascending order.

use vstd::prelude::*;
use vstd::string::*;
use vstd::pervasive::VecAdditionalExecFns;
use crate::listing::{distinct_keys, has_key, lemma_map_of_at, lemma_map_of_empty, lemma_map_of_insert, lemma_map_of_update, map_of};
use crate::text::{lemma_lex_irreflexive, lemma_lex_total, lemma_lex_transitive, less, lex_lt};

verus! {

/// Whether the keys of `l` stand in strictly ascending order.
pub open spec fn ascending_labels(l: Seq<(Seq<char>, Seq<char>)>) -> bool {
    forall|i: int, j: int| 0 <= i < j < l.len() ==> lex_lt((#[trigger] l[i]).0, (#[trigger] l[j]).0)
}

/// Keys in strictly ascending order are distinct.
pub proof fn lemma_ascending_labels_distinct(l: Seq<(Seq<char>, Seq<char>)>)
    requires
        ascending_labels(l),
    ensures
        distinct_keys(l),
{
    assert forall|i: int, j: int| 0 <= i < j < l.len() implies (#[trigger] l[i]).0 != (
    #[trigger] l[j]).0 by {
        lemma_lex_irreflexive(l[i].0);
    }
}

/// A key with its value.
struct Pair {
    key: String,
    value: String,
}

/// An ordered map from strings to strings.
pub struct StringMap {
    pairs: Vec<Pair>,
}

impl View for StringMap {
    type V = Map<Seq<char>, Seq<char>>;

    open spec fn view(&self) -> Map<Seq<char>, Seq<char>> {
        map_of(self.listing())
    }
}

impl StringMap {
    /// The pairs in the order in which the map hands them out.
    pub closed spec fn listing(&self) -> Seq<(Seq<char>, Seq<char>)> {
        Seq::new(self.pairs@.len(), |i: int| (self.pairs@[i].key@, self.pairs@[i].value@))
    }

    /// The keys stand in strictly ascending order.
    pub open spec fn wf(&self) -> bool {
        ascending_labels(self.listing())
    }

    /// A map without keys.
    pub fn new() -> (m: StringMap)
        ensures
            m.wf(),
            m@ == Map::<Seq<char>, Seq<char>>::empty(),
            m.listing().len() == 0,
    {
        let m = StringMap { pairs: Vec::new() };
        proof {
            lemma_map_of_empty(m.listing());
        }
        m
    }

    /// The number of keys.
    pub fn len(&self) -> (n: usize)
        ensures
            n == self.listing().len(),
    {
        self.pairs.len()
    }

    /// The key at position `i` of the ascending order.
    pub fn key_at(&self, i: usize) -> (k: &String)
        requires
            i < self.listing().len(),
        ensures
            k@ == self.listing()[i as int].0,
    {
        &self.pairs[i].key
    }

    /// The value at position `i` of the ascending order of the keys.
    pub fn value_at(&self, i: usize) -> (v: &String)
        requires
            i < self.listing().len(),
        ensures
            v@ == self.listing()[i as int].1,
    {
        &self.pairs[i].value
    }

    /// The position of the first key that does not come before `key`.
    fn lower_bound(&self, key: &str) -> (p: usize)
        requires
            self.wf(),
        ensures
            p <= self.listing().len(),
            forall|j: int| 0 <= j < p ==> lex_lt((#[trigger] self.listing()[j]).0, key@),
            forall|j: int|
                p <= j < self.listing().len() ==> !lex_lt((#[trigger] self.listing()[j]).0, key@),
    {
        let mut p: usize = 0;
        while p < self.pairs.len()
            invariant
                self.wf(),
                p <= self.listing().len(),
                forall|j: int| 0 <= j < p ==> lex_lt((#[trigger] self.listing()[j]).0, key@),
            decreases self.pairs.len() - p,
        {
            if !less(self.pairs[p].key.as_str(), key) {
                proof {
                    let l = self.listing();
                    assert(!lex_lt(l[p as int].0, key@));
                    assert forall|j: int| p <= j < l.len() implies !lex_lt(
                        (#[trigger] l[j]).0,
                        key@,
                    ) by {
                        if j > p && lex_lt(l[j].0, key@) {
                            assert(lex_lt(l[p as int].0, l[j].0));
                            lemma_lex_transitive(l[p as int].0, l[j].0, key@);
                        }
                    }
                }
                return p;
            }
            p += 1;
        }
        p
    }

    /// The value that stands under `key`, if any.
    pub fn get(&self, key: &str) -> (r: Option<&String>)
        requires
            self.wf(),
        ensures
            match r {
                Some(v) => self@.contains_key(key@) && v@ == self@[key@],
                None => !self@.contains_key(key@),
            },
    {
        let p = self.lower_bound(key);
        let ghost l = self.listing();
        proof {
            lemma_ascending_labels_distinct(l);
        }
        if p < self.pairs.len() && !less(key, self.pairs[p].key.as_str()) {
            proof {
                lemma_lex_total(key@, l[p as int].0);
                lemma_map_of_at(l, p as int);
            }
            Some(&self.pairs[p].value)
        } else {
            proof {
                lemma_lex_irreflexive(key@);
                self.lemma_absent(p as int, key@);
            }
            None
        }
    }

    /// A key that the position found for it does not hold is not in the map.
    proof fn lemma_absent(&self, p: int, key: Seq<char>)
        requires
            self.wf(),
            0 <= p <= self.listing().len(),
            forall|j: int| 0 <= j < p ==> lex_lt((#[trigger] self.listing()[j]).0, key),
            forall|j: int|
                p <= j < self.listing().len() ==> !lex_lt((#[trigger] self.listing()[j]).0, key),
            p < self.listing().len() ==> self.listing()[p].0 != key,
        ensures
            !has_key(self.listing(), key),
            forall|j: int|
                p <= j < self.listing().len() ==> lex_lt(key, (#[trigger] self.listing()[j]).0),
    {
        let l = self.listing();
        assert forall|j: int| p <= j < l.len() implies lex_lt(key, (#[trigger] l[j]).0) by {
            lemma_lex_total(key, l[p].0);
            if j > p {
                assert(lex_lt(l[p].0, l[j].0));
                lemma_lex_transitive(key, l[p].0, l[j].0);
            }
        }
        assert forall|j: int| 0 <= j < l.len() implies (#[trigger] l[j]).0 != key by {
            lemma_lex_irreflexive(key);
        }
    }

    /// Puts `value` under `key`, in place of what stood there.
    pub fn insert(&mut self, key: String, value: String)
        requires
            old(self).wf(),
        ensures
            final(self).wf(),
            final(self)@ == old(self)@.insert(key@, value@),
    {
        let p = self.lower_bound(key.as_str());
        let ghost l = self.listing();
        proof {
            lemma_ascending_labels_distinct(l);
        }
        if p < self.pairs.len() && !less(key.as_str(), self.pairs[p].key.as_str()) {
            proof {
                lemma_lex_total(key@, l[p as int].0);
            }
            self.pairs.set(p, Pair { key, value });
            proof {
                lemma_map_of_update(l, p as int, value@);
                assert(self.listing() =~= l.update(p as int, (l[p as int].0, value@)));
                let m = self.listing();
                assert forall|i: int, j: int| 0 <= i < j < m.len() implies lex_lt(
                    (#[trigger] m[i]).0,
                    (#[trigger] m[j]).0,
                ) by {
                    assert(m[i].0 == l[i].0);
                    assert(m[j].0 == l[j].0);
                }
            }
        } else {
            proof {
                lemma_lex_irreflexive(key@);
                self.lemma_absent(p as int, key@);
            }
            self.pairs.insert(p, Pair { key, value });
            proof {
                lemma_map_of_insert(l, p as int, key@, value@);
                assert(self.listing() =~= l.insert(p as int, (key@, value@)));
                let m = self.listing();
                assert forall|i: int, j: int| 0 <= i < j < m.len() implies lex_lt(
                    (#[trigger] m[i]).0,
                    (#[trigger] m[j]).0,
                ) by {
                    let oi = if i < p { i } else { i - 1 };
                    let oj = if j < p { j } else { j - 1 };
                    if i != p {
                        assert(m[i] == l[oi]);
                    }
                    if j != p {
                        assert(m[j] == l[oj]);
                    }
                }
            }
        }
    }
}

} // verus!
