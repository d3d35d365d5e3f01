//! The categories in ascending order of their numbers, each with its entries
//! in ascending order of their labels.

use vstd::prelude::*;
use crate::listing::{ascending_by, distinct_keys, has_key, lemma_ascending_unique, lemma_map_of_at, lemma_map_of_empty, lemma_map_of_insert, lemma_map_of_update, map_of, strict_order};
use crate::string_map::{ascending_labels, StringMap};
use crate::text::{lemma_lex_irreflexive, lemma_lex_transitive, lex_lt};

verus! {

/// The entries of one category: from label to identifier.
pub type Bucket = Map<Seq<char>, Seq<char>>;

/// Whether the keys of `l` stand in strictly ascending order.
pub open spec fn ascending_keys<V>(l: Seq<(u32, V)>) -> bool {
    forall|i: int, j: int| 0 <= i < j < l.len() ==> (#[trigger] l[i]).0 < (#[trigger] l[j]).0
}

/// The entries that `m` holds for the category `key`: none where it does not
/// know the category.
pub open spec fn bucket_of(m: Map<u32, Bucket>, key: u32) -> Bucket {
    if m.contains_key(key) {
        m[key]
    } else {
        Map::empty()
    }
}

/// `m` with one more entry in the category `key`; an entry of that category
/// with the same label gives way.
pub open spec fn add_entry(m: Map<u32, Bucket>, key: u32, label: Seq<char>, id: Seq<char>) -> Map<
    u32,
    Bucket,
> {
    m.insert(key, bucket_of(m, key).insert(label, id))
}

/// The categories in order, each with its entries (label, identifier) in
/// order.
pub type Arrangement = Seq<(u32, Seq<(Seq<char>, Seq<char>)>)>;

/// The categories of `a`, each with its entries as a map.
pub open spec fn as_listing(a: Arrangement) -> Seq<(u32, Bucket)> {
    Seq::new(a.len(), |i: int| (a[i].0, map_of(a[i].1)))
}

/// Whether `a` holds what `m` holds, the categories in strictly ascending
/// order of their numbers and the entries of each in strictly ascending
/// order of their labels.
pub open spec fn arranges(a: Arrangement, m: Map<u32, Bucket>) -> bool {
    &&& ascending_keys(a)
    &&& forall|i: int| 0 <= i < a.len() ==> ascending_labels((#[trigger] a[i]).1)
    &&& map_of(as_listing(a)) == m
}

/// The arrangement of `m`: there is at most one.
pub open spec fn arrangement_of(m: Map<u32, Bucket>) -> Arrangement {
    choose|a: Arrangement| arranges(a, m)
}

/// Two arrangements of the same entries are the same: the order of the
/// categories and of the entries in each is fixed by their numbers and
/// labels, whatever the order in which the entries came.
pub proof fn lemma_arrangement_unique(a: Arrangement, b: Arrangement, m: Map<u32, Bucket>)
    requires
        arranges(a, m),
        arranges(b, m),
    ensures
        a == b,
{
    let by_number = |x: u32, y: u32| x < y;
    let by_label = |x: Seq<char>, y: Seq<char>| lex_lt(x, y);
    assert(strict_order(by_number));
    assert forall|x: Seq<char>| !#[trigger] by_label(x, x) by {
        lemma_lex_irreflexive(x);
    }
    assert forall|x: Seq<char>, y: Seq<char>, z: Seq<char>| #[trigger]
        by_label(x, y) && #[trigger] by_label(y, z) implies by_label(x, z) by {
        lemma_lex_transitive(x, y, z);
    }
    assert(strict_order(by_label));
    let la = as_listing(a);
    let lb = as_listing(b);
    assert forall|i: int, j: int| 0 <= i < j < la.len() implies by_number(
        (#[trigger] la[i]).0,
        (#[trigger] la[j]).0,
    ) by {
        assert(a[i].0 < a[j].0);
    }
    assert forall|i: int, j: int| 0 <= i < j < lb.len() implies by_number(
        (#[trigger] lb[i]).0,
        (#[trigger] lb[j]).0,
    ) by {
        assert(b[i].0 < b[j].0);
    }
    lemma_ascending_unique(la, lb, by_number);
    assert(la.len() == a.len() && lb.len() == b.len());
    assert forall|i: int| 0 <= i < a.len() implies a[i] == b[i] by {
        assert(la[i] == lb[i]);
        assert(a[i].0 == b[i].0);
        assert(map_of(a[i].1) == map_of(b[i].1));
        assert(ascending_labels(a[i].1));
        assert(ascending_labels(b[i].1));
        assert(ascending_by(a[i].1, by_label));
        assert(ascending_by(b[i].1, by_label));
        lemma_ascending_unique(a[i].1, b[i].1, by_label);
    }
    assert(a =~= b);
}

/// One category with its entries.
pub struct Category {
    pub key: u32,
    pub entries: StringMap,
}

/// The categories, ordered by number.
pub struct Categories {
    groups: Vec<Category>,
}

impl View for Categories {
    type V = Map<u32, Bucket>;

    open spec fn view(&self) -> Map<u32, Bucket> {
        map_of(self.listing())
    }
}

impl Categories {
    /// The categories in order, each with its entries as a map.
    pub closed spec fn listing(&self) -> Seq<(u32, Bucket)> {
        Seq::new(self.groups@.len(), |i: int| (self.groups@[i].key, self.groups@[i].entries@))
    }

    /// The categories in order, each with its entries in order.
    pub closed spec fn arrangement(&self) -> Arrangement {
        Seq::new(
            self.groups@.len(),
            |i: int| (self.groups@[i].key, self.groups@[i].entries.listing()),
        )
    }

    /// The numbers ascend strictly, and so do the labels in each category.
    pub closed spec fn wf(&self) -> bool {
        &&& ascending_keys(self.listing())
        &&& forall|i: int| 0 <= i < self.groups@.len() ==> (#[trigger] self.groups@[i]).entries.wf()
    }

    /// The categories as they stand are the arrangement of what they hold.
    pub proof fn lemma_arrangement(&self)
        requires
            self.wf(),
        ensures
            arranges(self.arrangement(), self@),
            arrangement_of(self@) == self.arrangement(),
    {
        let a = self.arrangement();
        let l = self.listing();
        assert(as_listing(a) =~= l);
        assert forall|i: int, j: int| 0 <= i < j < a.len() implies (#[trigger] a[i]).0 < (
        #[trigger] a[j]).0 by {
            assert(l[i].0 < l[j].0);
        }
        assert forall|i: int| 0 <= i < a.len() implies ascending_labels((#[trigger] a[i]).1) by {
            assert(self.groups@[i].entries.wf());
        }
        assert(arranges(a, self@));
        lemma_arrangement_unique(a, arrangement_of(self@), self@);
    }

    /// No category at all.
    pub fn new() -> (c: Categories)
        ensures
            c.wf(),
            c@ == Map::<u32, Bucket>::empty(),
            c.arrangement().len() == 0,
    {
        let c = Categories { groups: Vec::new() };
        proof {
            lemma_map_of_empty(c.listing());
        }
        c
    }

    /// The number of categories.
    pub fn len(&self) -> (n: usize)
        ensures
            n == self.arrangement().len(),
    {
        self.groups.len()
    }

    /// The category at position `i` of the ascending order.
    pub fn get(&self, i: usize) -> (c: &Category)
        requires
            i < self.arrangement().len(),
        ensures
            c.key == self.arrangement()[i as int].0,
            c.entries.listing() == self.arrangement()[i as int].1,
            self.wf() ==> c.entries.wf(),
    {
        &self.groups[i]
    }

    /// The position of the first category whose number is at least `key`.
    fn lower_bound(&self, key: u32) -> (p: usize)
        requires
            self.wf(),
        ensures
            p <= self.groups@.len(),
            forall|j: int| 0 <= j < p ==> (#[trigger] self.listing()[j]).0 < key,
            forall|j: int| p <= j < self.groups@.len() ==> (#[trigger] self.listing()[j]).0 >= key,
    {
        let mut p: usize = 0;
        while p < self.groups.len()
            invariant
                self.wf(),
                p <= self.groups@.len(),
                forall|j: int| 0 <= j < p ==> (#[trigger] self.listing()[j]).0 < key,
            decreases self.groups.len() - p,
        {
            if self.groups[p].key >= key {
                proof {
                    let l = self.listing();
                    assert(l[p as int].0 >= key);
                    assert forall|j: int| p <= j < l.len() implies (#[trigger] l[j]).0 >= key by {
                        if j > p {
                            assert(l[p as int].0 < l[j].0);
                        }
                    }
                }
                return p;
            }
            p += 1;
        }
        p
    }

    /// Adds an entry to the category `key`, which is made if it is not there.
    pub fn insert(&mut self, key: u32, label: String, id: String)
        requires
            old(self).wf(),
        ensures
            final(self).wf(),
            final(self)@ == add_entry(old(self)@, key, label@, id@),
    {
        let p = self.lower_bound(key);
        let ghost l = self.listing();
        let ghost before = self.groups@;
        proof {
            assert forall|i: int, j: int| 0 <= i < j < l.len() implies (#[trigger] l[i]).0 != (
            #[trigger] l[j]).0 by {}
            assert(distinct_keys(l));
        }
        if p < self.groups.len() && self.groups[p].key == key {
            let mut cat = self.groups.remove(p);
            let ghost bucket = cat.entries@;
            cat.entries.insert(label, id);
            self.groups.insert(p, cat);
            proof {
                assert(l[p as int].0 == key);
                lemma_map_of_at(l, p as int);
                lemma_map_of_update(l, p as int, bucket.insert(label@, id@));
                assert(self.groups@ =~= before.update(p as int, cat));
                assert(self.listing() =~= l.update(
                    p as int,
                    (l[p as int].0, bucket.insert(label@, id@)),
                ));
                let m = self.listing();
                assert forall|i: int, j: int| 0 <= i < j < m.len() implies (#[trigger] m[i]).0 < (
                #[trigger] m[j]).0 by {
                    assert(m[i].0 == l[i].0);
                    assert(m[j].0 == l[j].0);
                }
                assert forall|i: int| 0 <= i < self.groups@.len() implies (
                #[trigger] self.groups@[i]).entries.wf() by {
                    if i != p {
                        assert(self.groups@[i] == before[i]);
                    }
                }
            }
        } else {
            let mut entries = StringMap::new();
            entries.insert(label, id);
            let cat = Category { key, entries };
            self.groups.insert(p, cat);
            proof {
                assert forall|j: int| 0 <= j < l.len() implies (#[trigger] l[j]).0 != key by {}
                assert(!has_key(l, key));
                let bucket = Map::<Seq<char>, Seq<char>>::empty().insert(label@, id@);
                lemma_map_of_insert(l, p as int, key, bucket);
                assert(self.listing() =~= l.insert(p as int, (key, bucket)));
                let m = self.listing();
                assert forall|i: int, j: int| 0 <= i < j < m.len() implies (#[trigger] m[i]).0 < (
                #[trigger] m[j]).0 by {
                    let oi = if i < p { i } else { i - 1 };
                    let oj = if j < p { j } else { j - 1 };
                    if i != p {
                        assert(m[i] == l[oi]);
                    }
                    if j != p {
                        assert(m[j] == l[oj]);
                    }
                }
                assert forall|i: int| 0 <= i < self.groups@.len() implies (
                #[trigger] self.groups@[i]).entries.wf() by {
                    if i < p {
                        assert(self.groups@[i] == before[i]);
                    } else if i > p {
                        assert(self.groups@[i] == before[i - 1]);
                    }
                }
            }
        }
    }
}

} // verus!
