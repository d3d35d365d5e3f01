//! What holds of the entries that are sorted into categories, and of every
//! arrangement of them.

use vstd::prelude::*;
use crate::categories::{arranges, as_listing, ascending_keys, lemma_arrangement_unique, Arrangement, Bucket};
use crate::classify::{all_digits, category_of, delimiters, digits_value, has_prefix, is_first, lemma_first_index, number_text, split_point_from, unsigned_part, Rejection};
use crate::listing::{distinct_keys, has_key, index_of_key, lemma_map_of_at, map_of};
use crate::string_map::{ascending_labels, lemma_ascending_labels_distinct};
use crate::table::Select;
use crate::select_tree::{same_field, same_leaves, same_tree, TreeGroup};
use crate::tree::{buckets, group_id, is_group, is_leaf, is_root};

verus! {

/// Whether the entry at `n` is the last of its category with its label.
pub open spec fn is_last_of_its_label(selects: Seq<Select>, n: int) -> bool {
    forall|m: int|
        n < m < selects.len() ==> !(category_of((#[trigger] selects[m]).id@) == category_of(
            selects[n].id@,
        ) && selects[m].label@ == selects[n].label@)
}

/// Whatever a category holds under a label is the identifier of an entry
/// with that label whose identifier gives that category: so it starts with
/// `IAB`, has a delimiter and a number.
pub proof fn lemma_held_entries_are_classified(selects: Seq<Select>, key: u32, label: Seq<char>)
    requires
        buckets(selects).contains_key(key),
        buckets(selects)[key].contains_key(label),
    ensures
        exists|n: int|
            0 <= n < selects.len() && category_of((#[trigger] selects[n]).id@) == Ok::<
                u32,
                Rejection,
            >(key) && has_prefix(selects[n].id@) && selects[n].label@ == label && selects[n].id@
                == buckets(selects)[key][label],
    decreases selects.len(),
{
    if selects.len() > 0 {
        let before = selects.drop_last();
        let s = selects.last();
        let n = selects.len() - 1;
        if category_of(s.id@) == Ok::<u32, Rejection>(key) && s.label@ == label {
            assert(selects[n] == s);
        } else {
            assert(buckets(before).contains_key(key));
            assert(buckets(before)[key].contains_key(label));
            assert(buckets(before)[key][label] == buckets(selects)[key][label]);
            lemma_held_entries_are_classified(before, key, label);
            let w = choose|w: int|
                0 <= w < before.len() && category_of((#[trigger] before[w]).id@) == Ok::<
                    u32,
                    Rejection,
                >(key) && has_prefix(before[w].id@) && before[w].label@ == label && before[w].id@
                    == buckets(before)[key][label];
            assert(selects[w] == before[w]);
        }
    }
}

/// An entry whose identifier gives a category stands in that category under
/// its label, unless a later entry of the category has the same label.
pub proof fn lemma_last_entry_stands(selects: Seq<Select>, n: int)
    requires
        0 <= n < selects.len(),
        category_of(selects[n].id@) is Ok,
        is_last_of_its_label(selects, n),
    ensures
        buckets(selects).contains_key(category_of(selects[n].id@)->Ok_0),
        buckets(selects)[category_of(selects[n].id@)->Ok_0].contains_key(selects[n].label@),
        buckets(selects)[category_of(selects[n].id@)->Ok_0][selects[n].label@] == selects[n].id@,
    decreases selects.len(),
{
    let before = selects.drop_last();
    let last = selects.len() - 1;
    if n < last {
        assert(before[n] == selects[n]);
        assert forall|m: int| n < m < before.len() implies !(category_of(
            (#[trigger] before[m]).id@,
        ) == category_of(before[n].id@) && before[m].label@ == before[n].label@) by {
            assert(before[m] == selects[m]);
        }
        lemma_last_entry_stands(before, n);
        assert(selects[last] == selects.last());
    }
}

/// An entry whose identifier gives no category adds nothing.
pub proof fn lemma_rejected_entry_adds_nothing(selects: Seq<Select>, s: Select)
    requires
        category_of(s.id@) is Err,
    ensures
        buckets(selects.push(s)) == buckets(selects),
{
    assert(selects.push(s).drop_last() =~= selects);
}

/// Each place of an arrangement holds an entry of the map that it arranges.
pub proof fn lemma_place_holds_entry(a: Arrangement, m: Map<u32, Bucket>, i: int, j: int)
    requires
        arranges(a, m),
        0 <= i < a.len(),
        0 <= j < a[i].1.len(),
    ensures
        m.contains_key(a[i].0),
        m[a[i].0] == map_of(a[i].1),
        m[a[i].0].contains_key(a[i].1[j].0),
        m[a[i].0][a[i].1[j].0] == a[i].1[j].1,
{
    let l = as_listing(a);
    lemma_listing_distinct(a);
    lemma_map_of_at(l, i);
    lemma_ascending_labels_distinct(a[i].1);
    lemma_map_of_at(a[i].1, j);
}

/// Each entry of a map has a place in an arrangement of it.
pub proof fn lemma_entry_has_place(a: Arrangement, m: Map<u32, Bucket>, key: u32, label: Seq<char>)
    requires
        arranges(a, m),
        m.contains_key(key),
        m[key].contains_key(label),
    ensures
        exists|i: int, j: int|
            0 <= i < a.len() && 0 <= j < a[i].1.len() && (#[trigger] a[i]).0 == key && (
            #[trigger] a[i].1[j]) == (label, m[key][label]),
{
    let l = as_listing(a);
    lemma_listing_distinct(a);
    assert(has_key(l, key));
    let i = index_of_key(l, key);
    lemma_map_of_at(l, i);
    assert(a[i].0 == key);
    assert(m[key] == map_of(a[i].1));
    assert(has_key(a[i].1, label));
    let j = index_of_key(a[i].1, label);
    lemma_ascending_labels_distinct(a[i].1);
    lemma_map_of_at(a[i].1, j);
    assert(a[i].1[j] == (label, m[key][label]));
}

/// No category stands twice in an arrangement, and no label twice in a
/// category.
pub proof fn lemma_place_is_unique(a: Arrangement, i1: int, j1: int, i2: int, j2: int)
    requires
        ascending_keys(a),
        forall|i: int| 0 <= i < a.len() ==> ascending_labels((#[trigger] a[i]).1),
        0 <= i1 < a.len(),
        0 <= j1 < a[i1].1.len(),
        0 <= i2 < a.len(),
        0 <= j2 < a[i2].1.len(),
        a[i1].0 == a[i2].0,
        a[i1].1[j1].0 == a[i2].1[j2].0,
    ensures
        i1 == i2,
        j1 == j2,
{
    if i1 < i2 {
        assert(a[i1].0 < a[i2].0);
    } else if i2 < i1 {
        assert(a[i2].0 < a[i1].0);
    }
    lemma_ascending_labels_distinct(a[i1].1);
    let e = a[i1].1;
    if j1 < j2 {
        assert(e[j1].0 != e[j2].0);
    } else if j2 < j1 {
        assert(e[j2].0 != e[j1].0);
    }
}

/// An identifier written as `IAB`, a number in digits, a delimiter and
/// whatever else has the category of that number; after an underscore no
/// hyphen may follow, for the hyphen is looked for first.
pub proof fn lemma_written_category(digits: Seq<char>, delimiter: char, tail: Seq<char>)
    requires
        digits.len() > 0,
        all_digits(digits),
        digits_value(digits) <= u32::MAX,
        delimiter == '-' || (delimiter == '_' && !tail.contains('-')),
    ensures
        category_of("IAB"@ + digits + seq![delimiter] + tail) == Ok::<u32, Rejection>(
            digits_value(digits) as u32,
        ),
{
    reveal_strlit("IAB");
    let id = "IAB"@ + digits + seq![delimiter] + tail;
    let rest = digits + seq![delimiter] + tail;
    let at = digits.len() as int;
    assert(id.skip(3) =~= rest);
    assert(rest.take(at) =~= digits);
    assert forall|j: int| 0 <= j < at implies rest[j] != '-' && rest[j] != '_' by {
        assert(rest[j] == digits[j]);
    }
    assert(rest[at] == delimiter);
    assert(is_first(rest, delimiter, at));
    lemma_first_index(rest, delimiter, at);
    assert(delimiters()[0] == '-' && delimiters()[1] == '_');
    if delimiter == '_' {
        if rest.contains('-') {
            let j = choose|j: int| 0 <= j < rest.len() && rest[j] == '-';
            assert(j > at);
            assert(tail[j - at - 1] == '-');
        }
        assert(split_point_from(rest, delimiters(), 1) == Some(at));
    }
    assert(split_point_from(rest, delimiters(), 0) == Some(at));
    assert(number_text(rest) == Some(digits));
    assert(digits[0] != '+');
    assert(unsigned_part(digits) == digits);
}

/// Each leaf of the tree refers to an entry whose identifier gives the
/// category of the group that the leaf stands under: an entry without the
/// prefix, the delimiter or the number has no leaf.
pub proof fn lemma_leaves_are_classified(
    root: TreeGroup,
    table_id: Seq<char>,
    selects: Seq<Select>,
    lookup: Map<Seq<char>, Seq<char>>,
    a: Arrangement,
    i: int,
    j: int,
)
    requires
        arranges(a, buckets(selects)),
        is_root(root, table_id, a, lookup),
        0 <= i < root.members@.len(),
        root.group_at(i) is Some,
        0 <= j < root.group_at(i)->0.members@.len(),
    ensures
        root.group_at(i)->0.id@ == group_id(a[i].0),
        root.group_at(i)->0.leaf_at(j) is Some,
        exists|n: int|
            0 <= n < selects.len() && (#[trigger] selects[n]).id@ == root.group_at(i)->0.leaf_at(
                j,
            )->0.select_id@ && has_prefix(selects[n].id@) && category_of(selects[n].id@) == Ok::<
                u32,
                Rejection,
            >(a[i].0),
{
    let g = root.group_at(i)->0;
    assert(is_group(root.members@[i], table_id, a[i].0, a[i].1, lookup));
    assert(is_leaf(g.members@[j], table_id, a[i].1[j].1));
    lemma_place_holds_entry(a, buckets(selects), i, j);
    lemma_held_entries_are_classified(selects, a[i].0, a[i].1[j].0);
}

/// An entry whose identifier gives a category has a leaf under the group of
/// that category, at the place of its label, unless a later entry of the
/// category has the same label.
pub proof fn lemma_entry_has_its_leaf(
    root: TreeGroup,
    table_id: Seq<char>,
    selects: Seq<Select>,
    lookup: Map<Seq<char>, Seq<char>>,
    a: Arrangement,
    n: int,
)
    requires
        arranges(a, buckets(selects)),
        is_root(root, table_id, a, lookup),
        0 <= n < selects.len(),
        category_of(selects[n].id@) is Ok,
        is_last_of_its_label(selects, n),
    ensures
        exists|i: int, j: int|
            0 <= i < a.len() && 0 <= j < a[i].1.len() && (#[trigger] a[i]).0 == category_of(
                selects[n].id@,
            )->Ok_0 && (#[trigger] a[i].1[j]).0 == selects[n].label@ && root.group_at(i) is Some
                && root.group_at(i)->0.id@ == group_id(a[i].0) && root.group_at(i)->0.leaf_at(j)
                is Some && root.group_at(i)->0.leaf_at(j)->0.select_id@ == selects[n].id@,
{
    let key = category_of(selects[n].id@)->Ok_0;
    let label = selects[n].label@;
    lemma_last_entry_stands(selects, n);
    lemma_entry_has_place(a, buckets(selects), key, label);
    let (i, j) = choose|i: int, j: int|
        0 <= i < a.len() && 0 <= j < a[i].1.len() && (#[trigger] a[i]).0 == key && (
        #[trigger] a[i].1[j]) == (label, buckets(selects)[key][label]);
    assert(is_group(root.members@[i], table_id, a[i].0, a[i].1, lookup));
    let g = root.group_at(i)->0;
    assert(is_leaf(g.members@[j], table_id, a[i].1[j].1));
}

/// Two trees of the same arrangement, table and labels read the same.
pub proof fn lemma_trees_agree(
    x: TreeGroup,
    y: TreeGroup,
    table_id: Seq<char>,
    a: Arrangement,
    lookup: Map<Seq<char>, Seq<char>>,
)
    requires
        is_root(x, table_id, a, lookup),
        is_root(y, table_id, a, lookup),
    ensures
        same_tree(x, y),
{
    assert forall|i: int| 0 <= i < x.members@.len() implies (#[trigger] x.group_at(i)) is Some
        && y.group_at(i) is Some && same_leaves(x.group_at(i)->0, y.group_at(i)->0) by {
        assert(is_group(x.members@[i], table_id, a[i].0, a[i].1, lookup));
        assert(is_group(y.members@[i], table_id, a[i].0, a[i].1, lookup));
        let g = x.group_at(i)->0;
        let h = y.group_at(i)->0;
        assert forall|j: int| 0 <= j < g.members@.len() implies (#[trigger] g.leaf_at(j)) is Some
            && h.leaf_at(j) is Some && same_field(g.leaf_at(j)->0, h.leaf_at(j)->0) by {
            assert(is_leaf(g.members@[j], table_id, a[i].1[j].1));
            assert(is_leaf(h.members@[j], table_id, a[i].1[j].1));
        }
    }
}

/// Two trees built of the same entries, table and labels read the same,
/// whichever arrangements of the entries they were built of.
pub proof fn lemma_tree_is_determined(
    x: TreeGroup,
    y: TreeGroup,
    table_id: Seq<char>,
    selects: Seq<Select>,
    lookup: Map<Seq<char>, Seq<char>>,
    a: Arrangement,
    b: Arrangement,
)
    requires
        arranges(a, buckets(selects)),
        arranges(b, buckets(selects)),
        is_root(x, table_id, a, lookup),
        is_root(y, table_id, b, lookup),
    ensures
        same_tree(x, y),
{
    lemma_arrangement_unique(a, b, buckets(selects));
    lemma_trees_agree(x, y, table_id, a, lookup);
}

proof fn lemma_listing_distinct(a: Arrangement)
    requires
        ascending_keys(a),
    ensures
        distinct_keys(as_listing(a)),
{
    let l = as_listing(a);
    assert forall|i: int, j: int| 0 <= i < j < l.len() implies (#[trigger] l[i]).0 != (
    #[trigger] l[j]).0 by {
        assert(a[i].0 < a[j].0);
    }
}

} // verus!
