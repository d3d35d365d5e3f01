//! Sequences of key-value pairs, read as maps.

use vstd::prelude::*;

verus! {

/// Whether some pair of `l` has the key `k`.
pub open spec fn has_key<K, V>(l: Seq<(K, V)>, k: K) -> bool {
    exists|i: int| 0 <= i < l.len() && (#[trigger] l[i]).0 == k
}

/// A position at which `l` has the key `k`.
pub open spec fn index_of_key<K, V>(l: Seq<(K, V)>, k: K) -> int {
    choose|i: int| 0 <= i < l.len() && (#[trigger] l[i]).0 == k
}

/// The map that holds each key of `l` with a value that stands beside it.
pub open spec fn map_of<K, V>(l: Seq<(K, V)>) -> Map<K, V> {
    Map::new(|k: K| has_key(l, k), |k: K| l[index_of_key(l, k)].1)
}

/// Whether no key stands twice in `l`.
pub open spec fn distinct_keys<K, V>(l: Seq<(K, V)>) -> bool {
    forall|i: int, j: int| 0 <= i < j < l.len() ==> (#[trigger] l[i]).0 != (#[trigger] l[j]).0
}

/// With distinct keys, the map holds each pair of the sequence.
pub proof fn lemma_map_of_at<K, V>(l: Seq<(K, V)>, i: int)
    requires
        distinct_keys(l),
        0 <= i < l.len(),
    ensures
        has_key(l, l[i].0),
        index_of_key(l, l[i].0) == i,
        map_of(l).contains_key(l[i].0),
        map_of(l)[l[i].0] == l[i].1,
{
    assert(has_key(l, l[i].0));
    let c = index_of_key(l, l[i].0);
    assert(0 <= c < l.len() && l[c].0 == l[i].0);
    if c < i {
        assert(l[c].0 != l[i].0);
    } else if i < c {
        assert(l[i].0 != l[c].0);
    }
}

/// A pair with a new key, put in anywhere, adds that key to the map.
pub proof fn lemma_map_of_insert<K, V>(l: Seq<(K, V)>, p: int, k: K, v: V)
    requires
        distinct_keys(l),
        0 <= p <= l.len(),
        !has_key(l, k),
    ensures
        distinct_keys(l.insert(p, (k, v))),
        map_of(l.insert(p, (k, v))) == map_of(l).insert(k, v),
{
    let m = l.insert(p, (k, v));
    assert forall|i: int, j: int| 0 <= i < j < m.len() implies (#[trigger] m[i]).0 != (
    #[trigger] m[j]).0 by {
        let oi = if i < p { i } else { i - 1 };
        let oj = if j < p { j } else { j - 1 };
        if i == p {
            assert(m[j] == l[oj]);
        } else if j == p {
            assert(m[i] == l[oi]);
        } else {
            assert(m[i] == l[oi]);
            assert(m[j] == l[oj]);
        }
    }
    assert forall|x: K| #[trigger] map_of(m).contains_key(x) <==> map_of(l).insert(
        k,
        v,
    ).contains_key(x) by {
        if has_key(m, x) {
            let i = index_of_key(m, x);
            if i < p {
                assert(l[i].0 == x);
            } else if i > p {
                assert(l[i - 1].0 == x);
            }
        }
        if has_key(l, x) {
            let i = index_of_key(l, x);
            if i < p {
                assert(m[i].0 == x);
            } else {
                assert(m[i + 1].0 == x);
            }
        }
        if x == k {
            assert(m[p].0 == x);
        }
    }
    assert forall|x: K| #[trigger] map_of(m).contains_key(x) implies map_of(m)[x] == map_of(
        l,
    ).insert(k, v)[x] by {
        let i = index_of_key(m, x);
        lemma_map_of_at(m, i);
        if i < p {
            assert(m[i] == l[i]);
            lemma_map_of_at(l, i);
        } else if i > p {
            assert(m[i] == l[i - 1]);
            lemma_map_of_at(l, i - 1);
        }
    }
    assert(map_of(m) =~= map_of(l).insert(k, v));
}

/// A new value for the pair at `p` is a new value for its key in the map.
pub proof fn lemma_map_of_update<K, V>(l: Seq<(K, V)>, p: int, v: V)
    requires
        distinct_keys(l),
        0 <= p < l.len(),
    ensures
        distinct_keys(l.update(p, (l[p].0, v))),
        map_of(l.update(p, (l[p].0, v))) == map_of(l).insert(l[p].0, v),
{
    let k = l[p].0;
    let m = l.update(p, (k, v));
    assert forall|i: int, j: int| 0 <= i < j < m.len() implies (#[trigger] m[i]).0 != (
    #[trigger] m[j]).0 by {
        assert(m[i].0 == l[i].0);
        assert(m[j].0 == l[j].0);
    }
    assert forall|x: K| #[trigger] map_of(m).contains_key(x) <==> map_of(l).insert(
        k,
        v,
    ).contains_key(x) by {
        if has_key(m, x) {
            let i = index_of_key(m, x);
            assert(l[i].0 == x);
        }
        if has_key(l, x) {
            let i = index_of_key(l, x);
            assert(m[i].0 == x);
        }
        if x == k {
            assert(m[p].0 == x);
        }
    }
    assert forall|x: K| #[trigger] map_of(m).contains_key(x) implies map_of(m)[x] == map_of(
        l,
    ).insert(k, v)[x] by {
        let i = index_of_key(m, x);
        lemma_map_of_at(m, i);
        if i != p {
            assert(m[i] == l[i]);
            lemma_map_of_at(l, i);
        }
    }
    assert(map_of(m) =~= map_of(l).insert(k, v));
}

/// A sequence without pairs is the empty map.
pub proof fn lemma_map_of_empty<K, V>(l: Seq<(K, V)>)
    requires
        l.len() == 0,
    ensures
        map_of(l) == Map::<K, V>::empty(),
        distinct_keys(l),
{
    assert(map_of(l) =~= Map::<K, V>::empty());
}

/// Whether the keys of `l` ascend strictly in the order `lt`.
pub open spec fn ascending_by<K, V>(l: Seq<(K, V)>, lt: spec_fn(K, K) -> bool) -> bool {
    forall|i: int, j: int| 0 <= i < j < l.len() ==> lt((#[trigger] l[i]).0, (#[trigger] l[j]).0)
}

/// Whether `lt` is a strict order: nothing comes before itself, and what
/// comes before something comes before all that follows it.
pub open spec fn strict_order<K>(lt: spec_fn(K, K) -> bool) -> bool {
    &&& forall|x: K| !#[trigger] lt(x, x)
    &&& forall|x: K, y: K, z: K| #[trigger] lt(x, y) && #[trigger] lt(y, z) ==> lt(x, z)
}

/// Keys that ascend strictly are distinct.
pub proof fn lemma_ascending_distinct<K, V>(l: Seq<(K, V)>, lt: spec_fn(K, K) -> bool)
    requires
        strict_order(lt),
        ascending_by(l, lt),
    ensures
        distinct_keys(l),
{
    assert forall|i: int, j: int| 0 <= i < j < l.len() implies (#[trigger] l[i]).0 != (
    #[trigger] l[j]).0 by {
        assert(lt(l[i].0, l[j].0));
    }
}

/// A map has at most one listing in ascending order of its keys.
pub proof fn lemma_ascending_unique<K, V>(a: Seq<(K, V)>, b: Seq<(K, V)>, lt: spec_fn(K, K) -> bool)
    requires
        strict_order(lt),
        ascending_by(a, lt),
        ascending_by(b, lt),
        map_of(a) == map_of(b),
    ensures
        a == b,
    decreases a.len(),
{
    lemma_ascending_distinct(a, lt);
    lemma_ascending_distinct(b, lt);
    if a.len() == 0 {
        if b.len() > 0 {
            lemma_map_of_at(b, 0);
            assert(has_key(a, b[0].0));
        }
        assert(a =~= b);
    } else if b.len() == 0 {
        lemma_map_of_at(a, 0);
        assert(has_key(b, a[0].0));
    } else {
        let la = a.len() - 1;
        let lb = b.len() - 1;
        lemma_map_of_at(a, la);
        lemma_map_of_at(b, lb);
        assert(has_key(b, a[la].0));
        assert(has_key(a, b[lb].0));
        let j = index_of_key(b, a[la].0);
        let i = index_of_key(a, b[lb].0);
        if j != lb && i != la {
            assert(lt(b[j].0, b[lb].0));
            assert(lt(a[i].0, a[la].0));
            assert(lt(a[la].0, a[la].0));
        }
        assert(a[la].0 == b[lb].0);
        assert(a[la].1 == b[lb].1);
        let pa = a.drop_last();
        let pb = b.drop_last();
        lemma_ascending_distinct(pa, lt);
        lemma_ascending_distinct(pb, lt);
        assert forall|x: K| #[trigger] map_of(pa).contains_key(x) <==> map_of(pb).contains_key(
            x,
        ) by {
            if has_key(pa, x) {
                let n = index_of_key(pa, x);
                assert(a[n].0 == x);
                lemma_map_of_at(a, n);
                assert(has_key(b, x));
                let w = index_of_key(b, x);
                assert(pb[w].0 == x);
            }
            if has_key(pb, x) {
                let n = index_of_key(pb, x);
                assert(b[n].0 == x);
                lemma_map_of_at(b, n);
                assert(has_key(a, x));
                let w = index_of_key(a, x);
                assert(pa[w].0 == x);
            }
        }
        assert forall|x: K| #[trigger] map_of(pa).contains_key(x) implies map_of(pa)[x] == map_of(
            pb,
        )[x] by {
            let n = index_of_key(pa, x);
            let w = index_of_key(pb, x);
            lemma_map_of_at(pa, n);
            lemma_map_of_at(pb, w);
            assert(a[n] == pa[n]);
            assert(b[w] == pb[w]);
            lemma_map_of_at(a, n);
            lemma_map_of_at(b, w);
        }
        assert(map_of(pa) =~= map_of(pb));
        lemma_ascending_unique(pa, pb, lt);
        assert(a =~= pa.push(a[la]));
        assert(b =~= pb.push(b[lb]));
    }
}

} // verus!
