use vstd::prelude::*;
use vstd::seq_lib::{to_multiset_build, to_multiset_insert};

verus! {

/// A candidate as its sort key and what it stands for.
pub type Keyed = (i64, usize);

/// Where a new item goes in an ascending sequence: after every item whose key
/// is not larger, so that items with equal keys keep their order of arrival.
pub open spec fn insert_point(s: Seq<Keyed>, x: Keyed) -> int
    decreases s.len(),
{
    if s.len() == 0 {
        0
    } else if s.last().0 <= x.0 {
        s.len() as int
    } else {
        insert_point(s.drop_last(), x)
    }
}

pub open spec fn insert_keyed(s: Seq<Keyed>, x: Keyed) -> Seq<Keyed> {
    s.take(insert_point(s, x)).push(x) + s.skip(insert_point(s, x))
}

/// The items in ascending order of key; items with equal keys keep their order.
pub open spec fn sort_keyed(s: Seq<Keyed>) -> Seq<Keyed>
    decreases s.len(),
{
    if s.len() == 0 {
        s
    } else {
        insert_keyed(sort_keyed(s.drop_last()), s.last())
    }
}

/// Keys never decrease along the sequence.
pub open spec fn ascending(s: Seq<Keyed>) -> bool {
    forall|i: int, j: int| 0 <= i < j < s.len() ==> s[i].0 <= s[j].0
}

proof fn lemma_insert_point_splits(s: Seq<Keyed>, x: Keyed)
    requires
        ascending(s),
    ensures
        0 <= insert_point(s, x) <= s.len(),
        forall|i: int| 0 <= i < insert_point(s, x) ==> (#[trigger] s[i]).0 <= x.0,
        forall|i: int| insert_point(s, x) <= i < s.len() ==> (#[trigger] s[i]).0 > x.0,
    decreases s.len(),
{
    if s.len() > 0 {
        let d = s.drop_last();
        lemma_insert_point_splits(d, x);
        if s.last().0 <= x.0 {
            assert forall|i: int| 0 <= i < s.len() implies (#[trigger] s[i]).0 <= x.0 by {
                if i < s.len() - 1 {
                    assert(s[i].0 <= s[s.len() - 1].0);
                }
            }
        } else {
            assert forall|i: int| 0 <= i < insert_point(s, x) implies (#[trigger] s[i]).0 <= x.0 by {
                assert(d[i] == s[i]);
            }
            assert forall|i: int| insert_point(s, x) <= i < s.len() implies (#[trigger] s[i]).0
                > x.0 by {
                if i < s.len() - 1 {
                    assert(d[i] == s[i]);
                }
            }
        }
    }
}

/// The sorted sequence is ascending by key and holds the input's items, each
/// as many times as the input does.
pub proof fn lemma_sort_keyed_sorted(s: Seq<Keyed>)
    ensures
        ascending(sort_keyed(s)),
        sort_keyed(s).to_multiset() == s.to_multiset(),
    decreases s.len(),
{
    if s.len() > 0 {
        let d = s.drop_last();
        let x = s.last();
        let t = sort_keyed(d);
        lemma_sort_keyed_sorted(d);
        lemma_insert_point_splits(t, x);
        let j = insert_point(t, x);
        let r = sort_keyed(s);
        assert(r =~= t.insert(j, x));
        assert forall|a: int, b: int| 0 <= a < b < r.len() implies r[a].0 <= r[b].0 by {
            if b < j {
                assert(r[a] == t[a] && r[b] == t[b]);
            } else if b == j {
                assert(r[a] == t[a]);
            } else if a < j {
                assert(r[a] == t[a] && r[b] == t[b - 1]);
            } else if a == j {
                assert(r[b] == t[b - 1]);
            } else {
                assert(r[a] == t[a - 1] && r[b] == t[b - 1]);
            }
        }
        to_multiset_insert(t, j, x);
        to_multiset_build(d, x);
        assert(d.push(x) == s);
    }
}

proof fn lemma_insert_point_bounds(s: Seq<Keyed>, x: Keyed)
    ensures
        0 <= insert_point(s, x) <= s.len(),
    decreases s.len(),
{
    if s.len() > 0 {
        lemma_insert_point_bounds(s.drop_last(), x);
    }
}

/// Sorting keeps the number of items, and a sequence whose items are all the
/// same item sorts to itself.
pub proof fn lemma_sort_keyed_constant(s: Seq<Keyed>, v: Keyed)
    requires
        forall|i: int| 0 <= i < s.len() ==> s[i] == v,
    ensures
        sort_keyed(s).len() == s.len(),
        forall|i: int| 0 <= i < s.len() ==> sort_keyed(s)[i] == v,
    decreases s.len(),
{
    if s.len() > 0 {
        let t = sort_keyed(s.drop_last());
        lemma_sort_keyed_constant(s.drop_last(), v);
        lemma_insert_point_bounds(t, s.last());
        let j = insert_point(t, s.last());
        assert(forall|i: int| 0 <= i < s.len() ==> sort_keyed(s)[i] == v) by {
            assert forall|i: int| 0 <= i < s.len() implies sort_keyed(s)[i] == v by {
                if i < j {
                    assert(sort_keyed(s)[i] == t[i]);
                } else if i > j {
                    assert(sort_keyed(s)[i] == t[i - 1]);
                }
            }
        }
    }
}

/// Every item of the sorted sequence is an item of the input.
pub proof fn lemma_sort_keyed_items(s: Seq<Keyed>)
    ensures
        sort_keyed(s).len() == s.len(),
        forall|i: int| 0 <= i < s.len() ==> s.contains(#[trigger] sort_keyed(s)[i]),
    decreases s.len(),
{
    if s.len() > 0 {
        let d = s.drop_last();
        let t = sort_keyed(d);
        lemma_sort_keyed_items(d);
        lemma_insert_point_bounds(t, s.last());
        let j = insert_point(t, s.last());
        assert forall|i: int| 0 <= i < s.len() implies s.contains(#[trigger] sort_keyed(s)[i]) by {
            if i < j {
                assert(sort_keyed(s)[i] == t[i]);
                assert(d.contains(t[i]));
                let w = choose|w: int| 0 <= w < d.len() && d[w] == t[i];
                assert(s[w] == t[i]);
            } else if i > j {
                assert(sort_keyed(s)[i] == t[i - 1]);
                assert(d.contains(t[i - 1]));
                let w = choose|w: int| 0 <= w < d.len() && d[w] == t[i - 1];
                assert(s[w] == t[i - 1]);
            } else {
                assert(s[s.len() - 1] == s.last());
            }
        }
    }
}

fn insert_sorted(s: &Vec<Keyed>, x: Keyed) -> (r: Vec<Keyed>)
    ensures
        r@ == insert_keyed(s@, x),
{
    let mut j: usize = s.len();
    assert(s@.take(j as int) == s@);
    while j > 0 && s[j - 1].0 > x.0
        invariant
            j <= s@.len(),
            insert_point(s@, x) == insert_point(s@.take(j as int), x),
        decreases j,
    {
        assert(s@.take(j as int).drop_last() == s@.take(j - 1));
        j = j - 1;
    }
    proof {
        if j > 0 {
            assert(s@.take(j as int).last() == s@[j - 1]);
        }
    }
    let mut r: Vec<Keyed> = Vec::new();
    let mut i: usize = 0;
    while i < j
        invariant
            j <= s@.len(),
            i <= j,
            r@ == s@.take(i as int),
        decreases j - i,
    {
        r.push(s[i]);
        i = i + 1;
        assert(r@ == s@.take(i as int));
    }
    r.push(x);
    let ghost front = r@;
    while i < s.len()
        invariant
            j <= i <= s@.len(),
            r@ == front + s@.subrange(j as int, i as int),
        decreases s@.len() - i,
    {
        r.push(s[i]);
        i = i + 1;
        assert(r@ == front + s@.subrange(j as int, i as int));
    }
    assert(s@.subrange(j as int, s@.len() as int) == s@.skip(j as int));
    r
}

/// Sorts by key, ascending and stable.
pub fn sort_by_key(v: &Vec<Keyed>) -> (r: Vec<Keyed>)
    ensures
        r@ == sort_keyed(v@),
        ascending(r@),
        r@.to_multiset() == v@.to_multiset(),
{
    proof {
        lemma_sort_keyed_sorted(v@);
    }
    let mut r: Vec<Keyed> = Vec::new();
    let mut i: usize = 0;
    assert(v@.take(0) =~= Seq::<Keyed>::empty());
    while i < v.len()
        invariant
            i <= v@.len(),
            r@ == sort_keyed(v@.take(i as int)),
        decreases v@.len() - i,
    {
        assert(v@.take(i + 1).drop_last() == v@.take(i as int));
        r = insert_sorted(&r, v[i]);
        i = i + 1;
    }
    assert(v@.take(i as int) == v@);
    r
}

} // verus!
