use vstd::prelude::*;

use crate::cost::Cost;

verus! {

broadcast use vstd::seq_lib::group_to_multiset_ensures;

/// The costs of `s` never decrease from left to right.
pub open spec fn sorted_by_cost<T>(s: Seq<(Cost, T)>) -> bool {
    forall|i: int, j: int| 0 <= i <= j < s.len() ==> s[i].0 <= s[j].0
}

/// Holds of the entries whose cost is `k`.
pub open spec fn with_cost<T>(k: Cost) -> spec_fn((Cost, T)) -> bool {
    |e: (Cost, T)| e.0 == k
}

/// For every cost, `a` and `b` hold the same entries of that cost, in the
/// same order.
pub open spec fn same_order_per_cost<T>(a: Seq<(Cost, T)>, b: Seq<(Cost, T)>) -> bool {
    forall|k: Cost| #[trigger] a.filter(with_cost(k)) == b.filter(with_cost(k))
}

/// `r` is `s` sorted by cost, where entries of equal cost keep the order
/// they had in `s`.
pub open spec fn is_stable_sort<T>(s: Seq<(Cost, T)>, r: Seq<(Cost, T)>) -> bool {
    &&& sorted_by_cost(r)
    &&& same_order_per_cost(r, s)
    &&& r.to_multiset() == s.to_multiset()
}

/// A sequence without entries of cost `k` has none left after filtering.
proof fn lemma_filter_none<T>(t: Seq<(Cost, T)>, k: Cost)
    requires
        forall|i: int| 0 <= i < t.len() ==> t[i].0 != k,
    ensures
        t.filter(with_cost(k)) =~= Seq::<(Cost, T)>::empty(),
{
    let f = t.filter(with_cost::<T>(k));
    if f.len() > 0 {
        t.lemma_filter_pred(with_cost(k), 0);
        t.lemma_filter_contains_rev(with_cost(k), f[0]);
    }
}

/// Filtering a sequence with an entry inserted at `p`.
proof fn lemma_filter_insert<T>(s: Seq<(Cost, T)>, p: int, x: (Cost, T), k: Cost)
    requires
        0 <= p <= s.len(),
    ensures
        s.filter(with_cost(k)) == s.take(p).filter(with_cost(k)) + s.skip(p).filter(with_cost(k)),
        s.insert(p, x).filter(with_cost(k)) == s.take(p).filter(with_cost(k)) + seq![x].filter(
            with_cost(k),
        ) + s.skip(p).filter(with_cost(k)),
        seq![x].filter(with_cost(k)) == if x.0 == k {
            seq![x]
        } else {
            Seq::<(Cost, T)>::empty()
        },
{
    let f = with_cost::<T>(k);
    assert(s =~= s.take(p) + s.skip(p));
    Seq::filter_distributes_over_add(s.take(p), s.skip(p), f);
    assert(s.insert(p, x) =~= (s.take(p) + seq![x]) + s.skip(p));
    Seq::filter_distributes_over_add(s.take(p) + seq![x], s.skip(p), f);
    Seq::filter_distributes_over_add(s.take(p), seq![x], f);
    Seq::<(Cost, T)>::empty().lemma_filter_push(x, f);
    assert(Seq::<(Cost, T)>::empty().push(x) =~= seq![x]);
    reveal(Seq::filter);
    assert(Seq::<(Cost, T)>::empty().filter(f) =~= Seq::<(Cost, T)>::empty());
}

/// Inserting between the entries of lower and of higher cost keeps a
/// sequence sorted.
pub proof fn lemma_insert_sorted<T>(s: Seq<(Cost, T)>, p: int, x: (Cost, T))
    requires
        sorted_by_cost(s),
        0 <= p <= s.len(),
        forall|i: int| 0 <= i < p ==> s[i].0 <= x.0,
        forall|i: int| p <= i < s.len() ==> s[i].0 >= x.0,
    ensures
        sorted_by_cost(s.insert(p, x)),
        s.insert(p, x).to_multiset() == s.to_multiset().insert(x),
{
    let r = s.insert(p, x);
    assert forall|i: int, j: int| 0 <= i <= j < r.len() implies r[i].0 <= r[j].0 by {
        if j < p {
        } else if i > p {
            assert(r[i] == s[i - 1] && r[j] == s[j - 1]);
        } else if i == p {
            if j > p {
                assert(r[j] == s[j - 1]);
            }
        } else {
            if j > p {
                assert(r[j] == s[j - 1]);
            }
        }
    }
}

/// A position in `v`; when `v` is sorted, the first one whose entry costs
/// more than `key`.
fn upper_bound<T>(v: &Vec<(Cost, T)>, key: Cost) -> (p: usize)
    ensures
        p <= v.len(),
        sorted_by_cost(v@) ==> forall|i: int| 0 <= i < p ==> v@[i].0 <= key,
        sorted_by_cost(v@) ==> forall|i: int| p <= i < v.len() ==> v@[i].0 > key,
{
    let mut lo: usize = 0;
    let mut hi: usize = v.len();
    while lo < hi
        invariant
            0 <= lo <= hi <= v.len(),
            sorted_by_cost(v@) ==> forall|i: int| 0 <= i < lo ==> v@[i].0 <= key,
            sorted_by_cost(v@) ==> forall|i: int| hi <= i < v.len() ==> v@[i].0 > key,
        decreases hi - lo,
    {
        let mid = lo + (hi - lo) / 2;
        if v[mid].0 <= key {
            lo = mid + 1;
        } else {
            hi = mid;
        }
    }
    lo
}

/// The first position whose entry costs at least `key`.
fn lower_bound<T>(v: &Vec<(Cost, T)>, key: Cost) -> (p: usize)
    requires
        sorted_by_cost(v@),
    ensures
        p <= v.len(),
        forall|i: int| 0 <= i < p ==> v@[i].0 < key,
        forall|i: int| p <= i < v.len() ==> v@[i].0 >= key,
{
    let mut lo: usize = 0;
    let mut hi: usize = v.len();
    while lo < hi
        invariant
            0 <= lo <= hi <= v.len(),
            sorted_by_cost(v@),
            forall|i: int| 0 <= i < lo ==> v@[i].0 < key,
            forall|i: int| hi <= i < v.len() ==> v@[i].0 >= key,
        decreases hi - lo,
    {
        let mid = lo + (hi - lo) / 2;
        if v[mid].0 < key {
            lo = mid + 1;
        } else {
            hi = mid;
        }
    }
    lo
}

/// Inserts `item` into `vec`. When `vec` is sorted by cost, `item` goes
/// after every entry that does not cost more, so that `vec` stays sorted and
/// entries of equal cost stay in the order in which they were pushed.
pub fn sorted_push_by_key<T>(vec: &mut Vec<(Cost, T)>, item: (Cost, T))
    ensures
        exists|p: int|
            0 <= p <= old(vec)@.len() && final(vec)@ == old(vec)@.insert(p, item) && (sorted_by_cost(
                old(vec)@,
            ) ==> (forall|i: int| 0 <= i < p ==> old(vec)@[i].0 <= item.0) && (forall|i: int|
                p <= i < old(vec)@.len() ==> old(vec)@[i].0 > item.0)),
        final(vec)@.to_multiset() == old(vec)@.to_multiset().insert(item),
        sorted_by_cost(old(vec)@) ==> sorted_by_cost(final(vec)@),
        sorted_by_cost(old(vec)@) ==> forall|k: Cost|
            #[trigger] final(vec)@.filter(with_cost(k)) == if k == item.0 {
                old(vec)@.filter(with_cost(k)).push(item)
            } else {
                old(vec)@.filter(with_cost(k))
            },
{
    let p = upper_bound(vec, item.0);
    let ghost s = vec@;
    let ghost x = item;
    vec.insert(p, item);
    proof {
        vstd::seq_lib::to_multiset_insert(s, p as int, x);
        if sorted_by_cost(s) {
            lemma_insert_sorted(s, p as int, x);
            assert forall|k: Cost| #[trigger] vec@.filter(with_cost(k)) == if k == x.0 {
                s.filter(with_cost(k)).push(x)
            } else {
                s.filter(with_cost(k))
            } by {
                lemma_filter_insert(s, p as int, x, k);
                if k == x.0 {
                    assert forall|i: int| 0 <= i < s.skip(p as int).len() implies s.skip(p as int)[i].0 != k by {
                        assert(s.skip(p as int)[i] == s[p + i]);
                    }
                    lemma_filter_none(s.skip(p as int), k);
                    assert(vec@.filter(with_cost(k)) =~= s.filter(with_cost(k)).push(x));
                } else {
                    assert(vec@.filter(with_cost(k)) =~= s.filter(with_cost(k)));
                }
            }
        }
    }
}

/// Sorts `v` by cost; entries of equal cost keep their order.
pub fn sort_by_cost<T>(v: Vec<(Cost, T)>) -> (r: Vec<(Cost, T)>)
    ensures
        is_stable_sort(v@, r@),
{
    let ghost orig = v@;
    let mut v = v;
    let mut out: Vec<(Cost, T)> = Vec::new();
    proof {
        assert(orig.skip(orig.len() as int) =~= Seq::<(Cost, T)>::empty());
        assert forall|k: Cost| #[trigger] out@.filter(with_cost(k)) == orig.skip(v.len() as int).filter(
            with_cost(k),
        ) by {
            reveal(Seq::filter);
        }
    }
    while v.len() > 0
        invariant
            v@ == orig.take(v.len() as int),
            v.len() <= orig.len(),
            sorted_by_cost(out@),
            forall|k: Cost| #[trigger] out@.filter(with_cost(k)) == orig.skip(v.len() as int).filter(
                with_cost(k),
            ),
            out@.to_multiset() == orig.skip(v.len() as int).to_multiset(),
        decreases v.len(),
    {
        let ghost i = v.len() as int;
        let item = v.pop().unwrap();
        let ghost x = item;
        let ghost s = out@;
        proof {
            assert(x == orig[i - 1]);
            assert(v@ =~= orig.take(i - 1));
            assert(orig.skip(i - 1) =~= seq![x] + orig.skip(i));
        }
        let p = lower_bound(&out, item.0);
        out.insert(p, item);
        proof {
            lemma_insert_sorted(s, p as int, x);
            assert(orig.skip(i - 1).to_multiset() =~= orig.skip(i).to_multiset().insert(x)) by {
                assert(orig.skip(i - 1) =~= orig.skip(i).insert(0, x));
            }
            assert forall|k: Cost| #[trigger] out@.filter(with_cost(k)) == orig.skip(i - 1).filter(
                with_cost(k),
            ) by {
                lemma_filter_insert(s, p as int, x, k);
                orig.skip(i).lemma_filter_prepend(x, with_cost(k));
                if k == x.0 {
                    assert forall|j: int| 0 <= j < s.take(p as int).len() implies s.take(p as int)[j].0 != k by {
                    }
                    lemma_filter_none(s.take(p as int), k);
                    assert(out@.filter(with_cost(k)) =~= seq![x] + s.filter(with_cost(k)));
                } else {
                    assert(out@.filter(with_cost(k)) =~= s.filter(with_cost(k)));
                }
            }
        }
    }
    proof {
        assert(orig.skip(0) =~= orig);
    }
    out
}

/// An entry of a non-empty filter is an entry of the filtered sequence.
proof fn lemma_filter_witness<T>(r: Seq<(Cost, T)>, k: Cost) -> (j: int)
    requires
        r.filter(with_cost(k)).len() > 0,
    ensures
        0 <= j < r.len(),
        r[j].0 == k,
{
    let f = r.filter(with_cost::<T>(k));
    r.lemma_filter_pred(with_cost(k), 0);
    r.lemma_filter_contains_rev(with_cost(k), f[0]);
    choose|j: int| 0 <= j < r.len() && r[j] == f[0]
}

/// Filtering a non-empty sequence: its last entry comes last, when it is
/// kept at all.
proof fn lemma_filter_last<T>(r: Seq<(Cost, T)>, k: Cost)
    requires
        r.len() > 0,
    ensures
        r.filter(with_cost(k)) == if r.last().0 == k {
            r.drop_last().filter(with_cost(k)).push(r.last())
        } else {
            r.drop_last().filter(with_cost(k))
        },
{
    assert(r =~= r.drop_last().push(r.last()));
    r.drop_last().lemma_filter_push(r.last(), with_cost(k));
}

/// Two sequences sorted by cost that hold, for every cost, the same entries
/// of that cost in the same order, are equal.
pub proof fn lemma_sorted_same_order_equal<T>(r1: Seq<(Cost, T)>, r2: Seq<(Cost, T)>)
    requires
        sorted_by_cost(r1),
        sorted_by_cost(r2),
        same_order_per_cost(r1, r2),
    ensures
        r1 == r2,
    decreases r1.len() + r2.len(),
{
    reveal(Seq::filter);
    if r1.len() == 0 && r2.len() == 0 {
        assert(r1 =~= r2);
    } else if r1.len() == 0 {
        let k = r2[0].0;
        r2.lemma_filter_contains(with_cost(k), 0);
        assert(r1.filter(with_cost(k)) == r2.filter(with_cost(k)));
        assert(r1.filter(with_cost(k)).len() == 0);
        assert(false);
    } else if r2.len() == 0 {
        let k = r1[0].0;
        r1.lemma_filter_contains(with_cost(k), 0);
        assert(r1.filter(with_cost(k)) == r2.filter(with_cost(k)));
        assert(r2.filter(with_cost(k)).len() == 0);
        assert(false);
    } else {
        let k1 = r1.last().0;
        let k2 = r2.last().0;
        lemma_filter_last(r1, k1);
        lemma_filter_last(r2, k2);
        assert(r1.filter(with_cost(k1)) == r2.filter(with_cost(k1)));
        assert(r1.filter(with_cost(k2)) == r2.filter(with_cost(k2)));
        let j2 = lemma_filter_witness(r2, k1);
        let j1 = lemma_filter_witness(r1, k2);
        assert(r2[j2].0 <= r2[r2.len() - 1].0);
        assert(r1[j1].0 <= r1[r1.len() - 1].0);
        let k = k1;
        lemma_filter_last(r1, k);
        lemma_filter_last(r2, k);
        let a = r1.drop_last();
        let b = r2.drop_last();
        assert(k1 == k2);
        assert(a.filter(with_cost(k)).push(r1.last()) == b.filter(with_cost(k)).push(r2.last()));
        assert(a.filter(with_cost(k)).push(r1.last()).last() == r1.last());
        assert(b.filter(with_cost(k)).push(r2.last()).last() == r2.last());
        assert(r1.last() == r2.last());
        assert(a.filter(with_cost(k)) =~= a.filter(with_cost(k)).push(r1.last()).drop_last());
        assert(b.filter(with_cost(k)) =~= b.filter(with_cost(k)).push(r2.last()).drop_last());
        assert forall|kk: Cost| #[trigger] a.filter(with_cost(kk)) == b.filter(with_cost(kk)) by {
            lemma_filter_last(r1, kk);
            lemma_filter_last(r2, kk);
            assert(r1.filter(with_cost(kk)) == r2.filter(with_cost(kk)));
        }
        lemma_sorted_same_order_equal(a, b);
        assert(r1 =~= a.push(r1.last()));
        assert(r2 =~= b.push(r2.last()));
    }
}

/// Sorting by cost, keeping entries of equal cost in order, has exactly one
/// result.
pub proof fn law_stable_sort_is_unique<T>(s: Seq<(Cost, T)>, r1: Seq<(Cost, T)>, r2: Seq<(Cost, T)>)
    requires
        is_stable_sort(s, r1),
        is_stable_sort(s, r2),
    ensures
        r1 == r2,
{
    assert forall|k: Cost| #[trigger] r1.filter(with_cost(k)) == r2.filter(with_cost(k)) by {
        assert(r1.filter(with_cost(k)) == s.filter(with_cost(k)));
        assert(r2.filter(with_cost(k)) == s.filter(with_cost(k)));
    }
    lemma_sorted_same_order_equal(r1, r2);
}

} // verus!
