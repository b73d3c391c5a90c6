use vstd::prelude::*;
use vstd::multiset::Multiset;

use crate::cost::Cost;

verus! {

broadcast use vstd::seq_lib::group_to_multiset_ensures;

/// A priority queue that hands out the entry with the smallest key first.
///
/// Entries with equal keys may come out in any order.
pub struct MinPrioQueue<T> {
    /// A binary heap: every slot holds an entry, and no entry has a smaller
    /// key than its parent's.
    slots: Vec<Option<(Cost, T)>>,
}

/// The position of the parent of position `i` in a binary heap.
pub open spec fn parent(i: int) -> int {
    (i - 1) / 2
}

/// The entries of the slots, in order.
pub open spec fn entries<T>(s: Seq<Option<(Cost, T)>>) -> Seq<(Cost, T)> {
    Seq::new(s.len(), |i: int| s[i]->0)
}

/// Every slot holds an entry.
pub open spec fn all_full<T>(s: Seq<Option<(Cost, T)>>) -> bool {
    forall|i: int| 0 <= i < s.len() ==> #[trigger] s[i] is Some
}

/// No entry has a smaller key than its parent's, but, maybe, the one at
/// `hole_child` (when it is not `-1`) and the children of `hole_parent`
/// (when it is not `-1`).
pub open spec fn heap_except<T>(s: Seq<(Cost, T)>, hole_child: int, hole_parent: int) -> bool {
    forall|i: int|
        0 < i < s.len() && i != hole_child && parent(i) != hole_parent ==> s[parent(i)].0 <= #[trigger] s[i].0
}

pub open spec fn is_heap<T>(s: Seq<(Cost, T)>) -> bool {
    heap_except(s, -1, -1)
}

impl<T> View for MinPrioQueue<T> {
    type V = Multiset<(Cost, T)>;

    closed spec fn view(&self) -> Multiset<(Cost, T)> {
        entries(self.slots@).to_multiset()
    }
}

/// In a binary heap, no entry has a smaller key than the first one.
proof fn lemma_first_is_least<T>(s: Seq<(Cost, T)>, i: int)
    requires
        is_heap(s),
        0 <= i < s.len(),
    ensures
        s[0].0 <= s[i].0,
    decreases i,
{
    if i > 0 {
        lemma_first_is_least(s, parent(i));
        assert(s[parent(i)].0 <= s[i].0);
    }
}

/// Exchanging two entries keeps the same multiset of entries.
proof fn lemma_swap_multiset<T>(s: Seq<(Cost, T)>, i: int, j: int)
    requires
        0 <= i < s.len(),
        0 <= j < s.len(),
    ensures
        s.update(i, s[j]).update(j, s[i]).to_multiset() == s.to_multiset(),
{
    let t = s.update(i, s[j]);
    vstd::seq_lib::to_multiset_update(s, i, s[j]);
    vstd::seq_lib::to_multiset_update(t, j, s[i]);
    if i == j {
        assert(t.update(j, s[i]) =~= s);
    } else {
        assert(t[j] == s[j]);
        assert(t.update(j, s[i]).to_multiset() =~= s.to_multiset());
    }
}

/// The key of the entry in slot `i`.
fn key_at<T>(v: &Vec<Option<(Cost, T)>>, i: usize) -> (k: Cost)
    requires
        i < v.len(),
        v@[i as int] is Some,
    ensures
        k == (v@[i as int]->0).0,
{
    match &v[i] {
        Some(e) => e.0,
        None => 0,
    }
}

/// Exchanges the entries in slots `i` and `j`.
fn swap_slots<T>(v: &mut Vec<Option<(Cost, T)>>, i: usize, j: usize)
    requires
        i < old(v).len(),
        j < old(v).len(),
        i != j,
        all_full(old(v)@),
    ensures
        final(v)@.len() == old(v)@.len(),
        all_full(final(v)@),
        entries(final(v)@) == entries(old(v)@).update(i as int, entries(old(v)@)[j as int]).update(
            j as int,
            entries(old(v)@)[i as int],
        ),
        entries(final(v)@).to_multiset() == entries(old(v)@).to_multiset(),
{
    let ghost v0 = v@;
    let ghost s = entries(v@);
    let mut hand: Option<(Cost, T)> = None;
    v.set_and_swap(i, &mut hand);
    assert(hand == v0[i as int]);
    v.set_and_swap(j, &mut hand);
    assert(hand == v0[j as int]);
    v.set_and_swap(i, &mut hand);
    proof {
        let v3 = v0.update(i as int, v0[j as int]).update(j as int, v0[i as int]);
        assert(v@ =~= v3);
        assert forall|k: int| 0 <= k < v@.len() implies #[trigger] v@[k] is Some by {
            assert(v0[k] is Some);
        }
        assert(entries(v@) =~= s.update(i as int, s[j as int]).update(j as int, s[i as int]));
        lemma_swap_multiset(s, i as int, j as int);
    }
}

impl<T> MinPrioQueue<T> {
    #[verifier::type_invariant]
    spec fn heap_ordered(&self) -> bool {
        &&& all_full(self.slots@)
        &&& is_heap(entries(self.slots@))
    }

    /// An empty queue.
    pub fn new() -> (q: Self)
        ensures
            q@ =~= Multiset::<(Cost, T)>::empty(),
    {
        let q = MinPrioQueue { slots: Vec::new() };
        proof {
            assert(entries(q.slots@) =~= Seq::<(Cost, T)>::empty());
            vstd::seq_lib::to_multiset_len(entries(q.slots@));
            vstd::multiset::lemma_multiset_empty_len(entries(q.slots@).to_multiset());
        }
        q
    }

    /// Adds the entry `(u, t)`.
    pub fn push(&mut self, u: Cost, t: T)
        ensures
            final(self)@ =~= old(self)@.insert((u, t)),
    {
        proof {
            use_type_invariant(&*self);
        }
        let mut v: Vec<Option<(Cost, T)>> = Vec::new();
        std::mem::swap(&mut v, &mut self.slots);
        let ghost goal = entries(v@).to_multiset().insert((u, t));
        let ghost before = v@;
        v.push(Some((u, t)));
        proof {
            assert(entries(v@) =~= entries(before).push((u, t)));
        }
        let mut k: usize = v.len() - 1;
        // Sift the new entry up until its parent's key is not larger.
        while k > 0
            invariant
                0 <= k < v.len(),
                all_full(v@),
                entries(v@).to_multiset() == goal,
                heap_except(entries(v@), k as int, -1),
                k > 0 ==> forall|c: int|
                    0 < c < v.len() && parent(c) == k ==> entries(v@)[parent(k as int)].0 <= #[trigger] entries(
                        v@,
                    )[c].0,
            ensures
                all_full(v@),
                entries(v@).to_multiset() == goal,
                is_heap(entries(v@)),
            decreases k,
        {
            let p = (k - 1) / 2;
            if key_at(&v, p) <= key_at(&v, k) {
                proof {
                    let s = entries(v@);
                    assert forall|i: int| 0 < i < s.len() && i != -1 && parent(i) != -1 implies s[parent(i)].0
                        <= #[trigger] s[i].0 by {
                        if i != k as int {
                            assert(heap_except(s, k as int, -1));
                        }
                    }
                }
                break;
            }
            let ghost s = entries(v@);
            swap_slots(&mut v, p, k);
            proof {
                let s2 = entries(v@);
                assert forall|i: int| 0 < i < s2.len() && i != p as int && parent(i) != -1 implies s2[parent(
                    i,
                )].0 <= #[trigger] s2[i].0 by {
                    if i == k {
                    } else if parent(i) == p as int {
                        assert(s[parent(i)].0 <= s[i].0);
                    } else if parent(i) == k as int {
                        assert(s[parent(k as int)].0 <= s[i].0);
                    } else if i == p as int {
                    } else {
                        assert(s[parent(i)].0 <= s[i].0);
                    }
                }
                if p > 0 {
                    assert forall|c: int| 0 < c < s2.len() && parent(c) == p implies s2[parent(p as int)].0
                        <= #[trigger] s2[c].0 by {
                        assert(s[parent(p as int)].0 <= s[p as int].0);
                        if c != k as int {
                            assert(s[p as int].0 <= s[c].0);
                        }
                    }
                }
            }
            k = p;
        }
        proof {
            assert(is_heap(entries(v@)));
        }
        self.slots = v;
    }

    /// Removes and returns an entry of the smallest key, or `None` when the
    /// queue is empty.
    #[verifier::rlimit(30)]
    pub fn pop(&mut self) -> (r: Option<(Cost, T)>)
        ensures
            r is None <==> old(self)@.len() == 0,
            r is None ==> final(self)@ =~= old(self)@,
            r matches Some(e) ==> {
                &&& old(self)@.count(e) > 0
                &&& final(self)@ =~= old(self)@.remove(e)
                &&& forall|x: (Cost, T)| old(self)@.count(x) > 0 ==> e.0 <= x.0
            },
    {
        proof {
            use_type_invariant(&*self);
        }
        let mut v: Vec<Option<(Cost, T)>> = Vec::new();
        std::mem::swap(&mut v, &mut self.slots);
        let ghost s0 = entries(v@);
        let n = v.len();
        if n == 0 {
            proof {
                vstd::seq_lib::to_multiset_len(s0);
            }
            self.slots = v;
            return None;
        }
        proof {
            assert forall|x: (Cost, T)| s0.to_multiset().count(x) > 0 implies s0[0].0 <= x.0 by {
                assert(s0.contains(x));
                let j = choose|j: int| 0 <= j < s0.len() && s0[j] == x;
                lemma_first_is_least(s0, j);
            }
            assert(s0.contains(s0[0]));
        }
        if n > 1 {
            swap_slots(&mut v, 0, n - 1);
        }
        let ghost s1 = entries(v@);
        let top = v.pop();
        proof {
            assert(entries(v@) =~= s1.drop_last());
            assert(s1.drop_last() =~= s1.remove(n - 1));
            assert(s1[n - 1] == s0[0]);
            assert(s1.to_multiset() == s0.to_multiset());
            if n > 1 {
                let s = entries(v@);
                assert forall|i: int| 0 < i < s.len() && parent(i) != 0 implies s[parent(i)].0 <= #[trigger] s[i].0 by {
                    assert(s[i] == s0[i]);
                    assert(s[parent(i)] == s0[parent(i)]);
                }
            }
        }
        let ghost goal = s0.to_multiset().remove(s0[0]);
        let len = v.len();
        let mut k: usize = 0;
        // Sift the entry that took the first slot down until no child has a
        // smaller key.
        loop
            invariant
                len == v.len(),
                0 <= k < len || len == 0,
                all_full(v@),
                entries(v@).to_multiset() == goal,
                heap_except(entries(v@), -1, k as int),
                k > 0 ==> forall|c: int|
                    0 < c < len && parent(c) == k ==> entries(v@)[parent(k as int)].0 <= #[trigger] entries(
                        v@,
                    )[c].0,
            ensures
                all_full(v@),
                entries(v@).to_multiset() == goal,
                is_heap(entries(v@)),
            decreases len - k,
        {
            if k >= len / 2 {
                proof {
                    assert forall|i: int| 0 < i < len implies entries(v@)[parent(i)].0 <= #[trigger] entries(
                        v@,
                    )[i].0 by {
                        assert(parent(i) != k as int);
                    }
                }
                break;
            }
            let l = 2 * k + 1;
            let r = l + 1;
            let c = if r < len && key_at(&v, r) < key_at(&v, l) {
                r
            } else {
                l
            };
            if key_at(&v, k) <= key_at(&v, c) {
                proof {
                    let s = entries(v@);
                    assert forall|i: int| 0 < i < len implies s[parent(i)].0 <= #[trigger] s[i].0 by {
                        if parent(i) == k as int {
                            assert(i == l || i == r);
                        }
                    }
                }
                break;
            }
            let ghost s = entries(v@);
            swap_slots(&mut v, k, c);
            proof {
                let s2 = entries(v@);
                assert(parent(c as int) == k as int);
                assert forall|i: int| 0 < i < len && parent(i) != c as int implies s2[parent(i)].0
                    <= #[trigger] s2[i].0 by {
                    if i == c as int {
                    } else if parent(i) == k as int {
                        assert(i == l || i == r);
                    } else if i == k as int {
                        assert(s[parent(k as int)].0 <= s[c as int].0);
                    } else {
                        assert(s[parent(i)].0 <= s[i].0);
                    }
                }
                assert forall|j: int| 0 < j < len && parent(j) == c implies s2[parent(c as int)].0 <= #[trigger] s2[
                    j].0 by {
                    assert(s[parent(j)].0 <= s[j].0);
                }
            }
            k = c;
        }
        proof {
            assert(is_heap(entries(v@)));
        }
        self.slots = v;
        top.unwrap()
    }
}

/// Two pops in a row, with no push between them, give keys that do not
/// decrease: the first pop takes an entry of least key, the second one an
/// entry of what is left.
pub proof fn law_pops_do_not_decrease<T>(m: Multiset<(Cost, T)>, first: (Cost, T), second: (Cost, T))
    requires
        m.count(first) > 0,
        forall|x: (Cost, T)| m.count(x) > 0 ==> first.0 <= x.0,
        m.remove(first).count(second) > 0,
    ensures
        first.0 <= second.0,
{
    assert(m.count(second) > 0);
}

/// An entry pushed onto a queue whose keys are all larger is the entry that
/// the next pop may give back, and after it the queue holds what it held
/// before the push.
pub proof fn law_push_then_pop<T>(m: Multiset<(Cost, T)>, e: (Cost, T))
    requires
        forall|x: (Cost, T)| m.count(x) > 0 ==> e.0 < x.0,
    ensures
        forall|r: (Cost, T)|
            m.insert(e).count(r) > 0 && (forall|x: (Cost, T)| m.insert(e).count(x) > 0 ==> r.0 <= x.0)
                ==> r == e,
        m.insert(e).remove(e) =~= m,
{
    assert forall|r: (Cost, T)|
        m.insert(e).count(r) > 0 && (forall|x: (Cost, T)| m.insert(e).count(x) > 0 ==> r.0 <= x.0) implies r
        == e by {
        assert(m.insert(e).count(e) > 0);
        if r != e {
            assert(m.count(r) > 0);
        }
    }
}

/// `ys` is what popping a queue that holds `m` until it is empty hands out,
/// in order: each entry has the least key of what is left, and is removed.
pub open spec fn is_drain<T>(m: Multiset<(Cost, T)>, ys: Seq<(Cost, T)>) -> bool
    decreases ys.len(),
{
    if ys.len() == 0 {
        m.len() == 0
    } else {
        &&& m.count(ys[0]) > 0
        &&& forall|x: (Cost, T)| m.count(x) > 0 ==> ys[0].0 <= x.0
        &&& is_drain(m.remove(ys[0]), ys.drop_first())
    }
}

/// Popping a queue until it is empty hands out every entry that was pushed
/// onto it and not yet popped, each exactly once, by keys that never
/// decrease.
pub proof fn law_drain_is_sorted_permutation<T>(m: Multiset<(Cost, T)>, ys: Seq<(Cost, T)>)
    requires
        is_drain(m, ys),
    ensures
        ys.to_multiset() =~= m,
        ys.len() == m.len(),
        forall|i: int, j: int| 0 <= i <= j < ys.len() ==> ys[i].0 <= ys[j].0,
    decreases ys.len(),
{
    if ys.len() == 0 {
        vstd::multiset::lemma_multiset_empty_len(m);
        vstd::seq_lib::to_multiset_len(ys);
        vstd::multiset::lemma_multiset_empty_len(ys.to_multiset());
    } else {
        let y = ys[0];
        let rest = ys.drop_first();
        law_drain_is_sorted_permutation(m.remove(y), rest);
        assert(ys =~= rest.insert(0, y));
        vstd::seq_lib::to_multiset_insert(rest, 0, y);
        assert(m.remove(y).insert(y) =~= m);
        vstd::seq_lib::to_multiset_len(ys);
        assert forall|i: int, j: int| 0 <= i <= j < ys.len() implies ys[i].0 <= ys[j].0 by {
            if i == 0 {
                if j > 0 {
                    assert(rest.to_multiset().count(ys[j]) > 0) by {
                        assert(rest[j - 1] == ys[j]);
                        assert(rest.contains(ys[j]));
                    }
                    assert(m.count(ys[j]) > 0);
                }
            } else {
                assert(ys[i] == rest[i - 1] && ys[j] == rest[j - 1]);
            }
        }
    }
}

} // verus!
