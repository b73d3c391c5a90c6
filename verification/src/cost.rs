use vstd::prelude::*;

verus! {

/// The cost of a term, as computed by an additive cost function.
pub type Cost = u128;

/// The sum of a sequence of integers.
pub open spec fn sum(s: Seq<int>) -> int
    decreases s.len(),
{
    if s.len() == 0 {
        0
    } else {
        sum(s.drop_last()) + s.last()
    }
}

/// The costs of `s`, read as mathematical integers.
pub open spec fn as_ints(s: Seq<Cost>) -> Seq<int> {
    Seq::new(s.len(), |i: int| s[i] as int)
}

/// The additive cost of a node: its own cost plus the costs of its children.
pub open spec fn additive_cost_spec(op_cost: Cost, child_costs: Seq<Cost>) -> int {
    op_cost + sum(as_ints(child_costs))
}

/// Adding a last element adds it to the sum.
pub proof fn lemma_sum_push(s: Seq<int>, x: int)
    ensures
        sum(s.push(x)) == sum(s) + x,
{
    assert(s.push(x).drop_last() =~= s);
}

/// A sum of non-negative integers is at least the sum of any of its prefixes.
pub proof fn lemma_sum_take_le(s: Seq<int>, i: int)
    requires
        0 <= i <= s.len(),
        forall|k: int| 0 <= k < s.len() ==> s[k] >= 0,
    ensures
        sum(s.take(i)) <= sum(s),
    decreases s.len(),
{
    if i < s.len() {
        assert(s.drop_last().take(i) =~= s.take(i));
        lemma_sum_take_le(s.drop_last(), i);
    } else {
        assert(s.take(i) =~= s);
    }
}

/// A sum of non-negative integers is at least any one of them.
pub proof fn lemma_element_le_sum(s: Seq<int>, k: int)
    requires
        0 <= k < s.len(),
        forall|j: int| 0 <= j < s.len() ==> s[j] >= 0,
    ensures
        s[k] <= sum(s),
    decreases s.len(),
{
    if k == s.len() - 1 {
        lemma_sum_nonneg(s.drop_last());
    } else {
        lemma_element_le_sum(s.drop_last(), k);
    }
}

/// A sum of non-negative integers is non-negative.
pub proof fn lemma_sum_nonneg(s: Seq<int>)
    requires
        forall|j: int| 0 <= j < s.len() ==> s[j] >= 0,
    ensures
        sum(s) >= 0,
    decreases s.len(),
{
    if s.len() > 0 {
        lemma_sum_nonneg(s.drop_last());
    }
}

/// The additive cost function: the cost of a node is `op_cost` plus the
/// costs of its children, `child_costs`.
pub fn additive_cost(op_cost: Cost, child_costs: &Vec<Cost>) -> (c: Cost)
    requires
        additive_cost_spec(op_cost, child_costs@) <= Cost::MAX,
    ensures
        c == additive_cost_spec(op_cost, child_costs@),
{
    let ghost s = as_ints(child_costs@);
    let mut acc: Cost = op_cost;
    let n = child_costs.len();
    for i in 0..n
        invariant
            n == child_costs.len(),
            s == as_ints(child_costs@),
            op_cost + sum(s) <= Cost::MAX,
            acc == op_cost + sum(s.take(i as int)),
    {
        proof {
            assert(s.take(i + 1) =~= s.take(i as int).push(s[i as int]));
            lemma_sum_push(s.take(i as int), s[i as int]);
            lemma_sum_take_le(s, i + 1);
        }
        acc = acc + child_costs[i];
    }
    proof {
        assert(s.take(n as int) =~= s);
    }
    acc
}

/// The additive cost of a node, or `None` when it does not fit in a `Cost`.
pub fn checked_additive_cost(op_cost: Cost, child_costs: &Vec<Cost>) -> (r: Option<Cost>)
    ensures
        r is Some <==> additive_cost_spec(op_cost, child_costs@) <= Cost::MAX,
        r matches Some(c) ==> c == additive_cost_spec(op_cost, child_costs@),
{
    let ghost s = as_ints(child_costs@);
    let mut acc: Cost = op_cost;
    let n = child_costs.len();
    for i in 0..n
        invariant
            n == child_costs.len(),
            s == as_ints(child_costs@),
            acc == op_cost + sum(s.take(i as int)),
    {
        proof {
            assert(s.take(i + 1) =~= s.take(i as int).push(s[i as int]));
            lemma_sum_push(s.take(i as int), s[i as int]);
        }
        match acc.checked_add(child_costs[i]) {
            Some(a) => {
                acc = a;
            },
            None => {
                proof {
                    lemma_sum_take_le(s, i + 1);
                }
                return None;
            },
        }
    }
    proof {
        assert(s.take(n as int) =~= s);
    }
    Some(acc)
}

/// One entry of a pattern, in the order in which the pattern lists them:
/// a node, whose children are earlier entries, or a variable, which stands
/// for the class that the match bound it to.
pub enum PatEntry {
    Node { op_cost: Cost, children: Vec<usize> },
    Var { class: usize },
}

/// Each node of the pattern points only to earlier entries, and each
/// variable to a class that has a best cost.
pub open spec fn pattern_wf(pat: Seq<PatEntry>, n_classes: nat) -> bool {
    forall|i: int|
        0 <= i < pat.len() ==> match #[trigger] pat[i] {
            PatEntry::Node { op_cost, children } => forall|k: int|
                0 <= k < children@.len() ==> children@[k] < i,
            PatEntry::Var { class } => class < n_classes,
        }
}

/// The cost of one entry, given the costs of the entries before it: a node
/// costs its own cost plus the costs of its children, a variable the best
/// cost of its class.
pub open spec fn entry_cost(e: PatEntry, done: Seq<int>, best: Seq<Cost>) -> int {
    match e {
        PatEntry::Node { op_cost, children } => op_cost + sum(
            Seq::new(children@.len(), |k: int| done[children@[k] as int]),
        ),
        PatEntry::Var { class } => best[class as int] as int,
    }
}

/// The costs of all entries of a pattern, in order.
pub open spec fn pattern_costs(pat: Seq<PatEntry>, best: Seq<Cost>) -> Seq<int>
    decreases pat.len(),
{
    if pat.len() == 0 {
        Seq::empty()
    } else {
        let done = pattern_costs(pat.drop_last(), best);
        done.push(entry_cost(pat.last(), done, best))
    }
}

/// The costs of a prefix of a pattern are a prefix of its costs.
pub proof fn lemma_pattern_costs_take(pat: Seq<PatEntry>, best: Seq<Cost>, i: int)
    requires
        0 <= i <= pat.len(),
    ensures
        pattern_costs(pat, best).len() == pat.len(),
        pattern_costs(pat.take(i), best) =~= pattern_costs(pat, best).take(i),
    decreases pat.len(),
{
    if pat.len() > 0 {
        lemma_pattern_costs_take(pat.drop_last(), best, pat.len() - 1);
        if i < pat.len() {
            assert(pat.drop_last().take(i) =~= pat.take(i));
            lemma_pattern_costs_take(pat.drop_last(), best, i);
        } else {
            assert(pat.take(i) =~= pat);
        }
    } else {
        assert(pat.take(i) =~= pat);
    }
}

/// The pattern is non-empty, points only backwards and to known e-classes,
/// and none of its entries costs more than a `Cost` holds.
pub open spec fn pat_cost_defined(pat: Seq<PatEntry>, best: Seq<Cost>) -> bool {
    &&& pat.len() > 0
    &&& pattern_wf(pat, best.len())
    &&& forall|i: int| 0 <= i < pat.len() ==> #[trigger] pattern_costs(pat, best)[i] <= Cost::MAX
}

/// Whether the pattern points only backwards and to known e-classes.
fn check_pattern_wf(pat: &Vec<PatEntry>, n_classes: usize) -> (b: bool)
    ensures
        b == pattern_wf(pat@, n_classes as nat),
{
    let n = pat.len();
    for i in 0..n
        invariant
            n == pat.len(),
            pattern_wf(pat@.take(i as int), n_classes as nat),
    {
        match &pat[i] {
            PatEntry::Node { op_cost, children } => {
                for k in 0..children.len()
                    invariant
                        i < n,
                        n == pat.len(),
                        pat@[i as int] == (PatEntry::Node { op_cost: *op_cost, children: *children }),
                        forall|q: int| 0 <= q < k ==> children@[q] < i,
                {
                    if children[k] >= i {
                        proof {
                            assert(!pattern_wf(pat@, n_classes as nat)) by {
                                assert(match pat@[i as int] {
                                    PatEntry::Node { op_cost, children } => !(children@[k as int] < i),
                                    _ => false,
                                });
                            }
                        }
                        return false;
                    }
                }
            },
            PatEntry::Var { class } => {
                if *class >= n_classes {
                    proof {
                        assert(!pattern_wf(pat@, n_classes as nat)) by {
                            assert(match pat@[i as int] {
                                PatEntry::Var { class } => class >= n_classes,
                                _ => false,
                            });
                        }
                    }
                    return false;
                }
            },
        }
        proof {
            assert forall|j: int| 0 <= j < i + 1 implies match #[trigger] pat@.take(i + 1)[j] {
                PatEntry::Node { op_cost, children } => forall|k: int|
                    0 <= k < children@.len() ==> children@[k] < j,
                PatEntry::Var { class } => class < n_classes,
            } by {
                if j < i {
                    assert(pat@.take(i + 1)[j] == pat@.take(i as int)[j]);
                }
            }
        }
    }
    proof {
        assert(pat@.take(n as int) =~= pat@);
    }
    true
}

/// The cost of a pattern instantiated with a match: the cost of its last
/// entry, the root of the pattern. `None` when the pattern is empty, points
/// forwards or to an unknown e-class, or costs more than a `Cost` holds.
pub fn pat_cost(pat: &Vec<PatEntry>, best: &Vec<Cost>) -> (r: Option<Cost>)
    ensures
        r is Some <==> pat_cost_defined(pat@, best@),
        r matches Some(c) ==> c == pattern_costs(pat@, best@).last(),
{
    let n = pat.len();
    if n == 0 {
        return None;
    }
    if !check_pattern_wf(pat, best.len()) {
        return None;
    }
    let ghost all = pattern_costs(pat@, best@);
    proof {
        lemma_pattern_costs_take(pat@, best@, 0);
    }
    let mut vec: Vec<Cost> = Vec::new();
    for i in 0..n
        invariant
            n == pat.len(),
            n > 0,
            pattern_wf(pat@, best.len() as nat),
            all == pattern_costs(pat@, best@),
            all.len() == n,
            vec.len() == i,
            forall|j: int| 0 <= j < i ==> vec@[j] == #[trigger] all[j],
    {
        let ghost done = all.take(i as int);
        proof {
            let pre = pat@.take(i + 1);
            lemma_pattern_costs_take(pat@, best@, i + 1);
            assert(pre.drop_last() =~= pat@.take(i as int));
            lemma_pattern_costs_take(pat@, best@, i as int);
            assert(pre.last() == pat@[i as int]);
            assert(pattern_costs(pre, best@) == pattern_costs(pre.drop_last(), best@).push(
                entry_cost(pre.last(), pattern_costs(pre.drop_last(), best@), best@),
            ));
            assert(all.take(i + 1)[i as int] == all[i as int]);
            assert(all[i as int] == entry_cost(pat@[i as int], done, best@));
        }
        let cost = match &pat[i] {
            PatEntry::Node { op_cost, children } => {
                let m = children.len();
                let mut cc: Vec<Cost> = Vec::new();
                for k in 0..m
                    invariant
                        m == children.len(),
                        vec.len() == i,
                        forall|q: int| 0 <= q < m ==> children@[q] < i,
                        cc.len() == k,
                        forall|q: int| 0 <= q < k ==> cc@[q] == done[children@[q] as int],
                        done == all.take(i as int),
                        i < n,
                        all.len() == n,
                        forall|j: int| 0 <= j < i ==> vec@[j] == #[trigger] all[j],
                {
                    cc.push(vec[children[k]]);
                }
                proof {
                    assert(as_ints(cc@) =~= Seq::new(
                        children@.len(),
                        |k: int| done[children@[k] as int],
                    ));
                }
                match checked_additive_cost(*op_cost, &cc) {
                    Some(c) => c,
                    None => {
                        proof {
                            assert(!(all[i as int] <= Cost::MAX));
                        }
                        return None;
                    },
                }
            },
            PatEntry::Var { class } => best[*class],
        };
        vec.push(cost);
    }
    proof {
        assert forall|i: int| 0 <= i < n implies #[trigger] all[i] <= Cost::MAX by {
            assert(vec@[i] == all[i]);
        }
    }
    Some(vec[n - 1])
}

/// The additive cost of a node without children is its own cost, and each
/// further child, however often it repeats, adds its cost once more.
pub proof fn law_additive_cost_adds_each_child(op_cost: Cost, cs: Seq<Cost>, c: Cost)
    ensures
        additive_cost_spec(op_cost, Seq::empty()) == op_cost,
        additive_cost_spec(op_cost, cs.push(c)) == additive_cost_spec(op_cost, cs) + c,
{
    assert(as_ints(Seq::<Cost>::empty()) =~= Seq::<int>::empty());
    assert(as_ints(cs.push(c)) =~= as_ints(cs).push(c as int));
    lemma_sum_push(as_ints(cs), c as int);
}

/// Appending an entry to a pattern leaves the costs of the entries before
/// it as they were.
pub proof fn law_pattern_costs_keep_prefix(pat: Seq<PatEntry>, best: Seq<Cost>, e: PatEntry)
    ensures
        pattern_costs(pat.push(e), best).len() == pat.len() + 1,
        pattern_costs(pat.push(e), best).drop_last() == pattern_costs(pat, best),
{
    assert(pat.push(e).drop_last() =~= pat);
    lemma_pattern_costs_take(pat, best, pat.len() as int);
    assert(pattern_costs(pat.push(e), best).drop_last() =~= pattern_costs(pat, best));
}

/// A variable costs the best cost of the e-class that the match bound it to.
pub proof fn law_pattern_var_costs_its_class(pat: Seq<PatEntry>, best: Seq<Cost>, class: usize)
    ensures
        pattern_costs(pat.push(PatEntry::Var { class }), best).last() == best[class as int] as int,
{
    assert(pat.push(PatEntry::Var { class }).drop_last() =~= pat);
}

/// A node without children costs its own cost.
pub proof fn law_pattern_leaf_costs_its_op(pat: Seq<PatEntry>, best: Seq<Cost>, op_cost: Cost, children: Vec<usize>)
    requires
        children@.len() == 0,
    ensures
        pattern_costs(pat.push(PatEntry::Node { op_cost, children }), best).last() == op_cost,
{
    let e = PatEntry::Node { op_cost, children };
    assert(pat.push(e).drop_last() =~= pat);
    let done = pattern_costs(pat, best);
    assert(Seq::new(children@.len(), |k: int| done[children@[k] as int]) =~= Seq::<int>::empty());
}

/// Naming one more child of a node, an earlier entry of the pattern (which
/// may be named already), adds the cost of that entry to the node's cost.
pub proof fn law_pattern_node_adds_each_child(
    pat: Seq<PatEntry>,
    best: Seq<Cost>,
    op_cost: Cost,
    fewer: Vec<usize>,
    more: Vec<usize>,
    c: usize,
)
    requires
        more@ == fewer@.push(c),
        c < pat.len(),
    ensures
        pattern_costs(pat.push(PatEntry::Node { op_cost, children: more }), best).last() == pattern_costs(
            pat.push(PatEntry::Node { op_cost, children: fewer }),
            best,
        ).last() + pattern_costs(pat, best)[c as int],
{
    let e1 = PatEntry::Node { op_cost, children: fewer };
    let e2 = PatEntry::Node { op_cost, children: more };
    assert(pat.push(e1).drop_last() =~= pat);
    assert(pat.push(e2).drop_last() =~= pat);
    let done = pattern_costs(pat, best);
    let s1 = Seq::new(fewer@.len(), |k: int| done[fewer@[k] as int]);
    let s2 = Seq::new(more@.len(), |k: int| done[more@[k] as int]);
    assert(s2 =~= s1.push(done[c as int]));
    lemma_sum_push(s1, done[c as int]);
}

/// The empty pattern is well formed; appending a variable of a known
/// e-class, or a node whose children are earlier entries (any of them, in
/// any order, repeated or not), keeps a pattern well formed, and appending
/// anything else does not.
pub proof fn law_pattern_wf_push(pat: Seq<PatEntry>, n_classes: nat, e: PatEntry)
    ensures
        pattern_wf(Seq::empty(), n_classes),
        pattern_wf(pat.push(e), n_classes) <==> pattern_wf(pat, n_classes) && match e {
            PatEntry::Node { op_cost, children } => forall|k: int|
                0 <= k < children@.len() ==> children@[k] < pat.len(),
            PatEntry::Var { class } => class < n_classes,
        },
{
    let q = pat.push(e);
    if pattern_wf(q, n_classes) {
        assert forall|i: int| 0 <= i < pat.len() implies match #[trigger] pat[i] {
            PatEntry::Node { op_cost, children } => forall|k: int|
                0 <= k < children@.len() ==> children@[k] < i,
            PatEntry::Var { class } => class < n_classes,
        } by {
            assert(q[i] == pat[i]);
        }
        assert(q[pat.len() as int] == e);
    }
    if pattern_wf(pat, n_classes) && match e {
        PatEntry::Node { op_cost, children } => forall|k: int|
            0 <= k < children@.len() ==> children@[k] < pat.len(),
        PatEntry::Var { class } => class < n_classes,
    } {
        assert forall|i: int| 0 <= i < q.len() implies match #[trigger] q[i] {
            PatEntry::Node { op_cost, children } => forall|k: int|
                0 <= k < children@.len() ==> children@[k] < i,
            PatEntry::Var { class } => class < n_classes,
        } by {
            if i < pat.len() {
                assert(q[i] == pat[i]);
            }
        }
    }
}

/// A pattern has a cost exactly when it is non-empty, every prefix is well
/// formed, and no entry costs more than a `Cost` holds: appending an entry to
/// a pattern that has a cost (or to the empty pattern) gives one that has a
/// cost exactly when the entry may be appended and its cost fits.
pub proof fn law_pat_cost_defined_push(pat: Seq<PatEntry>, best: Seq<Cost>, e: PatEntry)
    requires
        pat.len() == 0 || pat_cost_defined(pat, best),
    ensures
        pat_cost_defined(pat.push(e), best) <==> pattern_wf(pat.push(e), best.len()) && pattern_costs(
            pat.push(e),
            best,
        ).last() <= Cost::MAX,
{
    law_pattern_costs_keep_prefix(pat, best, e);
    law_pattern_wf_push(pat, best.len(), e);
    let q = pat.push(e);
    let c = pattern_costs(q, best);
    if pattern_wf(q, best.len()) && c.last() <= Cost::MAX {
        assert forall|i: int| 0 <= i < q.len() implies #[trigger] c[i] <= Cost::MAX by {
            if i < pat.len() {
                assert(c[i] == c.drop_last()[i]);
            }
        }
    }
    if pat_cost_defined(q, best) {
        assert(c[q.len() - 1] <= Cost::MAX);
    }
}

} // verus!
