use vstd::prelude::*;
use vstd::multiset::Multiset;

use crate::cost::{Cost, additive_cost_spec, as_ints, checked_additive_cost, lemma_element_le_sum};
use crate::min_prio_queue::MinPrioQueue;

verus! {

/// One e-node of an e-class, as the context-cost search reads it: the cost of
/// its operator and the e-classes of its children.
pub struct ENodeCosts {
    pub op_cost: Cost,
    pub children: Vec<usize>,
}

/// An e-graph, as the context-cost search reads it: the e-nodes of each
/// e-class (an e-class is an index into `classes`), and the cost of the best
/// term of each e-class.
pub struct CostGraph {
    pub classes: Vec<Vec<ENodeCosts>>,
    pub best: Vec<Cost>,
}

/// A step of a walk through the e-graph: from the e-class `s.0`, through its
/// e-node `s.1`, down to the child at position `s.2` of that e-node.
pub type Step = (int, int, int);

impl CostGraph {
    pub open spec fn num_classes(&self) -> int {
        self.classes@.len() as int
    }

    pub open spec fn node(&self, u: int, j: int) -> ENodeCosts {
        self.classes@[u]@[j]
    }

    pub open spec fn is_node(&self, u: int, j: int) -> bool {
        0 <= u < self.num_classes() && 0 <= j < self.classes@[u]@.len()
    }

    /// The best costs of the children of e-node `j` of e-class `u`.
    pub open spec fn child_costs(&self, u: int, j: int) -> Seq<Cost> {
        let ch = self.node(u, j).children@;
        Seq::new(ch.len(), |p: int| self.best@[ch[p] as int])
    }

    /// The additive cost of e-node `j` of e-class `u`: its operator cost plus
    /// the best costs of its children.
    pub open spec fn node_cost(&self, u: int, j: int) -> int {
        additive_cost_spec(self.node(u, j).op_cost, self.child_costs(u, j))
    }

    /// Every child is an e-class of the graph, and every e-class has a best
    /// cost.
    pub open spec fn wf(&self) -> bool {
        &&& self.best@.len() == self.num_classes()
        &&& forall|s: Step| #[trigger] self.step_ok(s) ==> 0 <= self.target(s) < self.num_classes()
    }

    pub open spec fn step_ok(&self, s: Step) -> bool {
        &&& self.is_node(s.0, s.1)
        &&& 0 <= s.2 < self.node(s.0, s.1).children@.len()
    }

    /// The e-class that a step leads to.
    pub open spec fn target(&self, s: Step) -> int {
        self.node(s.0, s.1).children@[s.2] as int
    }

    /// What a step adds to the cost of the context: the cost of the e-node
    /// it passes through, less the cost of the child it leads to.
    pub open spec fn weight(&self, s: Step) -> int {
        self.node_cost(s.0, s.1) - self.best@[self.target(s)]
    }

    /// `steps` is a walk that begins at the root `start`.
    pub open spec fn is_walk(&self, roots: Seq<usize>, start: usize, steps: Seq<Step>) -> bool {
        &&& roots.contains(start)
        &&& forall|i: int| 0 <= i < steps.len() ==> #[trigger] self.step_ok(steps[i])
        &&& steps.len() > 0 ==> steps[0].0 == start
        &&& forall|i: int| 0 <= i < steps.len() - 1 ==> steps[i + 1].0 == #[trigger] self.target(steps[i])
    }

    /// The e-class at which a walk ends.
    pub open spec fn walk_end(&self, start: usize, steps: Seq<Step>) -> int {
        if steps.len() == 0 {
            start as int
        } else {
            self.target(steps.last())
        }
    }

    /// The cost of the context that a walk describes.
    pub open spec fn walk_cost(&self, steps: Seq<Step>) -> int
        decreases steps.len(),
    {
        if steps.len() == 0 {
            0
        } else {
            self.walk_cost(steps.drop_last()) + self.weight(steps.last())
        }
    }

    /// Some walk from a root ends at `c` and costs `k`.
    pub open spec fn walk_reaches(&self, roots: Seq<usize>, c: int, k: int) -> bool {
        exists|start: usize, steps: Seq<Step>|
            #[trigger] self.is_walk(roots, start, steps) && self.walk_end(start, steps) == c
                && self.walk_cost(steps) == k
    }

    /// Every walk from a root that ends at `c` costs at least `k`.
    pub open spec fn walks_cost_at_least(&self, roots: Seq<usize>, c: int, k: int) -> bool {
        forall|start: usize, steps: Seq<Step>|
            #[trigger] self.is_walk(roots, start, steps) && self.walk_end(start, steps) == c
                ==> self.walk_cost(steps) >= k
    }

    /// Some walk from a root ends at `c`.
    pub open spec fn reachable(&self, roots: Seq<usize>, c: int) -> bool {
        exists|start: usize, steps: Seq<Step>|
            #[trigger] self.is_walk(roots, start, steps) && self.walk_end(start, steps) == c
    }

    /// `k` is the context cost of `c`: the cost of the cheapest walk from a
    /// root to `c`.
    pub open spec fn is_context_cost(&self, roots: Seq<usize>, c: int, k: int) -> bool {
        self.walk_reaches(roots, c, k) && self.walks_cost_at_least(roots, c, k)
    }
}

/// Adding the cost of any e-node of a reachable e-class to the context cost
/// of that e-class stays within `Cost`: the search of context costs never
/// overflows.
pub open spec fn overflow_free(g: &CostGraph, roots: Seq<usize>) -> bool {
    forall|c: int, k: int, j: int|
        #[trigger] g.is_context_cost(roots, c, k) && #[trigger] g.is_node(c, j) ==> k + g.node_cost(c, j) <= Cost::MAX
}

/// A step costs at least nothing and at most the cost of its e-node.
pub proof fn lemma_weight_bounds(g: &CostGraph, s: Step)
    requires
        g.wf(),
        g.step_ok(s),
    ensures
        0 <= g.weight(s) <= g.node_cost(s.0, s.1),
{
    let cs = as_ints(g.child_costs(s.0, s.1));
    assert(cs[s.2] == g.best@[g.target(s)]);
    lemma_element_le_sum(cs, s.2);
    assert(g.is_node(s.0, s.1));
}

/// The walk without its last step is a walk that ends where the last step
/// begins.
pub proof fn lemma_walk_prefix(g: &CostGraph, roots: Seq<usize>, start: usize, steps: Seq<Step>)
    requires
        g.is_walk(roots, start, steps),
        steps.len() > 0,
    ensures
        g.is_walk(roots, start, steps.drop_last()),
        g.walk_end(start, steps.drop_last()) == steps.last().0,
        g.step_ok(steps.last()),
{
    let p = steps.drop_last();
    assert forall|i: int| 0 <= i < p.len() implies #[trigger] g.step_ok(p[i]) by {
        assert(g.step_ok(steps[i]));
    }
    assert forall|i: int| 0 <= i < p.len() - 1 implies p[i + 1].0 == #[trigger] g.target(p[i]) by {
        assert(steps[i + 1].0 == g.target(steps[i]));
    }
    if p.len() > 0 {
        assert(steps[p.len() as int].0 == g.target(steps[p.len() - 1]));
    }
    assert(g.step_ok(steps[steps.len() - 1]));
}

/// A walk can go on by any step out of the e-class where it ends.
pub proof fn lemma_walk_extend(g: &CostGraph, roots: Seq<usize>, start: usize, steps: Seq<Step>, s: Step)
    requires
        g.is_walk(roots, start, steps),
        g.step_ok(s),
        s.0 == g.walk_end(start, steps),
    ensures
        g.is_walk(roots, start, steps.push(s)),
        g.walk_end(start, steps.push(s)) == g.target(s),
        g.walk_cost(steps.push(s)) == g.walk_cost(steps) + g.weight(s),
{
    let w = steps.push(s);
    assert(w.drop_last() =~= steps);
    assert forall|i: int| 0 <= i < w.len() implies #[trigger] g.step_ok(w[i]) by {
        if i < steps.len() {
            assert(g.step_ok(steps[i]));
        }
    }
    assert forall|i: int| 0 <= i < w.len() - 1 implies w[i + 1].0 == #[trigger] g.target(w[i]) by {
        if i < steps.len() - 1 {
            assert(steps[i + 1].0 == g.target(steps[i]));
        }
    }
}

/// The e-classes that have been given a context cost.
pub open spec fn settled(r: Seq<Option<Cost>>) -> Set<int> {
    Set::new(|c: int| 0 <= c < r.len() && r[c] is Some)
}

/// Every root has a context cost or waits in the queue with cost 0.
pub open spec fn roots_covered(roots: Seq<usize>, r: Seq<Option<Cost>>, q: Multiset<(Cost, usize)>) -> bool {
    forall|i: int|
        0 <= i < roots.len() ==> r[roots[i] as int] is Some || q.count((0, #[trigger] roots[i])) > 0
}

/// Every step out of an e-class that has a context cost leads to an e-class
/// that has one too, or waits in the queue with the cost of the step added.
pub open spec fn steps_covered(g: &CostGraph, r: Seq<Option<Cost>>, q: Multiset<(Cost, usize)>) -> bool {
    forall|s: Step|
        #[trigger] g.step_ok(s) && r[s.0] is Some ==> r[g.target(s)] is Some || q.count(
            ((r[s.0]->0 + g.weight(s)) as Cost, g.target(s) as usize),
        ) > 0
}

/// Every settled cost is a lower bound of the walks to its e-class.
pub open spec fn settled_are_lower_bounds(g: &CostGraph, roots: Seq<usize>, r: Seq<Option<Cost>>) -> bool {
    forall|c: int| 0 <= c < r.len() && #[trigger] r[c] is Some ==> g.walks_cost_at_least(roots, c, r[c]->0 as int)
}

/// While the search runs, the cheapest entry of the queue that leads to an
/// unsettled e-class bounds every walk to an unsettled e-class from below.
pub proof fn lemma_unsettled_cost_at_least(
    g: &CostGraph,
    roots: Seq<usize>,
    r: Seq<Option<Cost>>,
    q: Multiset<(Cost, usize)>,
    k: int,
    start: usize,
    steps: Seq<Step>,
)
    requires
        g.wf(),
        r.len() == g.num_classes(),
        forall|i: int| 0 <= i < roots.len() ==> roots[i] < g.num_classes(),
        settled_are_lower_bounds(g, roots, r),
        roots_covered(roots, r, q),
        steps_covered(g, r, q),
        forall|e: (Cost, usize)| q.count(e) > 0 ==> k <= e.0,
        g.is_walk(roots, start, steps),
        r[g.walk_end(start, steps)] is None,
    ensures
        g.walk_cost(steps) >= k,
    decreases steps.len(),
{
    if steps.len() == 0 {
        let i = choose|i: int| 0 <= i < roots.len() && roots[i] == start;
        assert(q.count((0, roots[i])) > 0);
    } else {
        let p = steps.drop_last();
        let s = steps.last();
        lemma_walk_prefix(g, roots, start, steps);
        lemma_weight_bounds(g, s);
        if r[s.0] is Some {
            assert(g.is_walk(roots, start, p));
            assert(0 <= s.0 < r.len());
            assert(g.walk_cost(p) >= r[s.0]->0);
            assert(q.count(((r[s.0]->0 + g.weight(s)) as Cost, g.target(s) as usize)) > 0);
        } else {
            lemma_unsettled_cost_at_least(g, roots, r, q, k, start, p);
        }
    }
}

/// Once the queue is empty, every walk ends at a settled e-class.
pub proof fn lemma_walks_end_settled(
    g: &CostGraph,
    roots: Seq<usize>,
    r: Seq<Option<Cost>>,
    q: Multiset<(Cost, usize)>,
    start: usize,
    steps: Seq<Step>,
)
    requires
        g.wf(),
        r.len() == g.num_classes(),
        q.len() == 0,
        roots_covered(roots, r, q),
        steps_covered(g, r, q),
        g.is_walk(roots, start, steps),
    ensures
        r[g.walk_end(start, steps)] is Some,
    decreases steps.len(),
{
    vstd::multiset::lemma_multiset_empty_len(q);
    if steps.len() == 0 {
        let i = choose|i: int| 0 <= i < roots.len() && roots[i] == start;
        assert(q.count((0, roots[i])) == 0);
    } else {
        let p = steps.drop_last();
        let s = steps.last();
        lemma_walk_prefix(g, roots, start, steps);
        lemma_walks_end_settled(g, roots, r, q, start, p);
        assert(q.count(((r[s.0]->0 + g.weight(s)) as Cost, g.target(s) as usize)) == 0);
    }
}

/// The additive cost of e-node `j` of e-class `u` (its operator cost plus
/// the best costs of its children), or `None` when it does not fit in a
/// `Cost`.
pub fn node_cost(g: &CostGraph, u: usize, j: usize) -> (c: Option<Cost>)
    requires
        g.wf(),
        g.is_node(u as int, j as int),
    ensures
        c is Some <==> g.node_cost(u as int, j as int) <= Cost::MAX,
        c matches Some(x) ==> x == g.node_cost(u as int, j as int),
{
    let node = &g.classes[u][j];
    let m = node.children.len();
    let mut cc: Vec<Cost> = Vec::new();
    for p in 0..m
        invariant
            g.wf(),
            g.is_node(u as int, j as int),
            node == g.node(u as int, j as int),
            m == node.children.len(),
            cc.len() == p,
            forall|q: int| 0 <= q < p ==> cc@[q] == #[trigger] g.child_costs(u as int, j as int)[q],
    {
        assert(g.step_ok((u as int, j as int, p as int)));
        cc.push(g.best[node.children[p]]);
    }
    proof {
        assert(cc@ =~= g.child_costs(u as int, j as int));
    }
    checked_additive_cost(node.op_cost, &cc)
}

/// Whether the graph is well formed: every child is an e-class of the
/// graph, and every e-class has a best cost.
pub fn check_graph(g: &CostGraph) -> (b: bool)
    ensures
        b == g.wf(),
{
    let n = g.classes.len();
    if g.best.len() != n {
        return false;
    }
    for u in 0..n
        invariant
            n == g.num_classes(),
            forall|s: Step| #[trigger] g.step_ok(s) && s.0 < u ==> 0 <= g.target(s) < n,
    {
        let m = g.classes[u].len();
        for j in 0..m
            invariant
                n == g.num_classes(),
                0 <= u < n,
                m == g.classes@[u as int]@.len(),
                forall|s: Step| #[trigger] g.step_ok(s) && (s.0 < u || (s.0 == u && s.1 < j)) ==> 0 <= g.target(s) < n,
        {
            let node = &g.classes[u][j];
            let k = node.children.len();
            for p in 0..k
                invariant
                    n == g.num_classes(),
                    0 <= u < n,
                    0 <= j < m,
                    m == g.classes@[u as int]@.len(),
                    node == g.node(u as int, j as int),
                    k == node.children.len(),
                    forall|q: int| 0 <= q < p ==> node.children@[q] < n,
            {
                if node.children[p] >= n {
                    proof {
                        let s: Step = (u as int, j as int, p as int);
                        assert(g.step_ok(s) && !(g.target(s) < n));
                    }
                    return false;
                }
            }
            proof {
                assert forall|s: Step| #[trigger] g.step_ok(s) && (s.0 < u || (s.0 == u && s.1 < j + 1)) implies 0
                    <= g.target(s) < n by {
                    if s.0 == u && s.1 == j {
                        assert(node.children@[s.2] < n);
                    }
                }
            }
        }
    }
    true
}

/// The e-classes marked in `r`.
pub open spec fn marked(r: Seq<bool>) -> Set<int> {
    Set::new(|c: int| 0 <= c < r.len() && r[c])
}

/// Once every step out of a marked e-class leads to a marked e-class and
/// every root is marked, every walk ends at a marked e-class.
proof fn lemma_walks_end_marked(g: &CostGraph, roots: Seq<usize>, r: Seq<bool>, start: usize, steps: Seq<Step>)
    requires
        g.wf(),
        r.len() == g.num_classes(),
        forall|i: int| 0 <= i < roots.len() ==> r[#[trigger] roots[i] as int],
        forall|s: Step| #[trigger] g.step_ok(s) && r[s.0] ==> r[g.target(s)],
        g.is_walk(roots, start, steps),
    ensures
        r[g.walk_end(start, steps)],
    decreases steps.len(),
{
    if steps.len() == 0 {
        let i = choose|i: int| 0 <= i < roots.len() && roots[i] == start;
        assert(r[roots[i] as int]);
    } else {
        lemma_walk_prefix(g, roots, start, steps);
        lemma_walks_end_marked(g, roots, r, start, steps.drop_last());
        assert(g.step_ok(steps.last()));
    }
}

/// Which e-classes a root reaches.
pub fn reachable_classes(g: &CostGraph, roots: &Vec<usize>) -> (r: Vec<bool>)
    requires
        g.wf(),
        forall|i: int| 0 <= i < roots.len() ==> roots[i] < g.num_classes(),
    ensures
        r.len() == g.num_classes(),
        forall|c: int| 0 <= c < g.num_classes() ==> #[trigger] r@[c] == g.reachable(roots@, c),
{
    let n = g.classes.len();
    let mut seen: Vec<bool> = Vec::new();
    for c in 0..n
        invariant
            seen.len() == c,
            forall|k: int| 0 <= k < c ==> !seen@[k],
    {
        seen.push(false);
    }
    proof {
        assert(marked(seen@) =~= Set::empty());
    }
    let ghost mut nseen: int = 0;
    let mut stack: Vec<usize> = Vec::new();
    for i in 0..roots.len()
        invariant
            n == g.num_classes(),
            seen.len() == n,
            forall|i: int| 0 <= i < roots.len() ==> roots[i] < g.num_classes(),
            forall|ii: int| 0 <= ii < i ==> seen@[#[trigger] roots@[ii] as int],
            forall|c: int| 0 <= c < n && #[trigger] seen@[c] ==> g.reachable(roots@, c),
            forall|k: int| 0 <= k < stack.len() ==> stack@[k] < n && seen@[#[trigger] stack@[k] as int],
            forall|c: int| 0 <= c < n && #[trigger] seen@[c] ==> stack@.contains(c as usize),
            marked(seen@).finite(),
            marked(seen@).len() == nseen,
            0 <= nseen <= n,
    {
        let c = roots[i];
        if !seen[c] {
            let ghost before = seen@;
            let ghost stack0 = stack@;
            proof {
                assert(g.is_walk(roots@, c, Seq::empty()));
                assert(g.walk_end(c, Seq::<Step>::empty()) == c);
            }
            seen.set(c, true);
            stack.push(c);
            proof {
                assert(marked(seen@) =~= marked(before).insert(c as int));
                assert(marked(seen@).subset_of(vstd::set_lib::set_int_range(0, n as int)));
                vstd::set_lib::lemma_int_range(0, n as int);
                vstd::set_lib::lemma_len_subset(marked(seen@), vstd::set_lib::set_int_range(0, n as int));
                nseen = nseen + 1;
                assert forall|ii: int| 0 <= ii < i + 1 implies seen@[#[trigger] roots@[ii] as int] by {
                    if ii < i {
                        assert(before[roots@[ii] as int]);
                    }
                }
                assert forall|k: int| 0 <= k < stack.len() implies stack@[k] < n && seen@[#[trigger] stack@[k] as int] by {
                    if k < stack.len() - 1 {
                        assert(stack@[k] == stack0[k]);
                        assert(before[stack0[k] as int]);
                    }
                }
                assert forall|cc: int| 0 <= cc < n && #[trigger] seen@[cc] implies g.reachable(roots@, cc) by {
                    if cc != c {
                        assert(before[cc]);
                    } else {
                        assert(g.is_walk(roots@, c, Seq::empty()));
                    }
                }
                assert forall|cc: int| 0 <= cc < n && #[trigger] seen@[cc] implies stack@.contains(cc as usize) by {
                    if cc != c {
                        assert(before[cc]);
                        assert(stack0.contains(cc as usize));
                        let w = choose|w: int| 0 <= w < stack0.len() && stack0[w] == cc as usize;
                        assert(stack@[w] == cc as usize);
                    } else {
                        assert(stack@[stack@.len() - 1] == c);
                    }
                }
            }
        }
    }
    loop
        invariant
            g.wf(),
            n == g.num_classes(),
            seen.len() == n,
            forall|i: int| 0 <= i < roots.len() ==> roots[i] < g.num_classes(),
            forall|ii: int| 0 <= ii < roots.len() ==> seen@[#[trigger] roots@[ii] as int],
            forall|c: int| 0 <= c < n && #[trigger] seen@[c] ==> g.reachable(roots@, c),
            forall|k: int| 0 <= k < stack.len() ==> stack@[k] < n && seen@[#[trigger] stack@[k] as int],
            forall|s: Step|
                #[trigger] g.step_ok(s) && seen@[s.0] && !stack@.contains(s.0 as usize) ==> seen@[g.target(s)],
            marked(seen@).finite(),
            marked(seen@).len() == nseen,
            0 <= nseen <= n,
        decreases n - nseen, stack.len(),
    {
        let ghost nseen0 = nseen;
        let ghost stack_old = stack@;
        let u = match stack.pop() {
            None => {
                proof {
                    assert forall|c: int| 0 <= c < n implies #[trigger] seen@[c] == g.reachable(roots@, c) by {
                        if g.reachable(roots@, c) {
                            let (start, steps) = choose|start: usize, steps: Seq<Step>|
                                #[trigger] g.is_walk(roots@, start, steps) && g.walk_end(start, steps) == c;
                            assert forall|s: Step| #[trigger] g.step_ok(s) && seen@[s.0] implies seen@[g.target(s)] by {
                                assert(!stack@.contains(s.0 as usize));
                            }
                            lemma_walks_end_marked(g, roots@, seen@, start, steps);
                        }
                    }
                }
                return seen;
            },
            Some(u) => u,
        };
        proof {
            assert(stack@ =~= stack_old.drop_last());
            assert forall|s: Step|
                #[trigger] g.step_ok(s) && seen@[s.0] && !stack@.contains(s.0 as usize) && (s.0 != u || s.1 < 0)
                    implies seen@[g.target(s)] by {
                if stack_old.contains(s.0 as usize) {
                    let w = choose|w: int| 0 <= w < stack_old.len() && stack_old[w] == s.0 as usize;
                    if w < stack_old.len() - 1 {
                        assert(stack@[w] == s.0 as usize);
                    }
                }
            }
            assert(seen@[u as int]) by {
                assert(stack_old[stack_old.len() - 1] == u);
            }
        }
        let m = g.classes[u].len();
        for j in 0..m
            invariant
                g.wf(),
                n == g.num_classes(),
                seen.len() == n,
                u < n,
                seen@[u as int],
                m == g.classes@[u as int]@.len(),
                forall|i: int| 0 <= i < roots.len() ==> roots[i] < g.num_classes(),
                forall|ii: int| 0 <= ii < roots.len() ==> seen@[#[trigger] roots@[ii] as int],
                forall|c: int| 0 <= c < n && #[trigger] seen@[c] ==> g.reachable(roots@, c),
                forall|k: int| 0 <= k < stack.len() ==> stack@[k] < n && seen@[#[trigger] stack@[k] as int],
                forall|s: Step|
                    #[trigger] g.step_ok(s) && seen@[s.0] && !stack@.contains(s.0 as usize) && (s.0 != u || s.1
                        < j) ==> seen@[g.target(s)],
                marked(seen@).finite(),
                marked(seen@).len() == nseen,
                0 <= nseen <= n,
                nseen >= nseen0,
                nseen == nseen0 ==> stack.len() < stack_old.len(),
        {
            let node = &g.classes[u][j];
            let k = node.children.len();
            for p in 0..k
                invariant
                    g.wf(),
                    n == g.num_classes(),
                    seen.len() == n,
                    u < n,
                    seen@[u as int],
                    0 <= j < m,
                    m == g.classes@[u as int]@.len(),
                    node == g.node(u as int, j as int),
                    k == node.children.len(),
                    forall|i: int| 0 <= i < roots.len() ==> roots[i] < g.num_classes(),
                    forall|ii: int| 0 <= ii < roots.len() ==> seen@[#[trigger] roots@[ii] as int],
                    forall|c: int| 0 <= c < n && #[trigger] seen@[c] ==> g.reachable(roots@, c),
                    forall|kk: int| 0 <= kk < stack.len() ==> stack@[kk] < n && seen@[#[trigger] stack@[kk] as int],
                    forall|s: Step|
                        #[trigger] g.step_ok(s) && seen@[s.0] && !stack@.contains(s.0 as usize) && (s.0 != u || s.1
                            < j || (s.1 == j && s.2 < p)) ==> seen@[g.target(s)],
                    marked(seen@).finite(),
                    marked(seen@).len() == nseen,
                    0 <= nseen <= n,
                    nseen >= nseen0,
                    nseen == nseen0 ==> stack.len() < stack_old.len(),
            {
                let ghost st: Step = (u as int, j as int, p as int);
                proof {
                    assert(g.step_ok(st));
                }
                let c = node.children[p];
                if !seen[c] {
                    let ghost before = seen@;
                    let ghost stack0 = stack@;
                    proof {
                        let (start, steps) = choose|start: usize, steps: Seq<Step>|
                            #[trigger] g.is_walk(roots@, start, steps) && g.walk_end(start, steps) == u;
                        lemma_walk_extend(g, roots@, start, steps, st);
                        assert(g.is_walk(roots@, start, steps.push(st)));
                    }
                    seen.set(c, true);
                    stack.push(c);
                    proof {
                        assert(marked(seen@) =~= marked(before).insert(c as int));
                        assert(marked(seen@).subset_of(vstd::set_lib::set_int_range(0, n as int)));
                        vstd::set_lib::lemma_int_range(0, n as int);
                        vstd::set_lib::lemma_len_subset(marked(seen@), vstd::set_lib::set_int_range(0, n as int));
                        nseen = nseen + 1;
                        assert forall|ii: int| 0 <= ii < roots.len() implies seen@[#[trigger] roots@[ii] as int] by {
                            assert(before[roots@[ii] as int]);
                        }
                        assert forall|kk: int| 0 <= kk < stack.len() implies stack@[kk] < n && seen@[#[trigger] stack@[kk] as int] by {
                            if kk < stack.len() - 1 {
                                assert(stack@[kk] == stack0[kk]);
                                assert(before[stack0[kk] as int]);
                            }
                        }
                        assert forall|cc: int| 0 <= cc < n && #[trigger] seen@[cc] implies g.reachable(roots@, cc) by {
                            if cc != c {
                                assert(before[cc]);
                            }
                        }
                        assert forall|s: Step|
                            #[trigger] g.step_ok(s) && seen@[s.0] && !stack@.contains(s.0 as usize) && (s.0 != u
                                || s.1 < j || (s.1 == j && s.2 < p + 1)) implies seen@[g.target(s)] by {
                            if s.0 != c as int {
                                assert(before[s.0]);
                                if stack0.contains(s.0 as usize) {
                                    let w = choose|w: int| 0 <= w < stack0.len() && stack0[w] == s.0 as usize;
                                    assert(stack@[w] == s.0 as usize);
                                }
                            } else {
                                assert(stack@[stack@.len() - 1] == c);
                            }
                        }
                    }
                }
            }
        }
    }
}

/// The context costs of `compute_ctxt_costs`; `None` when the graph is not
/// well formed, a root is not an e-class of it, or the search overflows.
pub fn checked_ctxt_costs(g: &CostGraph, roots: &Vec<usize>) -> (r: Option<Vec<Option<Cost>>>)
    ensures
        !(g.wf() && forall|i: int| 0 <= i < roots.len() ==> roots[i] < g.num_classes()) ==> r is None,
        g.wf() && (forall|i: int| 0 <= i < roots.len() ==> roots[i] < g.num_classes()) ==> match r {
            None => !overflow_free(g, roots@),
            Some(res) => res.len() == g.num_classes() && forall|c: int|
                0 <= c < g.num_classes() ==> match #[trigger] res@[c] {
                    Some(k) => g.is_context_cost(roots@, c, k as int),
                    None => !g.reachable(roots@, c),
                },
        },
{
    if !check_graph(g) {
        return None;
    }
    for i in 0..roots.len()
        invariant
            forall|j: int| 0 <= j < i ==> roots[j] < g.num_classes(),
    {
        if roots[i] >= g.classes.len() {
            return None;
        }
    }
    compute_ctxt_costs(g, roots)
}

/// The context cost of every e-class: the cost of the cheapest walk from a
/// root down to it, where each step adds the cost of the e-node it passes
/// through less the best cost of the child it leads to. E-classes that no
/// root reaches get `None`. The whole result is `None` when an addition of
/// the search overflows, which happens only when the context cost of some
/// reachable e-class plus the cost of one of its e-nodes exceeds `Cost`.
#[verifier::rlimit(60)]
#[verifier::spinoff_prover]
pub fn compute_ctxt_costs(g: &CostGraph, roots: &Vec<usize>) -> (res: Option<Vec<Option<Cost>>>)
    requires
        g.wf(),
        forall|i: int| 0 <= i < roots.len() ==> roots[i] < g.num_classes(),
    ensures
        res is None ==> !overflow_free(g, roots@),
        res matches Some(r) ==> r.len() == g.num_classes() && forall|c: int|
            0 <= c < g.num_classes() ==> match #[trigger] r@[c] {
                Some(k) => g.is_context_cost(roots@, c, k as int),
                None => !g.reachable(roots@, c),
            },
{
    let n = g.classes.len();
    let mut res: Vec<Option<Cost>> = Vec::new();
    for c in 0..n
        invariant
            res.len() == c,
            forall|k: int| 0 <= k < c ==> res@[k] is None,
    {
        res.push(None);
    }
    proof {
        assert(settled(res@) =~= Set::empty());
    }
    let mut queue: MinPrioQueue<usize> = MinPrioQueue::new();
    for i in 0..roots.len()
        invariant
            n == g.num_classes(),
            forall|i: int| 0 <= i < roots.len() ==> roots[i] < g.num_classes(),
            forall|ii: int| 0 <= ii < i ==> queue@.count((0, #[trigger] roots@[ii])) > 0,
            forall|e: (Cost, usize)|
                #[trigger] queue@.count(e) > 0 ==> e.0 == 0 && (e.1 as int) < n && g.walk_reaches(
                    roots@,
                    e.1 as int,
                    0,
                ),
    {
        proof {
            assert(g.is_walk(roots@, roots[i as int], Seq::empty()));
            assert(g.walk_end(roots[i as int], Seq::empty()) == roots[i as int]);
            assert(g.walk_cost(Seq::empty()) == 0);
        }
        queue.push(0, roots[i]);
    }
    let ghost mut nfin: int = 0;
    loop
        invariant
            g.wf(),
            n == g.num_classes(),
            forall|i: int| 0 <= i < roots.len() ==> roots[i] < g.num_classes(),
            res.len() == n,
            settled(res@).finite(),
            settled(res@).len() == nfin,
            0 <= nfin <= n,
            forall|e: (Cost, usize)|
                #[trigger] queue@.count(e) > 0 ==> (e.1 as int) < n && g.walk_reaches(
                    roots@,
                    e.1 as int,
                    e.0 as int,
                ),
            forall|c: int|
                0 <= c < n && #[trigger] res@[c] is Some ==> g.walk_reaches(roots@, c, res@[c]->0 as int),
            settled_are_lower_bounds(g, roots@, res@),
            roots_covered(roots@, res@, queue@),
            steps_covered(g, res@, queue@),
        decreases n - nfin, queue@.len(),
    {
        let ghost q0 = queue@;
        let ghost r0 = res@;
        match queue.pop() {
            None => {
                proof {
                    assert forall|c: int| 0 <= c < n && res@[c] is None implies !g.reachable(roots@, c) by {
                        if g.reachable(roots@, c) {
                            let (start, steps) = choose|start: usize, steps: Seq<Step>|
                                #[trigger] g.is_walk(roots@, start, steps) && g.walk_end(start, steps) == c;
                            lemma_walks_end_settled(g, roots@, res@, queue@, start, steps);
                        }
                    }
                    assert forall|c: int| 0 <= c < n && res@[c] is Some implies g.is_context_cost(
                        roots@,
                        c,
                        res@[c]->0 as int,
                    ) by {
                        assert(settled_are_lower_bounds(g, roots@, res@));
                    }
                }
                return Some(res);
            },
            Some((cst, i)) => {
                if res[i].is_some() {
                    proof {
                        assert forall|k: int| 0 <= k < roots.len() implies res@[roots@[k] as int] is Some
                            || queue@.count((0, #[trigger] roots@[k])) > 0 by {
                            assert(q0.count((0, roots@[k])) > 0 || r0[roots@[k] as int] is Some);
                        }
                        assert forall|s: Step| #[trigger] g.step_ok(s) && res@[s.0] is Some implies res@[g.target(
                            s,
                        )] is Some || queue@.count(((res@[s.0]->0 + g.weight(s)) as Cost, g.target(s) as usize))
                            > 0 by {
                            assert(g.step_ok(s) && r0[s.0] is Some);
                        }
                    }
                    continue;
                }
                proof {
                    assert(q0.count((cst, i)) > 0);
                    assert(g.walk_reaches(roots@, i as int, cst as int));
                    assert forall|start: usize, steps: Seq<Step>|
                        #[trigger] g.is_walk(roots@, start, steps) && g.walk_end(start, steps) == i implies g.walk_cost(steps) >= cst by {
                        lemma_unsettled_cost_at_least(g, roots@, r0, q0, cst as int, start, steps);
                    }
                    assert(g.is_context_cost(roots@, i as int, cst as int));
                }
                res.set(i, Some(cst));
                proof {
                    assert(settled(res@) =~= settled(r0).insert(i as int));
                    assert(settled(res@).subset_of(vstd::set_lib::set_int_range(0, n as int)));
                    vstd::set_lib::lemma_int_range(0, n as int);
                    vstd::set_lib::lemma_len_subset(settled(res@), vstd::set_lib::set_int_range(0, n as int));
                    nfin = nfin + 1;
                    assert forall|e: (Cost, usize)| #[trigger] queue@.count(e) > 0 implies (e.1 as int) < n
                        && g.walk_reaches(roots@, e.1 as int, e.0 as int) by {
                        assert(q0.count(e) > 0);
                    }
                    assert forall|c: int| 0 <= c < n && #[trigger] res@[c] is Some implies g.walk_reaches(
                        roots@,
                        c,
                        res@[c]->0 as int,
                    ) by {
                        if c != i {
                            assert(r0[c] is Some);
                        }
                    }
                    assert forall|c: int| 0 <= c < res@.len() && #[trigger] res@[c] is Some implies g.walks_cost_at_least(
                        roots@,
                        c,
                        res@[c]->0 as int,
                    ) by {
                        if c != i {
                            assert(r0[c] is Some);
                        }
                    }
                    assert forall|k: int| 0 <= k < roots.len() implies res@[roots@[k] as int] is Some
                        || queue@.count((0, #[trigger] roots@[k])) > 0 by {
                        assert(q0.count((0, roots@[k])) > 0 || r0[roots@[k] as int] is Some);
                    }
                    assert forall|s: Step| #[trigger] g.step_ok(s) && res@[s.0] is Some && (s.0 != i || s.1 < 0) implies res@[g.target(
                        s,
                    )] is Some || queue@.count(((res@[s.0]->0 + g.weight(s)) as Cost, g.target(s) as usize))
                        > 0 by {
                        assert(g.step_ok(s) && r0[s.0] is Some);
                    }
                }
                let m = g.classes[i].len();
                for j in 0..m
                    invariant
                        g.wf(),
                        n == g.num_classes(),
                        0 <= i < n,
                        m == g.classes@[i as int]@.len(),
                        forall|ii: int| 0 <= ii < roots.len() ==> roots[ii] < g.num_classes(),
                        res.len() == n,
                        settled(res@).finite(),
                        settled(res@).len() == nfin,
                        1 <= nfin <= n,
                        res@[i as int] == Some(cst),
                        g.is_context_cost(roots@, i as int, cst as int),
                        forall|e: (Cost, usize)|
                            #[trigger] queue@.count(e) > 0 ==> (e.1 as int) < n && g.walk_reaches(
                                roots@,
                                e.1 as int,
                                e.0 as int,
                            ),
                        forall|c: int|
                            0 <= c < n && #[trigger] res@[c] is Some ==> g.walk_reaches(
                                roots@,
                                c,
                                res@[c]->0 as int,
                            ),
                        settled_are_lower_bounds(g, roots@, res@),
                        roots_covered(roots@, res@, queue@),
                        forall|s: Step|
                            #[trigger] g.step_ok(s) && res@[s.0] is Some && (s.0 != i || s.1 < j) ==> res@[g.target(
                                s,
                            )] is Some || queue@.count(
                                ((res@[s.0]->0 + g.weight(s)) as Cost, g.target(s) as usize),
                            ) > 0,
                {
                    proof {
                        assert(g.is_node(i as int, j as int));
                    }
                    let e_cost = match node_cost(g, i, j) {
                        Some(e) => e,
                        None => {
                            proof {
                                assert(!(cst + g.node_cost(i as int, j as int) <= Cost::MAX));
                            }
                            return None;
                        },
                    };
                    let node = &g.classes[i][j];
                    let k = node.children.len();
                    for p in 0..k
                        invariant
                            g.wf(),
                            n == g.num_classes(),
                            0 <= i < n,
                            0 <= j < m,
                            m == g.classes@[i as int]@.len(),
                            node == g.node(i as int, j as int),
                            k == node.children.len(),
                            e_cost == g.node_cost(i as int, j as int),
                            forall|ii: int| 0 <= ii < roots.len() ==> roots[ii] < g.num_classes(),
                            res.len() == n,
                            settled(res@).finite(),
                            settled(res@).len() == nfin,
                            1 <= nfin <= n,
                            res@[i as int] == Some(cst),
                            g.is_context_cost(roots@, i as int, cst as int),
                            forall|e: (Cost, usize)|
                                #[trigger] queue@.count(e) > 0 ==> (e.1 as int) < n && g.walk_reaches(
                                    roots@,
                                    e.1 as int,
                                    e.0 as int,
                                ),
                            forall|c: int|
                                0 <= c < n && #[trigger] res@[c] is Some ==> g.walk_reaches(
                                    roots@,
                                    c,
                                    res@[c]->0 as int,
                                ),
                            settled_are_lower_bounds(g, roots@, res@),
                            roots_covered(roots@, res@, queue@),
                            forall|s: Step|
                                #[trigger] g.step_ok(s) && res@[s.0] is Some && (s.0 != i || s.1 < j || (s.1
                                    == j && s.2 < p)) ==> res@[g.target(s)] is Some || queue@.count(
                                    ((res@[s.0]->0 + g.weight(s)) as Cost, g.target(s) as usize),
                                ) > 0,
                    {
                        let ghost s: Step = (i as int, j as int, p as int);
                        proof {
                            assert(g.step_ok(s));
                            lemma_weight_bounds(g, s);
                        }
                        let c = node.children[p];
                        if res[c].is_none() {
                            let c_cost = g.best[c];
                            let through = match e_cost.checked_add(cst) {
                                Some(t) => t,
                                None => {
                                    proof {
                                        assert(g.is_node(i as int, j as int));
                                        assert(!(cst + g.node_cost(i as int, j as int) <= Cost::MAX));
                                    }
                                    return None;
                                },
                            };
                            let ncst = through - c_cost;
                            let ghost q1 = queue@;
                            proof {
                                let (start, steps) = choose|start: usize, steps: Seq<Step>|
                                    #[trigger] g.is_walk(roots@, start, steps) && g.walk_end(start, steps) == i
                                        && g.walk_cost(steps) == cst;
                                lemma_walk_extend(g, roots@, start, steps, s);
                                assert(g.walk_reaches(roots@, c as int, ncst as int));
                            }
                            queue.push(ncst, c);
                            proof {
                                assert forall|e: (Cost, usize)| #[trigger] queue@.count(e) > 0 implies (e.1 as int)
                                    < n && g.walk_reaches(roots@, e.1 as int, e.0 as int) by {
                                    if e != (ncst, c) {
                                        assert(q1.count(e) > 0);
                                    }
                                }
                                assert forall|ii: int| 0 <= ii < roots.len() implies res@[roots@[ii] as int] is Some
                                    || queue@.count((0, #[trigger] roots@[ii])) > 0 by {
                                    assert(res@[roots@[ii] as int] is Some || q1.count((0, roots@[ii])) > 0);
                                }
                                assert forall|t: Step|
                                    #[trigger] g.step_ok(t) && res@[t.0] is Some && (t.0 != i || t.1 < j || (t.1
                                        == j && t.2 < p + 1)) implies res@[g.target(t)] is Some || queue@.count(
                                    ((res@[t.0]->0 + g.weight(t)) as Cost, g.target(t) as usize),
                                ) > 0 by {
                                    if t != s {
                                        assert(g.step_ok(t) && res@[t.0] is Some);
                                    }
                                }
                            }
                        }
                    }
                }
                proof {
                    assert forall|s: Step| #[trigger] g.step_ok(s) && res@[s.0] is Some implies res@[g.target(
                        s,
                    )] is Some || queue@.count(((res@[s.0]->0 + g.weight(s)) as Cost, g.target(s) as usize))
                        > 0 by {
                        assert(g.step_ok(s) && res@[s.0] is Some);
                    }
                }
            },
        }
    }
}

/// Every walk costs at least nothing.
pub proof fn lemma_walk_cost_nonneg(g: &CostGraph, roots: Seq<usize>, start: usize, steps: Seq<Step>)
    requires
        g.wf(),
        g.is_walk(roots, start, steps),
    ensures
        g.walk_cost(steps) >= 0,
    decreases steps.len(),
{
    if steps.len() > 0 {
        lemma_walk_prefix(g, roots, start, steps);
        lemma_walk_cost_nonneg(g, roots, start, steps.drop_last());
        lemma_weight_bounds(g, steps.last());
    }
}

/// The context cost of a root is 0.
pub proof fn law_root_context_cost_is_zero(g: &CostGraph, roots: Seq<usize>, i: int)
    requires
        g.wf(),
        0 <= i < roots.len(),
    ensures
        g.is_context_cost(roots, roots[i] as int, 0),
{
    let r = roots[i];
    assert(g.is_walk(roots, r, Seq::empty()));
    assert(g.walk_end(r, Seq::<Step>::empty()) == r);
    assert(g.walk_cost(Seq::<Step>::empty()) == 0);
    assert forall|start: usize, steps: Seq<Step>|
        #[trigger] g.is_walk(roots, start, steps) && g.walk_end(start, steps) == r implies g.walk_cost(steps)
        >= 0 by {
        lemma_walk_cost_nonneg(g, roots, start, steps);
    }
}

/// An e-class has at most one context cost.
pub proof fn law_context_cost_is_unique(g: &CostGraph, roots: Seq<usize>, c: int, k1: int, k2: int)
    requires
        g.is_context_cost(roots, c, k1),
        g.is_context_cost(roots, c, k2),
    ensures
        k1 == k2,
{
    let (s1, w1) = choose|start: usize, steps: Seq<Step>|
        #[trigger] g.is_walk(roots, start, steps) && g.walk_end(start, steps) == c && g.walk_cost(steps) == k1;
    let (s2, w2) = choose|start: usize, steps: Seq<Step>|
        #[trigger] g.is_walk(roots, start, steps) && g.walk_end(start, steps) == c && g.walk_cost(steps) == k2;
    assert(g.is_walk(roots, s1, w1));
    assert(g.is_walk(roots, s2, w2));
}

/// A step out of a reachable e-class leads to a reachable e-class, whose
/// context cost is at most that of the e-class the step leaves plus the
/// weight of the step.
pub proof fn law_context_cost_step(g: &CostGraph, roots: Seq<usize>, s: Step, du: int, dc: int)
    requires
        g.wf(),
        g.step_ok(s),
        g.is_context_cost(roots, s.0, du),
        g.is_context_cost(roots, g.target(s), dc),
    ensures
        dc <= du + g.weight(s),
{
    let (start, steps) = choose|start: usize, steps: Seq<Step>|
        #[trigger] g.is_walk(roots, start, steps) && g.walk_end(start, steps) == s.0 && g.walk_cost(steps) == du;
    lemma_walk_extend(g, roots, start, steps, s);
    assert(g.is_walk(roots, start, steps.push(s)));
}

/// What a root reaches, a step out of it reaches too.
pub proof fn law_reachable_step(g: &CostGraph, roots: Seq<usize>, s: Step)
    requires
        g.step_ok(s),
        g.reachable(roots, s.0),
    ensures
        g.reachable(roots, g.target(s)),
{
    let (start, steps) = choose|start: usize, steps: Seq<Step>|
        #[trigger] g.is_walk(roots, start, steps) && g.walk_end(start, steps) == s.0;
    lemma_walk_extend(g, roots, start, steps, s);
    assert(g.is_walk(roots, start, steps.push(s)));
}

/// A graph is well formed exactly when it has one best cost per e-class and
/// every child of every e-node is an e-class of the graph, whichever one it
/// is: the e-node's own e-class is a child like any other.
pub proof fn law_wf_exactly_in_range_children(g: &CostGraph)
    ensures
        g.wf() <==> (g.best@.len() == g.classes@.len() && forall|u: int, j: int, p: int|
            0 <= u < g.classes@.len() && 0 <= j < g.classes@[u]@.len() && 0 <= p
                < g.classes@[u]@[j].children@.len() ==> #[trigger] g.classes@[u]@[j].children@[p]
                < g.classes@.len()),
{
    if g.wf() {
        assert forall|u: int, j: int, p: int|
            0 <= u < g.classes@.len() && 0 <= j < g.classes@[u]@.len() && 0 <= p
                < g.classes@[u]@[j].children@.len() implies #[trigger] g.classes@[u]@[j].children@[p]
            < g.classes@.len() by {
            assert(g.step_ok((u, j, p)));
        }
    }
    if g.best@.len() == g.classes@.len() && forall|u: int, j: int, p: int|
        0 <= u < g.classes@.len() && 0 <= j < g.classes@[u]@.len() && 0 <= p
            < g.classes@[u]@[j].children@.len() ==> #[trigger] g.classes@[u]@[j].children@[p]
            < g.classes@.len() {
        assert forall|s: Step| #[trigger] g.step_ok(s) implies 0 <= g.target(s) < g.num_classes() by {
            assert(g.classes@[s.0]@[s.1].children@[s.2] < g.classes@.len());
        }
    }
}

/// The cost of an e-node is its operator cost plus the best cost of each of
/// its children, counted once for each time it is named; a step through it
/// adds that cost less the best cost of the child it leads to.
pub proof fn law_node_cost_and_weight_in_fields(g: &CostGraph, s: Step)
    requires
        g.step_ok(s),
    ensures
        g.child_costs(s.0, s.1).len() == g.classes@[s.0]@[s.1].children@.len(),
        forall|p: int|
            0 <= p < g.classes@[s.0]@[s.1].children@.len() ==> #[trigger] g.child_costs(s.0, s.1)[p]
                == g.best@[g.classes@[s.0]@[s.1].children@[p] as int],
        g.node_cost(s.0, s.1) == additive_cost_spec(g.classes@[s.0]@[s.1].op_cost, g.child_costs(s.0, s.1)),
        g.weight(s) == g.node_cost(s.0, s.1) - g.best@[g.classes@[s.0]@[s.1].children@[s.2] as int],
{
}

/// The walk of no steps from a root ends at that root and costs nothing;
/// a walk goes on by any step out of the e-class where it ends, which adds
/// the step's weight to its cost.
pub proof fn law_walks_start_at_roots_and_extend(
    g: &CostGraph,
    roots: Seq<usize>,
    i: int,
    start: usize,
    steps: Seq<Step>,
    s: Step,
)
    requires
        0 <= i < roots.len(),
    ensures
        g.is_walk(roots, roots[i], Seq::empty()),
        g.walk_end(roots[i], Seq::empty()) == roots[i] as int,
        g.walk_cost(Seq::empty()) == 0,
        g.is_walk(roots, start, steps) && g.step_ok(s) && s.0 == g.walk_end(start, steps) ==> {
            &&& g.is_walk(roots, start, steps.push(s))
            &&& g.walk_end(start, steps.push(s)) == g.classes@[s.0]@[s.1].children@[s.2] as int
            &&& g.walk_cost(steps.push(s)) == g.walk_cost(steps) + g.weight(s)
        },
{
    assert(roots.contains(roots[i]));
    if g.is_walk(roots, start, steps) && g.step_ok(s) && s.0 == g.walk_end(start, steps) {
        lemma_walk_extend(g, roots, start, steps, s);
    }
}

/// The search can overflow only where some reachable e-class's context
/// cost plus the cost of one of its e-nodes exceeds `Cost`.
pub proof fn law_overflow_free_exactly(g: &CostGraph, roots: Seq<usize>)
    ensures
        !overflow_free(g, roots) <==> exists|c: int, k: int, j: int|
            g.is_context_cost(roots, c, k) && 0 <= c < g.classes@.len() && 0 <= j < g.classes@[c]@.len()
                && k + g.node_cost(c, j) > Cost::MAX,
{
    if !overflow_free(g, roots) {
        let (c, k, j) = choose|c: int, k: int, j: int|
            #[trigger] g.is_context_cost(roots, c, k) && #[trigger] g.is_node(c, j) && !(k + g.node_cost(c, j)
                <= Cost::MAX);
        assert(g.is_context_cost(roots, c, k) && 0 <= c < g.classes@.len() && 0 <= j < g.classes@[c]@.len()
            && k + g.node_cost(c, j) > Cost::MAX);
    }
    if exists|c: int, k: int, j: int|
        g.is_context_cost(roots, c, k) && 0 <= c < g.classes@.len() && 0 <= j < g.classes@[c]@.len() && k
            + g.node_cost(c, j) > Cost::MAX {
        let (c, k, j) = choose|c: int, k: int, j: int|
            g.is_context_cost(roots, c, k) && 0 <= c < g.classes@.len() && 0 <= j < g.classes@[c]@.len() && k
                + g.node_cost(c, j) > Cost::MAX;
        assert(g.is_node(c, j));
    }
}

} // verus!
