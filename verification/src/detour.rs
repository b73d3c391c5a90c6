use vstd::prelude::*;

use crate::cost::Cost;
use crate::order::{is_stable_sort, sort_by_cost, sorted_by_cost, sorted_push_by_key};

verus! {

/// How many matches the scheduler that keeps the cheapest candidates holds
/// at most, and how many of them it applies at most in one iteration.
pub const MAX_CANDIDATES: usize = 400;

/// How many of the cheapest e-classes the class-based scheduler searches.
pub const MAX_CLASSES: usize = 500;

/// How many matches the scheduler that applies all matches by detour cost
/// applies at most in one iteration.
pub const MAX_APPLIED: usize = 100;

/// The context cost of `class`, or `unreachable` when it has none.
pub open spec fn ctxt_or(ctxt: Seq<Option<Cost>>, class: int, unreachable: Cost) -> int {
    if 0 <= class < ctxt.len() && ctxt[class] is Some {
        ctxt[class]->0 as int
    } else {
        unreachable as int
    }
}

/// The detour cost of a match: the context cost of the e-class where it was
/// found (or `unreachable` when no root reaches that e-class) plus the cost
/// of the pattern it instantiates; `None` when that does not fit in a
/// `Cost`.
pub fn detour_cost(ctxt: &Vec<Option<Cost>>, class: usize, unreachable: Cost, pat_cost: Cost) -> (d: Option<Cost>)
    ensures
        d is Some <==> ctxt_or(ctxt@, class as int, unreachable) + pat_cost <= Cost::MAX,
        d matches Some(x) ==> x == ctxt_or(ctxt@, class as int, unreachable) + pat_cost,
{
    let cx = if class < ctxt.len() {
        match ctxt[class] {
            Some(c) => c,
            None => unreachable,
        }
    } else {
        unreachable
    };
    cx.checked_add(pat_cost)
}

/// The detour cost of e-class `c`: its context cost (or `unreachable`) plus
/// its best cost.
pub open spec fn class_detour(ctxt: Seq<Option<Cost>>, best: Seq<Cost>, c: int, unreachable: Cost) -> int {
    ctxt_or(ctxt, c, unreachable) + best[c]
}

/// Every e-class of `classes` has a best cost, and its detour cost fits in
/// a `Cost`.
pub open spec fn class_detours_defined(
    classes: Seq<usize>,
    ctxt: Seq<Option<Cost>>,
    best: Seq<Cost>,
    unreachable: Cost,
) -> bool {
    forall|i: int|
        0 <= i < classes.len() ==> #[trigger] classes[i] < best.len() && class_detour(
            ctxt,
            best,
            classes[i] as int,
            unreachable,
        ) <= Cost::MAX
}

/// The detour cost of every e-class of `classes`, in that order; `None`
/// when an e-class has no best cost or its detour cost does not fit in a
/// `Cost`.
pub fn class_detours(classes: &Vec<usize>, ctxt: &Vec<Option<Cost>>, best: &Vec<Cost>, unreachable: Cost) -> (r:
    Option<Vec<(Cost, usize)>>)
    ensures
        r is Some <==> class_detours_defined(classes@, ctxt@, best@, unreachable),
        r matches Some(v) ==> v.len() == classes.len() && forall|i: int|
            0 <= i < classes.len() ==> #[trigger] v@[i] == (class_detour(
                ctxt@,
                best@,
                classes@[i] as int,
                unreachable,
            ) as Cost, classes@[i]),
{
    let mut r: Vec<(Cost, usize)> = Vec::new();
    for i in 0..classes.len()
        invariant
            class_detours_defined(classes@.take(i as int), ctxt@, best@, unreachable),
            r.len() == i,
            forall|j: int|
                0 <= j < i ==> #[trigger] r@[j] == (class_detour(ctxt@, best@, classes@[j] as int, unreachable) as Cost,
                    classes@[j]),
    {
        let c = classes[i];
        if c >= best.len() {
            proof {
                assert(!(classes@[i as int] < best.len()));
            }
            return None;
        }
        match detour_cost(ctxt, c, unreachable, best[c]) {
            Some(d) => {
                r.push((d, c));
            },
            None => {
                return None;
            },
        }
        proof {
            assert forall|j: int| 0 <= j < i + 1 implies #[trigger] classes@.take(i + 1)[j] < best.len()
                && class_detour(ctxt@, best@, classes@.take(i + 1)[j] as int, unreachable) <= Cost::MAX by {
                if j < i {
                    assert(classes@.take(i + 1)[j] == classes@.take(i as int)[j]);
                }
            }
        }
    }
    proof {
        assert(classes@.take(classes.len() as int) =~= classes@);
    }
    Some(r)
}

/// The detour costs of the e-classes that have a context cost, in the
/// order of their index.
pub open spec fn reachable_detours(ctxt: Seq<Option<Cost>>, best: Seq<Cost>) -> Seq<(Cost, usize)>
    decreases ctxt.len(),
{
    if ctxt.len() == 0 {
        Seq::empty()
    } else {
        let rest = reachable_detours(ctxt.drop_last(), best);
        let c = ctxt.len() - 1;
        match ctxt.last() {
            Some(k) => rest.push(((k + best[c]) as Cost, c as usize)),
            None => rest,
        }
    }
}

/// Every e-class has a best cost, and the detour cost of each e-class that
/// has a context cost fits in a `Cost`.
pub open spec fn reachable_detours_defined(ctxt: Seq<Option<Cost>>, best: Seq<Cost>) -> bool {
    &&& best.len() == ctxt.len()
    &&& forall|c: int| 0 <= c < ctxt.len() && #[trigger] ctxt[c] is Some ==> ctxt[c]->0 + best[c] <= Cost::MAX
}

/// The detour costs of the e-classes that have a context cost: their
/// context cost plus their best cost; `None` when one of them
/// does not fit in a `Cost`.
pub fn reachable_class_detours(ctxt: &Vec<Option<Cost>>, best: &Vec<Cost>) -> (r: Option<Vec<(Cost, usize)>>)
    ensures
        r is Some <==> reachable_detours_defined(ctxt@, best@),
        r matches Some(v) ==> v@ == reachable_detours(ctxt@, best@),
{
    if best.len() != ctxt.len() {
        return None;
    }
    let mut r: Vec<(Cost, usize)> = Vec::new();
    let n = ctxt.len();
    for c in 0..n
        invariant
            n == ctxt.len(),
            best.len() == ctxt.len(),
            forall|k: int| 0 <= k < c && #[trigger] ctxt@[k] is Some ==> ctxt@[k]->0 + best@[k] <= Cost::MAX,
            r@ == reachable_detours(ctxt@.take(c as int), best@),
    {
        proof {
            assert(ctxt@.take(c + 1).drop_last() =~= ctxt@.take(c as int));
        }
        match ctxt[c] {
            Some(k) => {
                match k.checked_add(best[c]) {
                    Some(d) => {
                        r.push((d, c));
                    },
                    None => {
                        proof {
                            assert(ctxt@[c as int] is Some);
                        }
                        return None;
                    },
                }
            },
            None => {},
        }
    }
    proof {
        assert(ctxt@.take(n as int) =~= ctxt@);
    }
    Some(r)
}

/// The (at most) `limit` e-classes of least detour cost among those that a
/// root reaches, cheapest first; e-classes of equal detour cost come in the
/// order of their index. `None` when a detour cost does not fit in a
/// `Cost`.
pub fn cheapest_classes(ctxt: &Vec<Option<Cost>>, best: &Vec<Cost>, limit: usize) -> (r: Option<
    Vec<(Cost, usize)>,
>)
    ensures
        r is Some <==> reachable_detours_defined(ctxt@, best@),
        r matches Some(v) ==> exists|s: Seq<(Cost, usize)>|
            is_stable_sort(reachable_detours(ctxt@, best@), s) && v@ == s.take(
                if s.len() <= limit {
                    s.len() as int
                } else {
                    limit as int
                },
            ),
{
    let all = match reachable_class_detours(ctxt, best) {
        Some(all) => all,
        None => {
            return None;
        },
    };
    let mut sorted = sort_by_cost(all);
    let ghost s = sorted@;
    sorted.truncate(limit);
    proof {
        assert(sorted@ =~= s.take(
            if s.len() <= limit {
                s.len() as int
            } else {
                limit as int
            },
        ));
    }
    Some(sorted)
}

/// The e-classes of `classes` sorted by detour cost; e-classes of equal
/// detour cost keep their order in `classes`. `None` when an e-class has no
/// best cost or its detour cost does not fit in a `Cost`.
pub fn sorted_class_detours(
    classes: &Vec<usize>,
    ctxt: &Vec<Option<Cost>>,
    best: &Vec<Cost>,
    unreachable: Cost,
) -> (r: Option<Vec<(Cost, usize)>>)
    ensures
        r is Some <==> class_detours_defined(classes@, ctxt@, best@, unreachable),
        r matches Some(v) ==> exists|d: Seq<(Cost, usize)>|
            is_stable_sort(d, v@) && d.len() == classes.len() && forall|i: int|
                0 <= i < classes.len() ==> #[trigger] d[i] == (class_detour(
                    ctxt@,
                    best@,
                    classes@[i] as int,
                    unreachable,
                ) as Cost, classes@[i]),
{
    let d = match class_detours(classes, ctxt, best, unreachable) {
        Some(d) => d,
        None => {
            return None;
        },
    };
    let ghost dv = d@;
    let r = sort_by_cost(d);
    proof {
        assert(is_stable_sort(dv, r@));
    }
    Some(r)
}

/// `p` is where a new entry of cost `x` goes in the sorted `s`: after
/// every entry that does not cost more.
pub open spec fn insertion_point<T>(s: Seq<(Cost, T)>, p: int, x: Cost) -> bool {
    &&& 0 <= p <= s.len()
    &&& forall|i: int| 0 <= i < p ==> s[i].0 <= x
    &&& forall|i: int| p <= i < s.len() ==> s[i].0 > x
}

/// `s` without its trailing entries that cost more than `t`.
pub open spec fn drop_costlier<T>(s: Seq<(Cost, T)>, t: Cost) -> Seq<(Cost, T)>
    decreases s.len(),
{
    if s.len() == 0 || s.last().0 <= t {
        s
    } else {
        drop_costlier(s.drop_last(), t)
    }
}

/// `special` pruned against `matches`: when `matches` holds anything, the
/// special candidates that cost more than its costliest one go.
pub open spec fn pruned<T>(special: Seq<(Cost, T)>, matches: Seq<(Cost, T)>) -> Seq<(Cost, T)> {
    if matches.len() == 0 {
        special
    } else {
        drop_costlier(special, matches.last().0)
    }
}

proof fn lemma_drop_costlier<T>(s: Seq<(Cost, T)>, t: Cost)
    requires
        sorted_by_cost(s),
    ensures
        sorted_by_cost(drop_costlier(s, t)),
        drop_costlier(s, t).len() <= s.len(),
        drop_costlier(s, t) =~= s.take(drop_costlier(s, t).len() as int),
    decreases s.len(),
{
    if s.len() == 0 || s.last().0 <= t {
    } else {
        lemma_drop_costlier(s.drop_last(), t);
    }
}

/// The candidate matches of one iteration of the scheduler that keeps only
/// the cheapest ones: the ordinary matches, sorted by detour cost and at
/// most `MAX_CANDIDATES` of them, and the matches of the special rules,
/// sorted by detour cost.
pub struct DetourCandidates<T> {
    matches: Vec<(Cost, T)>,
    special: Vec<(Cost, T)>,
}

impl<T> View for DetourCandidates<T> {
    type V = (Seq<(Cost, T)>, Seq<(Cost, T)>);

    closed spec fn view(&self) -> (Seq<(Cost, T)>, Seq<(Cost, T)>) {
        (self.matches@, self.special@)
    }
}

impl<T> DetourCandidates<T> {
    #[verifier::type_invariant]
    spec fn inv(&self) -> bool {
        &&& sorted_by_cost(self.matches@)
        &&& self.matches@.len() <= MAX_CANDIDATES
        &&& sorted_by_cost(self.special@)
    }

    /// No candidates yet.
    pub fn new() -> (c: Self)
        ensures
            c@.0 =~= Seq::<(Cost, T)>::empty(),
            c@.1 =~= Seq::<(Cost, T)>::empty(),
    {
        DetourCandidates { matches: Vec::new(), special: Vec::new() }
    }

    /// Adds a candidate of detour cost `cost`, to the special ones when
    /// `is_special`. The ordinary candidates then keep only the
    /// `MAX_CANDIDATES` cheapest, and the special candidates that cost more
    /// than the costliest ordinary one go.
    pub fn push(&mut self, cost: Cost, item: T, is_special: bool)
        ensures
            is_special ==> final(self)@.0 == old(self)@.0,
            !is_special ==> exists|p: int|
                insertion_point(old(self)@.0, p, cost) && final(self)@.0 == old(self)@.0.insert(
                    p,
                    (cost, item),
                ).take(
                    if old(self)@.0.len() < MAX_CANDIDATES {
                        old(self)@.0.len() + 1int
                    } else {
                        MAX_CANDIDATES as int
                    },
                ),
            is_special ==> exists|p: int|
                insertion_point(old(self)@.1, p, cost) && final(self)@.1 == pruned(
                    old(self)@.1.insert(p, (cost, item)),
                    final(self)@.0,
                ),
            !is_special ==> final(self)@.1 == pruned(old(self)@.1, final(self)@.0),
            sorted_by_cost(final(self)@.0),
            final(self)@.0.len() <= MAX_CANDIDATES,
            sorted_by_cost(final(self)@.1),
    {
        proof {
            use_type_invariant(&*self);
        }
        let ghost om = self.matches@;
        let ghost os = self.special@;
        let ghost x = (cost, item);
        let mut matches: Vec<(Cost, T)> = Vec::new();
        let mut special: Vec<(Cost, T)> = Vec::new();
        std::mem::swap(&mut matches, &mut self.matches);
        std::mem::swap(&mut special, &mut self.special);
        if is_special {
            sorted_push_by_key(&mut special, (cost, item));
        } else {
            sorted_push_by_key(&mut matches, (cost, item));
        }
        let ghost m1 = matches@;
        let ghost s1 = special@;
        proof {
            if m1.len() == matches@.len() {
                assert(m1.take(m1.len() as int) =~= m1);
            }
        }
        while matches.len() > MAX_CANDIDATES
            invariant
                sorted_by_cost(matches@),
                matches@ =~= m1.take(matches@.len() as int),
                matches@.len() <= m1.len(),
                m1.len() <= MAX_CANDIDATES + 1,
                matches@.len() >= MAX_CANDIDATES || matches@.len() == m1.len(),
            decreases matches.len(),
        {
            matches.pop();
        }
        proof {
            if m1.len() > MAX_CANDIDATES {
                assert(matches@.len() == MAX_CANDIDATES);
            }
        }
        if matches.len() > 0 {
            let threshold = matches[matches.len() - 1].0;
            while special.len() > 0 && special[special.len() - 1].0 > threshold
                invariant
                    sorted_by_cost(special@),
                    drop_costlier(special@, threshold) == drop_costlier(s1, threshold),
                    matches@.len() > 0,
                    threshold == matches@.last().0,
                decreases special.len(),
            {
                proof {
                    assert(special@.drop_last() =~= special@.take(special@.len() - 1));
                }
                special.pop();
            }
        }
        proof {
            if matches@.len() > 0 {
                let t = matches@.last().0;
                lemma_drop_costlier(s1, t);
                assert(drop_costlier(special@, t) == special@);
                assert(special@ == pruned(s1, matches@));
            } else {
                assert(special@ == s1);
                assert(special@ == pruned(s1, matches@));
            }
            if is_special {
                let p = choose|p: int|
                    0 <= p <= os.len() && s1 == os.insert(p, x) && (forall|i: int|
                        0 <= i < p ==> os[i].0 <= x.0) && (forall|i: int| p <= i < os.len() ==> os[i].0 > x.0);
                assert(insertion_point(os, p, cost));
                assert(matches@ =~= om);
                assert(special@ == pruned(os.insert(p, x), matches@));
            } else {
                let p = choose|p: int|
                    0 <= p <= om.len() && m1 == om.insert(p, x) && (forall|i: int|
                        0 <= i < p ==> om[i].0 <= x.0) && (forall|i: int| p <= i < om.len() ==> om[i].0 > x.0);
                assert(insertion_point(om, p, cost));
                assert(s1 == os);
                assert(matches@ =~= m1.take(
                    if om.len() < MAX_CANDIDATES {
                        om.len() + 1int
                    } else {
                        MAX_CANDIDATES as int
                    },
                ));
            }
        }
        self.matches = matches;
        self.special = special;
        proof {
            if is_special {
                let p = choose|p: int| insertion_point(os, p, cost) && s1 == os.insert(p, x);
                assert(insertion_point(old(self)@.1, p, cost) && self@.1 == pruned(
                    old(self)@.1.insert(p, (cost, item)),
                    self@.0,
                ));
            } else {
                let p = choose|p: int| insertion_point(om, p, cost) && m1 == om.insert(p, x);
                assert(insertion_point(old(self)@.0, p, cost) && self@.0 == old(self)@.0.insert(
                    p,
                    (cost, item),
                ).take(
                    if old(self)@.0.len() < MAX_CANDIDATES {
                        old(self)@.0.len() + 1int
                    } else {
                        MAX_CANDIDATES as int
                    },
                ));
            }
        }
    }

    /// Whether the search may stop: there are `MAX_CANDIDATES` ordinary
    /// candidates and none costs more than `detour`, so that no match of
    /// detour cost `detour` or more would be kept.
    pub fn is_full_below(&self, detour: Cost) -> (b: bool)
        ensures
            b == (self@.0.len() == MAX_CANDIDATES && self@.0.last().0 <= detour),
    {
        self.matches.len() == MAX_CANDIDATES && self.matches[self.matches.len() - 1].0 <= detour
    }

    /// All candidates, ordinary and special, sorted by detour cost; among
    /// equal costs the ordinary ones come first, each in their order.
    pub fn into_sorted(self) -> (r: Vec<(Cost, T)>)
        ensures
            is_stable_sort(self@.0 + self@.1, r@),
    {
        let DetourCandidates { mut matches, mut special } = self;
        let ghost all = matches@ + special@;
        matches.append(&mut special);
        proof {
            assert(matches@ =~= all);
        }
        sort_by_cost(matches)
    }
}

/// Counts the applications that changed the e-graph, up to a limit.
pub struct ApplyBudget {
    pub changed: usize,
    pub limit: usize,
}

impl ApplyBudget {
    /// Nothing applied yet.
    pub fn new(limit: usize) -> (b: ApplyBudget)
        ensures
            b.changed == 0,
            b.limit == limit,
    {
        ApplyBudget { changed: 0, limit }
    }

    /// Records one application; returns whether the limit is now reached,
    /// so that no more matches are applied.
    pub fn record(&mut self, changed_egraph: bool) -> (stop: bool)
        requires
            old(self).changed < usize::MAX,
        ensures
            final(self).limit == old(self).limit,
            final(self).changed == old(self).changed + if changed_egraph {
                1int
            } else {
                0int
            },
            stop == (changed_egraph && final(self).changed >= final(self).limit),
    {
        if changed_egraph {
            self.changed = self.changed + 1;
            self.changed >= self.limit
        } else {
            false
        }
    }
}

/// The ordinary rules of `is_special`, then the special ones, each in the
/// order of their index.
pub fn order_rules(is_special: &Vec<bool>) -> (r: Vec<usize>)
    ensures
        r@ == Seq::new(is_special.len() as nat, |i: int| i as usize).filter(|i: usize| !is_special@[i as int])
            + Seq::new(is_special.len() as nat, |i: int| i as usize).filter(|i: usize| is_special@[i as int]),
{
    let n = is_special.len();
    let ghost idx = Seq::new(n as nat, |i: int| i as usize);
    let ghost ord = |i: usize| !is_special@[i as int];
    let ghost spc = |i: usize| is_special@[i as int];
    let mut ordinary: Vec<usize> = Vec::new();
    let mut special: Vec<usize> = Vec::new();
    for i in 0..n
        invariant
            n == is_special.len(),
            idx == Seq::new(n as nat, |i: int| i as usize),
            ord == (|i: usize| !is_special@[i as int]),
            spc == (|i: usize| is_special@[i as int]),
            ordinary@ == idx.take(i as int).filter(ord),
            special@ == idx.take(i as int).filter(spc),
    {
        proof {
            assert(idx.take(i + 1) =~= idx.take(i as int).push(i));
            idx.take(i as int).lemma_filter_push(i, ord);
            idx.take(i as int).lemma_filter_push(i, spc);
        }
        if is_special[i] {
            special.push(i);
        } else {
            ordinary.push(i);
        }
    }
    proof {
        assert(idx.take(n as int) =~= idx);
    }
    ordinary.append(&mut special);
    ordinary
}

/// The largest of `costs`, or `None` when there are none.
pub fn max_cost(costs: &Vec<Cost>) -> (m: Option<Cost>)
    ensures
        m is None <==> costs.len() == 0,
        m matches Some(x) ==> costs@.contains(x) && forall|i: int| 0 <= i < costs.len() ==> costs@[i] <= x,
{
    if costs.len() == 0 {
        return None;
    }
    let mut best = costs[0];
    for i in 1..costs.len()
        invariant
            costs.len() > 0,
            costs@.contains(best),
            forall|j: int| 0 <= j < i ==> costs@[j] <= best,
    {
        if costs[i] > best {
            best = costs[i];
        }
    }
    Some(best)
}

/// Whether an e-class whose best term costs `cost` may be searched when the
/// costliest root costs `root_cost`: at most twice as much.
pub fn within_size_bound(cost: Cost, root_cost: Cost) -> (b: bool)
    requires
        2 * root_cost <= Cost::MAX,
    ensures
        b == (cost <= 2 * root_cost),
{
    cost <= 2 * root_cost
}

/// The reachable detours list each e-class that has a context cost exactly
/// once, in increasing order of index, with its context cost plus its best
/// cost; no e-class without a context cost appears.
pub proof fn law_reachable_detours_list_the_reached(ctxt: Seq<Option<Cost>>, best: Seq<Cost>)
    requires
        ctxt.len() <= usize::MAX,
    ensures
        forall|i: int|
            0 <= i < reachable_detours(ctxt, best).len() ==> {
                let (d, c) = #[trigger] reachable_detours(ctxt, best)[i];
                &&& c < ctxt.len()
                &&& ctxt[c as int] is Some
                &&& d == (ctxt[c as int]->0 + best[c as int]) as Cost
            },
        forall|i: int, j: int|
            0 <= i < j < reachable_detours(ctxt, best).len() ==> reachable_detours(ctxt, best)[i].1
                < reachable_detours(ctxt, best)[j].1,
        forall|c: int|
            0 <= c < ctxt.len() && #[trigger] ctxt[c] is Some ==> exists|i: int|
                0 <= i < reachable_detours(ctxt, best).len() && #[trigger] reachable_detours(ctxt, best)[i].1
                    == c,
    decreases ctxt.len(),
{
    if ctxt.len() > 0 {
        let pre = ctxt.drop_last();
        law_reachable_detours_list_the_reached(pre, best);
        let rest = reachable_detours(pre, best);
        let r = reachable_detours(ctxt, best);
        let n = ctxt.len() - 1;
        assert forall|i: int| 0 <= i < rest.len() implies #[trigger] rest[i].1 < n by {
            assert(rest[i].1 < pre.len());
        }
        assert forall|i: int| 0 <= i < r.len() implies {
            let (d, c) = #[trigger] r[i];
            &&& c < ctxt.len()
            &&& ctxt[c as int] is Some
            &&& d == (ctxt[c as int]->0 + best[c as int]) as Cost
        } by {
            if i < rest.len() {
                assert(r[i] == rest[i]);
                assert(ctxt[rest[i].1 as int] == pre[rest[i].1 as int]);
            } else {
                assert(ctxt.last() is Some);
                assert(r[i] == ((ctxt.last()->0 + best[n]) as Cost, n as usize));
            }
        }
        assert forall|i: int, j: int| 0 <= i < j < r.len() implies r[i].1 < r[j].1 by {
            if j < rest.len() {
                assert(r[i] == rest[i] && r[j] == rest[j]);
            } else {
                assert(ctxt.last() is Some);
                assert(r[j] == ((ctxt.last()->0 + best[n]) as Cost, n as usize));
                assert(r[i] == rest[i]);
                assert(rest[i].1 < n);
            }
        }
        assert forall|c: int| 0 <= c < ctxt.len() && #[trigger] ctxt[c] is Some implies exists|i: int|
            0 <= i < r.len() && #[trigger] r[i].1 == c by {
            if c < n {
                assert(pre[c] is Some);
                let i = choose|i: int| 0 <= i < rest.len() && #[trigger] rest[i].1 == c;
                assert(r[i] == rest[i]);
            } else {
                assert(r[rest.len() as int].1 == c);
            }
        }
    }
}

/// When a new ordinary candidate pushes one out, no candidate that stays
/// costs more than the one that goes.
pub proof fn law_dropped_candidate_is_costliest<T>(s: Seq<(Cost, T)>, p: int, x: (Cost, T))
    requires
        sorted_by_cost(s),
        s.len() <= MAX_CANDIDATES,
        insertion_point(s, p, x.0),
    ensures
        forall|i: int, j: int|
            0 <= i < MAX_CANDIDATES <= j < s.insert(p, x).len() ==> s.insert(p, x)[i].0 <= s.insert(p, x)[j].0,
{
    crate::order::lemma_insert_sorted(s, p, x);
}

/// After pruning, no special candidate costs more than the costliest
/// ordinary one.
pub proof fn law_pruned_within_threshold<T>(special: Seq<(Cost, T)>, matches: Seq<(Cost, T)>)
    requires
        sorted_by_cost(special),
        matches.len() > 0,
    ensures
        forall|i: int|
            0 <= i < pruned(special, matches).len() ==> #[trigger] pruned(special, matches)[i].0
                <= matches.last().0,
{
    lemma_drop_costlier_within(special, matches.last().0);
}

proof fn lemma_drop_costlier_within<T>(s: Seq<(Cost, T)>, t: Cost)
    requires
        sorted_by_cost(s),
    ensures
        forall|i: int| 0 <= i < drop_costlier(s, t).len() ==> #[trigger] drop_costlier(s, t)[i].0 <= t,
    decreases s.len(),
{
    if s.len() == 0 {
    } else if s.last().0 <= t {
        assert(drop_costlier(s, t) == s);
        assert forall|i: int| 0 <= i < s.len() implies #[trigger] s[i].0 <= t by {
            assert(s[i].0 <= s[s.len() - 1].0);
        }
    } else {
        assert(drop_costlier(s, t) == drop_costlier(s.drop_last(), t));
        lemma_drop_costlier_within(s.drop_last(), t);
    }
}

/// An e-class that has a context cost counts with that cost, whatever the
/// cost of unreachable e-classes; only an e-class without one (or outside
/// the graph) counts with the cost of unreachable e-classes.
pub proof fn law_context_cost_before_unreachable(ctxt: Seq<Option<Cost>>, class: int, u1: Cost, u2: Cost)
    ensures
        0 <= class < ctxt.len() && ctxt[class] is Some ==> ctxt_or(ctxt, class, u1) == ctxt[class]->0
            && ctxt_or(ctxt, class, u1) == ctxt_or(ctxt, class, u2),
        !(0 <= class < ctxt.len() && ctxt[class] is Some) ==> ctxt_or(ctxt, class, u1) == u1,
{
}

/// Pruning keeps a prefix of the sorted special candidates: exactly those
/// that cost no more than the costliest ordinary candidate, or all of them
/// when there is no ordinary candidate.
pub proof fn law_pruned_keeps_the_cheaper<T>(special: Seq<(Cost, T)>, matches: Seq<(Cost, T)>)
    requires
        sorted_by_cost(special),
    ensures
        matches.len() == 0 ==> pruned(special, matches) == special,
        matches.len() > 0 ==> {
            let p = pruned(special, matches);
            &&& p == special.take(p.len() as int)
            &&& forall|i: int| 0 <= i < p.len() ==> #[trigger] special[i].0 <= matches.last().0
            &&& forall|i: int| p.len() <= i < special.len() ==> #[trigger] special[i].0 > matches.last().0
        },
{
    if matches.len() > 0 {
        lemma_drop_costlier(special, matches.last().0);
        lemma_drop_costlier_within(special, matches.last().0);
        lemma_drop_costlier_rest(special, matches.last().0);
        let p = pruned(special, matches);
        assert forall|i: int| 0 <= i < p.len() implies #[trigger] special[i].0 <= matches.last().0 by {
            assert(p[i] == special[i]);
        }
    }
}

proof fn lemma_drop_costlier_rest<T>(s: Seq<(Cost, T)>, t: Cost)
    requires
        sorted_by_cost(s),
    ensures
        forall|i: int| drop_costlier(s, t).len() <= i < s.len() ==> #[trigger] s[i].0 > t,
    decreases s.len(),
{
    if s.len() == 0 || s.last().0 <= t {
    } else {
        lemma_drop_costlier_rest(s.drop_last(), t);
        lemma_drop_costlier(s.drop_last(), t);
        assert forall|i: int| drop_costlier(s, t).len() <= i < s.len() implies #[trigger] s[i].0 > t by {
            if i < s.len() - 1 {
                assert(s.drop_last()[i] == s[i]);
            }
        }
    }
}

} // verus!
