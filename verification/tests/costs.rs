use sched_gym::cost::{additive_cost, checked_additive_cost, pat_cost, PatEntry};
use sched_gym::ctxt_cost::{
    check_graph, checked_ctxt_costs, compute_ctxt_costs, node_cost, reachable_classes, CostGraph,
    ENodeCosts,
};

fn node(op_cost: u128, children: Vec<usize>) -> ENodeCosts {
    ENodeCosts { op_cost, children }
}

#[test]
fn additive_cost_sums_children() {
    assert_eq!(additive_cost(1, &vec![]), 1);
    assert_eq!(additive_cost(1, &vec![2, 3, 4]), 10);
    assert_eq!(additive_cost(0, &vec![u128::MAX]), u128::MAX);
}

#[test]
fn pattern_cost_of_a_variable() {
    let pat = vec![PatEntry::Var { class: 1 }];
    assert_eq!(pat_cost(&pat, &vec![4, 9]), Some(9));
}

#[test]
fn pattern_cost_of_nested_nodes() {
    // (+ ?a (* ?b ?a)) where ?a is class 0 (best 2) and ?b class 1 (best 5)
    let pat = vec![
        PatEntry::Var { class: 0 },
        PatEntry::Var { class: 1 },
        PatEntry::Node { op_cost: 1, children: vec![1, 0] },
        PatEntry::Node { op_cost: 1, children: vec![0, 2] },
    ];
    assert_eq!(pat_cost(&pat, &vec![2, 5]), Some(1 + 2 + (1 + 5 + 2)));
}

/// The e-graph of (+ (* x y) x): class 0 = x, 1 = y, 2 = (* x y), 3 = root.
fn small_graph() -> CostGraph {
    CostGraph {
        classes: vec![
            vec![node(1, vec![])],
            vec![node(1, vec![])],
            vec![node(1, vec![0, 1])],
            vec![node(1, vec![2, 0])],
        ],
        best: vec![1, 1, 3, 5],
    }
}

#[test]
fn node_cost_uses_best_children() {
    let g = small_graph();
    assert_eq!(node_cost(&g, 3, 0), Some(5));
    assert_eq!(node_cost(&g, 2, 0), Some(3));
}

#[test]
fn context_costs_of_small_graph() {
    let g = small_graph();
    let r = compute_ctxt_costs(&g, &vec![3]).unwrap();
    // root: 0; (* x y): 5 - 3 = 2; x: min(5 - 1, 2 + 3 - 1) = 4; y: 2 + 3 - 1 = 4
    assert_eq!(r, vec![Some(4), Some(4), Some(2), Some(0)]);
}

#[test]
fn context_cost_takes_the_cheaper_parent() {
    // class 0 is reached from the root (class 2) directly through an
    // expensive node, and through class 1 by a cheap path.
    let g = CostGraph {
        classes: vec![
            vec![node(1, vec![])],
            vec![node(1, vec![0])],
            vec![node(100, vec![0]), node(1, vec![1])],
        ],
        best: vec![1, 2, 3],
    };
    let r = compute_ctxt_costs(&g, &vec![2]).unwrap();
    assert_eq!(r, vec![Some(2), Some(1), Some(0)]);
}

#[test]
fn unreachable_classes_have_no_context_cost() {
    let g = CostGraph {
        classes: vec![vec![node(1, vec![])], vec![node(1, vec![])]],
        best: vec![1, 1],
    };
    let r = compute_ctxt_costs(&g, &vec![1]).unwrap();
    assert_eq!(r, vec![None, Some(0)]);
    assert_eq!(compute_ctxt_costs(&g, &vec![]), Some(vec![None, None]));
}

#[test]
fn context_costs_with_a_cycle() {
    // class 0 has a node pointing to itself and a leaf
    let g = CostGraph {
        classes: vec![vec![node(1, vec![]), node(2, vec![0])], vec![node(3, vec![0, 0])]],
        best: vec![1, 5],
    };
    let r = compute_ctxt_costs(&g, &vec![1, 1]).unwrap();
    assert_eq!(r, vec![Some(4), Some(0)]);
}

#[test]
fn checked_additive_cost_detects_overflow() {
    assert_eq!(checked_additive_cost(1, &vec![2, 3]), Some(6));
    assert_eq!(checked_additive_cost(1, &vec![u128::MAX]), None);
    assert_eq!(checked_additive_cost(u128::MAX, &vec![]), Some(u128::MAX));
}

#[test]
fn pattern_cost_rejects_bad_patterns() {
    assert_eq!(pat_cost(&vec![], &vec![1]), None);
    // a node that points forwards
    let forward = vec![PatEntry::Node { op_cost: 1, children: vec![1] }, PatEntry::Var { class: 0 }];
    assert_eq!(pat_cost(&forward, &vec![1]), None);
    // a variable of an unknown e-class
    assert_eq!(pat_cost(&vec![PatEntry::Var { class: 3 }], &vec![1]), None);
    // a pattern whose cost overflows
    let big = vec![
        PatEntry::Var { class: 0 },
        PatEntry::Node { op_cost: 1, children: vec![0, 0] },
    ];
    assert_eq!(pat_cost(&big, &vec![u128::MAX / 2 + 1]), None);
}

#[test]
fn graph_checks() {
    assert!(check_graph(&small_graph()));
    let dangling = CostGraph { classes: vec![vec![node(1, vec![4])]], best: vec![1] };
    assert!(!check_graph(&dangling));
    let missing_best = CostGraph { classes: vec![vec![node(1, vec![])]], best: vec![] };
    assert!(!check_graph(&missing_best));
    // costs do not matter to well-formedness
    let costly = CostGraph {
        classes: vec![vec![node(u128::MAX, vec![])], vec![node(1, vec![])]],
        best: vec![u128::MAX, 1],
    };
    assert!(check_graph(&costly));
}

#[test]
fn checked_context_costs() {
    let g = small_graph();
    assert_eq!(checked_ctxt_costs(&g, &vec![3]), Some(vec![Some(4), Some(4), Some(2), Some(0)]));
    assert_eq!(checked_ctxt_costs(&g, &vec![4]), None);
}

#[test]
fn context_costs_along_a_chain() {
    // class i has one node with op cost 1 whose child is class i + 1; the
    // last class is a leaf. Each step adds the op cost 1.
    let n = 20;
    let mut classes = Vec::new();
    for i in 0..n {
        if i + 1 < n {
            classes.push(vec![node(1, vec![i + 1])]);
        } else {
            classes.push(vec![node(1, vec![])]);
        }
    }
    let best: Vec<u128> = (0..n).map(|i| (n - i) as u128).collect();
    let g = CostGraph { classes, best };
    let r = compute_ctxt_costs(&g, &vec![0]).unwrap();
    let expected: Vec<Option<u128>> = (0..n).map(|i| Some(i as u128)).collect();
    assert_eq!(r, expected);
}

#[test]
fn node_cost_that_overflows() {
    let g = CostGraph { classes: vec![vec![node(u128::MAX, vec![0])]], best: vec![1] };
    assert_eq!(node_cost(&g, 0, 0), None);
}

#[test]
fn context_costs_near_the_top_of_the_range() {
    // the root's node costs 2^127 and its leaf child costs 1
    let big = 1u128 << 127;
    let g = CostGraph {
        classes: vec![vec![node(big, vec![1])], vec![node(1, vec![])]],
        best: vec![big + 1, 1],
    };
    assert_eq!(compute_ctxt_costs(&g, &vec![0]), Some(vec![Some(0), Some(big)]));
    assert_eq!(checked_ctxt_costs(&g, &vec![0]), Some(vec![Some(0), Some(big)]));
}

#[test]
fn context_cost_search_that_overflows() {
    // class 1 has a cheap node and a costly one, both over class 2; adding
    // the costly node's cost to the context cost of class 1 overflows
    let m = u128::MAX;
    let g = CostGraph {
        classes: vec![
            vec![node(m - 10, vec![1])],
            vec![node(5, vec![2]), node(100, vec![2])],
            vec![node(1, vec![])],
        ],
        best: vec![m - 4, 6, 1],
    };
    assert_eq!(compute_ctxt_costs(&g, &vec![0]), None);
    assert_eq!(checked_ctxt_costs(&g, &vec![0]), None);
}

#[test]
fn reachable_classes_follow_children() {
    let g = CostGraph {
        classes: vec![
            vec![node(1, vec![2])],
            vec![node(1, vec![0])],
            vec![node(1, vec![]), node(1, vec![3])],
            vec![node(1, vec![3])],
            vec![],
        ],
        best: vec![0; 5],
    };
    assert_eq!(reachable_classes(&g, &vec![0]), vec![true, false, true, true, false]);
    assert_eq!(reachable_classes(&g, &vec![1, 1]), vec![true, true, true, true, false]);
    assert_eq!(reachable_classes(&g, &vec![]), vec![false; 5]);
}
