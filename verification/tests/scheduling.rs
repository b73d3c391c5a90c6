use sched_gym::limits::{check_limits, LimitHit};
use sched_gym::backoff::{MatchBudget, RuleStats, SearchStep};
use sched_gym::detour::{
    cheapest_classes, class_detours, detour_cost, max_cost, order_rules, sorted_class_detours,
    within_size_bound, ApplyBudget, DetourCandidates, MAX_CANDIDATES,
};

#[test]
fn fresh_rule_stats() {
    let s = RuleStats::new();
    assert_eq!((s.banned_until, s.times_banned, s.match_limit, s.ban_length), (0, 0, 1000, 5));
    assert!(!s.is_banned(0));
    assert_eq!(s.threshold(), 1000);
}

#[test]
fn ban_doubles_threshold_and_length() {
    let mut s = RuleStats::new();
    s.ban(10);
    assert_eq!(s.banned_until, 15);
    assert_eq!(s.times_banned, 1);
    assert!(s.is_banned(14));
    assert!(!s.is_banned(15));
    assert_eq!(s.threshold(), 2000);
    s.ban(15);
    assert_eq!(s.banned_until, 25);
    assert_eq!(s.threshold(), 4000);
}

#[test]
fn banned_rule_gets_no_budget() {
    let mut s = RuleStats::new();
    s.ban(0);
    assert!(MatchBudget::start(&s, 3).is_none());
    let b = MatchBudget::start(&s, 5).unwrap();
    assert_eq!((b.threshold, b.total, b.n_matches), (2000, 0, 0));
}

#[test]
fn search_that_stays_within_threshold() {
    let mut s = RuleStats { banned_until: 0, times_banned: 0, match_limit: 10, ban_length: 5 };
    let mut b = MatchBudget::start(&s, 0).unwrap();
    assert_eq!(b.local_limit(), 11);
    assert!(matches!(b.record(&mut s, 0, true, 4), SearchStep::Continue));
    assert_eq!(b.local_limit(), 10);
    assert!(matches!(b.record(&mut s, 0, false, 0), SearchStep::Continue));
    assert!(matches!(b.record(&mut s, 0, true, 6), SearchStep::Continue));
    assert_eq!((b.total, b.n_matches), (10, 2));
    assert_eq!(s.times_banned, 0);
}

#[test]
fn search_over_threshold_bans_the_rule() {
    let mut s = RuleStats { banned_until: 0, times_banned: 0, match_limit: 10, ban_length: 5 };
    let mut b = MatchBudget::start(&s, 7).unwrap();
    assert!(matches!(b.record(&mut s, 7, true, 8), SearchStep::Continue));
    assert!(matches!(b.record(&mut s, 7, true, 3), SearchStep::Banned));
    assert_eq!((s.banned_until, s.times_banned), (12, 1));
}

#[test]
fn local_limit_saturates() {
    let b = MatchBudget { threshold: usize::MAX, total: 0, n_matches: 0 };
    assert_eq!(b.local_limit(), usize::MAX);
}

#[test]
fn detour_cost_falls_back_to_unreachable() {
    let ctxt = vec![Some(3), None];
    assert_eq!(detour_cost(&ctxt, 0, 100, 2), Some(5));
    assert_eq!(detour_cost(&ctxt, 1, 100, 2), Some(102));
    assert_eq!(detour_cost(&ctxt, 7, 100, 2), Some(102));
    assert_eq!(detour_cost(&ctxt, 1, u128::MAX, 1), None);
}

#[test]
fn class_detours_in_given_order() {
    let ctxt = vec![Some(3), None, Some(0)];
    let best = vec![1, 2, 4];
    assert_eq!(class_detours(&vec![2, 0, 1], &ctxt, &best, 50), Some(vec![(4, 2), (4, 0), (52, 1)]));
    assert_eq!(
        sorted_class_detours(&vec![1, 2, 0], &ctxt, &best, 50),
        Some(vec![(4, 2), (4, 0), (52, 1)])
    );
    assert_eq!(class_detours(&vec![3], &ctxt, &best, 50), None);
    assert_eq!(sorted_class_detours(&vec![1], &ctxt, &best, u128::MAX), None);
}

#[test]
fn cheapest_classes_sorted_and_limited() {
    let ctxt = vec![Some(3), None, Some(0), Some(1), Some(0)];
    let best = vec![1, 2, 4, 3, 9];
    assert_eq!(cheapest_classes(&ctxt, &best, 500), Some(vec![(4, 0), (4, 2), (4, 3), (9, 4)]));
    assert_eq!(cheapest_classes(&ctxt, &best, 2), Some(vec![(4, 0), (4, 2)]));
    assert_eq!(cheapest_classes(&ctxt, &best, 0), Some(vec![]));
    assert_eq!(cheapest_classes(&vec![Some(u128::MAX)], &vec![1], 5), None);
    assert_eq!(cheapest_classes(&vec![Some(1)], &vec![], 5), None);
}

#[test]
fn candidates_keep_the_cheapest() {
    let mut c = DetourCandidates::new();
    for i in 0..(MAX_CANDIDATES + 10) {
        c.push((MAX_CANDIDATES + 10 - i) as u128, i, false);
    }
    // every candidate of cost 1 ..= MAX_CANDIDATES is kept, the rest dropped
    assert!(c.is_full_below(MAX_CANDIDATES as u128));
    assert!(!c.is_full_below(MAX_CANDIDATES as u128 - 1));
    let all = c.into_sorted();
    assert_eq!(all.len(), MAX_CANDIDATES);
    assert_eq!(all[0].0, 1);
    assert_eq!(all[MAX_CANDIDATES - 1].0, MAX_CANDIDATES as u128);
}

#[test]
fn special_candidates_are_pruned_against_ordinary_ones() {
    let mut c = DetourCandidates::new();
    c.push(7, "s1", true);
    c.push(3, "s2", true);
    // no ordinary candidate yet: nothing pruned
    c.push(5, "m1", false);
    // the special candidate of cost 7 is costlier than every ordinary one
    c.push(5, "s3", true);
    assert!(!c.is_full_below(100));
    assert_eq!(c.into_sorted(), vec![(3, "s2"), (5, "m1"), (5, "s3")]);
}

#[test]
fn ordinary_candidates_come_first_among_equal_costs() {
    let mut c = DetourCandidates::new();
    c.push(2, 'a', true);
    c.push(2, 'b', false);
    c.push(1, 'c', false);
    assert_eq!(c.into_sorted(), vec![(1, 'c'), (2, 'b'), (2, 'a')]);
}

#[test]
fn apply_budget_counts_changes() {
    let mut b = ApplyBudget::new(2);
    assert!(!b.record(false));
    assert!(!b.record(true));
    assert!(!b.record(false));
    assert!(b.record(true));
    assert_eq!(b.changed, 2);
}

#[test]
fn ordinary_rules_before_special_ones() {
    assert_eq!(order_rules(&vec![true, false, true, false, false]), vec![1, 3, 4, 0, 2]);
    assert_eq!(order_rules(&vec![]), Vec::<usize>::new());
}

#[test]
fn max_cost_and_size_bound() {
    assert_eq!(max_cost(&vec![]), None);
    assert_eq!(max_cost(&vec![3, 9, 2]), Some(9));
    assert!(within_size_bound(18, 9));
    assert!(!within_size_bound(19, 9));
}

#[test]
fn time_limit_is_checked_before_node_limit() {
    assert!(matches!(check_limits(11, 10, 500, 100), Some(LimitHit::Time)));
    assert!(matches!(check_limits(10, 10, 500, 100), Some(LimitHit::Nodes)));
    assert!(check_limits(10, 10, 100, 100).is_none());
}
