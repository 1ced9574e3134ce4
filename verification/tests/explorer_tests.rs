use rule_search::cell::Cell;
use rule_search::cell::CellValue;
use rule_search::rule::Rule;
use rule_search::space::Space;
use rule_search::rule::Action;
use rule_search::state_explorer::StateExplorer;

#[test]
fn test_is_rule_applicable() {
    let mut explorer: StateExplorer = StateExplorer::new(1, 1, vec![1, 3, 5, 7, 9, 11, 13, 15]);
    assert_eq!(explorer.explore(), true);

    explorer = StateExplorer::new(1, 1, vec![1, 2, 3, 4, 5, 6, 7, 8, 9]);
    assert_eq!(explorer.explore(), true);

    explorer = StateExplorer::new(1, 1, vec![1, 2, 3, 5, 7, 11]);
    assert_eq!(explorer.explore(), false);

    explorer = StateExplorer::new(2, 2, vec![1, 2, 3, 4, 5, 6, 7, 8, 9]);
    assert_eq!(explorer.explore(), true);
}

#[test]
fn test_explore_odd_trajectory_within_two_dimensions() {
    let explorer = StateExplorer::new(1, 2, vec![1, 3, 5, 7]);
    assert_eq!(explorer.explore(), true);
}

#[test]
fn test_explore_unreachable_target_reports_deepest_match() {
    // in one dimension a single iteration can reach at most 3 cells,
    // so a jump from 1 straight to 9 is unreachable
    let explorer = StateExplorer::new(1, 1, vec![1, 9]);
    let (found, deepest) = explorer.explore_report();
    assert_eq!(found, false);
    assert_eq!(deepest, 1);
}

#[test]
fn test_apply_rule_if_applicable() {
    // one dimension, three active cells at -1, 0, 1; the initial condition
    // ((0 & 1) & 2) holds only where the whole neighbourhood is active
    let mut space = Space::new(1);
    for x in [-1i32, 0, 1] {
        let mut c = Cell::new(1);
        c.set_ith_coordinate(0, x);
        c.set();
        space.push_cell(&c);
    }
    let mut rule = Rule::new(1);
    rule.generate_next();
    assert_eq!(rule.action(), Action::Deactivate);

    let mut probe = space.search_cells(&vec![0]).unwrap().clone();
    StateExplorer::apply_rule_if_applicable(&rule, &mut probe, &space);
    assert_eq!(probe.get_value(), CellValue::Inactive);

    // at coordinate 2 one neighbour slot is an unmaterialised coordinate,
    // so the conjunction fails and the cell keeps its state
    let mut probe2 = space.search_cells(&vec![2]).unwrap().clone();
    StateExplorer::apply_rule_if_applicable(&rule, &mut probe2, &space);
    assert_eq!(probe2.get_value(), CellValue::Inactive);
}

#[test]
fn test_rule_cycles_action_before_condition() {
    let mut rule = Rule::new(1);
    assert_eq!(rule.action(), Action::Activate);
    assert_eq!(rule.has_next(), true);
    rule.generate_next();
    assert_eq!(rule.action(), Action::Deactivate);
    rule.generate_next();
    assert_eq!(rule.action(), Action::Flip);
    rule.generate_next();
    assert_eq!(rule.action(), Action::Activate);
}

#[test]
fn test_rule_evaluate_initial_condition() {
    let rule = Rule::new(1);
    assert_eq!(rule.evaluate(&vec![true, true, true]), true);
    assert_eq!(rule.evaluate(&vec![true, false, true]), false);
    assert_eq!(rule.evaluate(&vec![false, true, true]), false);
    // a single cluster offers no cross-cluster exchange
    assert_eq!(rule.has_next_eval_permutation(), false);
}

#[test]
fn test_explore_summary_per_dimension() {
    // the same unreachable jump, reported per dimension
    let explorer = StateExplorer::new(1, 1, vec![1, 9]);
    let (found, deepest, summary) = explorer.explore_summary();
    assert_eq!(found, false);
    assert_eq!(deepest, 1);
    assert_eq!(summary.len(), 1);
    let (explored, dim_deepest) = summary[0];
    assert_eq!(dim_deepest, 1);
    // every structure-action pair is tried at least once
    assert!(explored >= 64 * 3);
}
