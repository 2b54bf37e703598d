use binpacking::decisions::ROOT;
use binpacking::fixed::{EPSILON, ONE};
use binpacking::ryanfoster::{BranchingError, Candidate, Column, RyanFoster};
use binpacking::{BranchingDecisionMap, Pair, PatternForVar};

fn store_of(patterns: &[(usize, Vec<usize>)]) -> PatternForVar {
    let mut store = PatternForVar::new();
    for (var, pattern) in patterns {
        assert!(store.insert(*var, pattern.clone()));
    }
    store
}

fn candidate(var: usize, tenths: i64) -> Candidate {
    Candidate { var, lp_value: tenths * (ONE / 10) }
}

#[test]
fn pair_of_greatest_mass_is_chosen() {
    let store = store_of(&[(0, vec![0, 1, 2]), (1, vec![1, 2])]);
    let candidates = vec![candidate(0, 5), candidate(1, 2)];
    // mass(0,1) = 0.5, mass(0,2) = 0.5, mass(1,2) = 0.7
    assert_eq!(RyanFoster::find_fractional_pair(&store, &candidates), Ok(Pair(1, 2)));
}

#[test]
fn equal_masses_are_broken_lexicographically() {
    let store = store_of(&[(0, vec![0, 1, 2]), (1, vec![1, 2]), (2, vec![0, 2])]);
    let candidates = vec![candidate(0, 5), candidate(1, 2), candidate(2, 2)];
    // mass(0,1) = 0.5, mass(0,2) = 0.7, mass(1,2) = 0.7
    assert_eq!(RyanFoster::find_fractional_pair(&store, &candidates), Ok(Pair(0, 2)));
}

#[test]
fn choice_does_not_depend_on_the_order_of_candidates_or_items() {
    let store = store_of(&[(0, vec![2, 0, 1]), (1, vec![2, 1]), (2, vec![2, 0])]);
    let forward = vec![candidate(0, 5), candidate(1, 2), candidate(2, 2)];
    let backward = vec![candidate(2, 2), candidate(1, 2), candidate(0, 5)];
    let first = RyanFoster::find_fractional_pair(&store, &forward);
    assert_eq!(first, Ok(Pair(0, 2)));
    assert_eq!(RyanFoster::find_fractional_pair(&store, &backward), first);
    assert_eq!(RyanFoster::find_fractional_pair(&store, &forward), first);
}

#[test]
fn chosen_pair_lists_the_smaller_item_first() {
    let store = store_of(&[(0, vec![9, 4])]);
    let candidates = vec![candidate(0, 5)];
    assert_eq!(RyanFoster::find_fractional_pair(&store, &candidates), Ok(Pair(4, 9)));
}

#[test]
fn mass_must_exceed_the_tolerance() {
    let store = store_of(&[(0, vec![0, 1])]);
    let at = vec![Candidate { var: 0, lp_value: EPSILON }];
    assert_eq!(
        RyanFoster::find_fractional_pair(&store, &at),
        Err(BranchingError::NoFractionalPair)
    );
    let above = vec![Candidate { var: 0, lp_value: EPSILON + 1 }];
    assert_eq!(RyanFoster::find_fractional_pair(&store, &above), Ok(Pair(0, 1)));
}

#[test]
fn mass_must_stay_below_one_minus_the_tolerance() {
    let store = store_of(&[(0, vec![0, 1])]);
    let at = vec![Candidate { var: 0, lp_value: ONE - EPSILON }];
    assert_eq!(
        RyanFoster::find_fractional_pair(&store, &at),
        Err(BranchingError::NoFractionalPair)
    );
    let below = vec![Candidate { var: 0, lp_value: ONE - EPSILON - 1 }];
    assert_eq!(RyanFoster::find_fractional_pair(&store, &below), Ok(Pair(0, 1)));
}

#[test]
fn masses_that_sum_to_one_are_not_fractional() {
    let store = store_of(&[(0, vec![0, 1]), (1, vec![0, 1, 2])]);
    let candidates = vec![candidate(0, 5), candidate(1, 5)];
    // mass(0,1) = 1.0, mass(0,2) = mass(1,2) = 0.5
    assert_eq!(RyanFoster::find_fractional_pair(&store, &candidates), Ok(Pair(0, 2)));
}

#[test]
fn single_item_patterns_give_no_fractional_pair() {
    let store = store_of(&[(0, vec![0]), (1, vec![1])]);
    let candidates = vec![candidate(0, 5), candidate(1, 5)];
    assert_eq!(
        RyanFoster::find_fractional_pair(&store, &candidates),
        Err(BranchingError::NoFractionalPair)
    );
}

#[test]
fn no_candidates_give_no_fractional_pair() {
    let store = store_of(&[(0, vec![0, 1])]);
    assert_eq!(
        RyanFoster::find_fractional_pair(&store, &vec![]),
        Err(BranchingError::NoFractionalPair)
    );
}

#[test]
fn first_candidate_without_pattern_is_reported() {
    let store = store_of(&[(0, vec![0, 1])]);
    let candidates = vec![candidate(0, 5), candidate(8, 5), candidate(9, 5)];
    assert_eq!(
        RyanFoster::find_fractional_pair(&store, &candidates),
        Err(BranchingError::MissingPattern(8))
    );
}

fn branching_setup() -> (PatternForVar, Vec<Candidate>, Vec<Column>) {
    let store = store_of(&[
        (0, vec![0, 1]),
        (1, vec![0, 2]),
        (2, vec![1, 2]),
        (3, vec![0]),
        (4, vec![1]),
        (5, vec![2]),
        (6, vec![0, 1, 2]),
    ]);
    // mass(0,1) = 0.6, mass(0,2) = 0.4, mass(1,2) = 0.4
    let candidates = vec![candidate(0, 6), candidate(1, 4), candidate(2, 4)];
    let columns = vec![
        Column { var: 0, upper_bound: i64::MAX },
        Column { var: 1, upper_bound: i64::MAX },
        Column { var: 2, upper_bound: i64::MAX },
        Column { var: 3, upper_bound: ONE },
        Column { var: 4, upper_bound: EPSILON + 1 },
        Column { var: 5, upper_bound: i64::MAX },
        Column { var: 6, upper_bound: 0 },
    ];
    (store, candidates, columns)
}

#[test]
fn branching_records_both_children_and_lists_the_columns_to_fix() {
    let (store, candidates, columns) = branching_setup();
    let mut decisions = BranchingDecisionMap::default();
    let branching = RyanFoster
        .execute(&mut decisions, &store, &candidates, &columns, ROOT, 2, 3)
        .unwrap();

    assert_eq!(branching.pair, Pair(0, 1));
    // column 0 holds both items; column 6 does too, but it is already fixed
    assert_eq!(branching.fixed_apart, vec![0]);
    // columns 1 and 3 hold item 0 only, columns 2 and 4 hold item 1 only
    assert_eq!(branching.fixed_together, vec![1, 2, 3, 4]);

    let apart = decisions.get(2).unwrap();
    assert_eq!(apart.apart(), &vec![Pair(0, 1)]);
    assert!(apart.together().is_empty());
    let together = decisions.get(3).unwrap();
    assert_eq!(together.together(), &vec![Pair(0, 1)]);
    assert!(together.apart().is_empty());
    let root = decisions.get(ROOT).unwrap();
    assert!(root.together().is_empty() && root.apart().is_empty());
}

#[test]
fn children_inherit_the_decisions_of_their_parent() {
    let (store, candidates, columns) = branching_setup();
    let mut decisions = BranchingDecisionMap::default();
    RyanFoster.execute(&mut decisions, &store, &candidates, &columns, ROOT, 2, 3).unwrap();

    // at the child that packs 0 and 1 together, branch on another pair
    let store = store_of(&[(0, vec![0, 1, 2]), (1, vec![0, 1]), (2, vec![2, 3])]);
    let candidates = vec![candidate(0, 5), candidate(1, 5), candidate(2, 5)];
    let branching =
        RyanFoster.execute(&mut decisions, &store, &candidates, &vec![], 3, 4, 5).unwrap();
    assert_eq!(branching.pair, Pair(0, 2));

    let apart = decisions.get(4).unwrap();
    assert_eq!(apart.together(), &vec![Pair(0, 1)]);
    assert_eq!(apart.apart(), &vec![Pair(0, 2)]);
    let together = decisions.get(5).unwrap();
    assert_eq!(together.together(), &vec![Pair(0, 1), Pair(0, 2)]);
    assert!(together.apart().is_empty());
    // the parent's own record is as it was
    let parent = decisions.get(3).unwrap();
    assert_eq!(parent.together(), &vec![Pair(0, 1)]);
    assert!(parent.apart().is_empty());
}

#[test]
fn upper_bound_at_the_tolerance_counts_as_fixed() {
    let store = store_of(&[(0, vec![0, 1]), (1, vec![0])]);
    let candidates = vec![candidate(0, 5)];
    let columns = vec![
        Column { var: 0, upper_bound: EPSILON },
        Column { var: 1, upper_bound: EPSILON },
    ];
    let mut decisions = BranchingDecisionMap::default();
    let branching = RyanFoster
        .execute(&mut decisions, &store, &candidates, &columns, ROOT, 2, 3)
        .unwrap();
    assert!(branching.fixed_apart.is_empty());
    assert!(branching.fixed_together.is_empty());
}

#[test]
fn branching_without_fractional_pair_records_nothing() {
    let store = store_of(&[(0, vec![0])]);
    let candidates = vec![candidate(0, 5)];
    let mut decisions = BranchingDecisionMap::default();
    let r = RyanFoster.execute(&mut decisions, &store, &candidates, &vec![], ROOT, 2, 3);
    assert_eq!(r.unwrap_err(), BranchingError::NoFractionalPair);
    assert!(!decisions.contains(2) && !decisions.contains(3));
}

#[test]
fn branching_an_unknown_node_fails() {
    let (store, candidates, columns) = branching_setup();
    let mut decisions = BranchingDecisionMap::default();
    let r = RyanFoster.execute(&mut decisions, &store, &candidates, &columns, 7, 8, 9);
    assert_eq!(r.unwrap_err(), BranchingError::UnknownNode(7));
    assert!(!decisions.contains(8) && !decisions.contains(9));
}

#[test]
fn branching_into_a_recorded_node_fails() {
    let (store, candidates, columns) = branching_setup();
    let mut decisions = BranchingDecisionMap::default();
    let r = RyanFoster.execute(&mut decisions, &store, &candidates, &columns, ROOT, ROOT, 3);
    assert_eq!(r.unwrap_err(), BranchingError::NodeAlreadyRecorded(ROOT));
    let r = RyanFoster.execute(&mut decisions, &store, &candidates, &columns, ROOT, 2, ROOT);
    assert_eq!(r.unwrap_err(), BranchingError::NodeAlreadyRecorded(ROOT));
    let r = RyanFoster.execute(&mut decisions, &store, &candidates, &columns, ROOT, 2, 2);
    assert_eq!(r.unwrap_err(), BranchingError::NodeAlreadyRecorded(2));
    assert!(!decisions.contains(2) && !decisions.contains(3));
}

#[test]
fn unfixed_column_without_pattern_fails_and_records_nothing() {
    let (store, candidates, mut columns) = branching_setup();
    columns.push(Column { var: 40, upper_bound: 0 });
    columns.push(Column { var: 41, upper_bound: ONE });
    columns.push(Column { var: 42, upper_bound: ONE });
    let mut decisions = BranchingDecisionMap::default();
    let r = RyanFoster.execute(&mut decisions, &store, &candidates, &columns, ROOT, 2, 3);
    assert_eq!(r.unwrap_err(), BranchingError::MissingPattern(41));
    assert!(!decisions.contains(2) && !decisions.contains(3));
}

#[test]
fn candidate_without_pattern_comes_before_other_errors() {
    let store = store_of(&[(0, vec![0])]);
    let candidates = vec![candidate(0, 5), candidate(1, 5)];
    let mut decisions = BranchingDecisionMap::default();
    let r = RyanFoster.execute(&mut decisions, &store, &candidates, &vec![], 7, 7, 7);
    assert_eq!(r.unwrap_err(), BranchingError::MissingPattern(1));
}
