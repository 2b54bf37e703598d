use binpacking::decisions::ROOT;
use binpacking::fixed::{EPSILON, ONE};
use binpacking::pricing::{
    get_duals, ConstraintDuals, KnapsackPricer, PricingError, PricingOutcome,
};
use binpacking::ryanfoster::{Candidate, RyanFoster};
use binpacking::{BinPackingInstance, BranchingDecisionMap, BranchingDecisions, Pair, PatternForVar};

fn instance() -> BinPackingInstance {
    BinPackingInstance { item_sizes: vec![1, 2, 3], capacity: 5 }
}

fn found(outcome: PricingOutcome) -> (Vec<usize>, i128) {
    match outcome {
        PricingOutcome::FoundColumns { pattern, value } => (pattern, value),
        PricingOutcome::NoColumns => panic!("no column"),
    }
}

fn none(outcome: PricingOutcome) -> bool {
    matches!(outcome, PricingOutcome::NoColumns)
}

#[test]
fn standard_pass_needs_a_price_above_one_plus_the_tolerance() {
    let decisions = BranchingDecisions::new();
    // the best pattern is {1, 2}
    let at = vec![-1, ONE, EPSILON];
    assert!(none(KnapsackPricer.price(&instance(), &at, false, &decisions)));
    let above = vec![-1, ONE, EPSILON + 1];
    let (pattern, value) = found(KnapsackPricer.price(&instance(), &above, false, &decisions));
    assert_eq!(pattern, vec![1, 2]);
    assert_eq!(value, (ONE + EPSILON + 1) as i128);
}

#[test]
fn farkas_pass_needs_a_price_above_the_tolerance() {
    let decisions = BranchingDecisions::new();
    let at = vec![-1, -1, EPSILON];
    assert!(none(KnapsackPricer.price(&instance(), &at, true, &decisions)));
    let above = vec![-1, -1, EPSILON + 1];
    let (pattern, value) = found(KnapsackPricer.price(&instance(), &above, true, &decisions));
    assert_eq!(pattern, vec![2]);
    assert_eq!(value, (EPSILON + 1) as i128);
    // the same duals do not improve a standard pass
    assert!(none(KnapsackPricer.price(&instance(), &above, false, &decisions)));
}

#[test]
fn initial_duals_of_one_yield_the_fullest_pattern() {
    let duals = vec![ONE, ONE, ONE];
    let (pattern, value) =
        found(KnapsackPricer.price(&instance(), &duals, false, &BranchingDecisions::new()));
    assert_eq!(value, 2 * ONE as i128);
    assert_eq!(pattern.len(), 2);
}

#[test]
fn contradictory_decisions_yield_no_column() {
    let duals = vec![ONE, ONE, ONE];
    let mut decisions = BranchingDecisions::new();
    decisions.insert_together(Pair(0, 1));
    decisions.insert_apart(Pair(1, 0));
    assert!(decisions.is_contradictory());
    assert!(none(KnapsackPricer.price(&instance(), &duals, false, &decisions)));
}

#[test]
fn consistent_decisions_are_not_contradictory() {
    let mut decisions = BranchingDecisions::new();
    assert!(!decisions.is_contradictory());
    decisions.insert_together(Pair(0, 1));
    decisions.insert_apart(Pair(1, 2));
    assert!(!decisions.is_contradictory());
}

#[test]
fn wrong_number_of_duals_yields_no_column() {
    let duals = vec![ONE, ONE];
    assert!(none(KnapsackPricer.price(&instance(), &duals, false, &BranchingDecisions::new())));
}

#[test]
fn duals_follow_the_active_regime() {
    let constraints = vec![
        ConstraintDuals { dual: Some(1), farkas_dual: Some(-1) },
        ConstraintDuals { dual: Some(2), farkas_dual: None },
        ConstraintDuals { dual: Some(3), farkas_dual: None },
    ];
    assert_eq!(get_duals(&constraints, false), Ok(vec![1, 2, 3]));
    assert_eq!(get_duals(&constraints, true), Err(PricingError::MissingDual(1)));
    let constraints = vec![
        ConstraintDuals { dual: None, farkas_dual: Some(-1) },
        ConstraintDuals { dual: Some(2), farkas_dual: Some(-2) },
    ];
    assert_eq!(get_duals(&constraints, true), Ok(vec![-1, -2]));
    assert_eq!(get_duals(&constraints, false), Err(PricingError::MissingDual(0)));
    assert_eq!(get_duals(&vec![], true), Ok(vec![]));
}

fn duals(values: &[i64]) -> Vec<ConstraintDuals> {
    values.iter().map(|&v| ConstraintDuals { dual: Some(v), farkas_dual: Some(0) }).collect()
}

#[test]
fn columns_are_generated_under_the_decisions_of_the_node() {
    let mut decisions = BranchingDecisionMap::default();
    let mut store = PatternForVar::new();
    store.insert(0, vec![1, 2]);
    let candidates = vec![Candidate { var: 0, lp_value: ONE / 2 }];
    let branching =
        RyanFoster.execute(&mut decisions, &store, &candidates, &vec![], ROOT, 2, 3).unwrap();
    assert_eq!(branching.pair, Pair(1, 2));

    let constraints = duals(&[ONE / 2, ONE, ONE]);
    let at_root =
        KnapsackPricer.generate_columns(&instance(), &constraints, &decisions, ROOT, false);
    assert_eq!(found(at_root.unwrap()), (vec![1, 2], 2 * ONE as i128));
    // where 1 and 2 are kept apart, the best pattern packs 0 and one of them
    let apart = KnapsackPricer.generate_columns(&instance(), &constraints, &decisions, 2, false);
    let (pattern, value) = found(apart.unwrap());
    assert!(!(pattern.contains(&1) && pattern.contains(&2)));
    assert_eq!(value, (ONE + ONE / 2) as i128);
    // where they are packed together, it packs both
    let together =
        KnapsackPricer.generate_columns(&instance(), &constraints, &decisions, 3, false);
    assert_eq!(found(together.unwrap()), (vec![1, 2], 2 * ONE as i128));
    // a Farkas pass with zero duals finds nothing
    let farkas = KnapsackPricer.generate_columns(&instance(), &constraints, &decisions, 3, true);
    assert!(none(farkas.unwrap()));
}

#[test]
fn together_child_never_yields_a_column_with_one_item_of_the_pair() {
    let mut decisions = BranchingDecisionMap::default();
    let mut store = PatternForVar::new();
    store.insert(0, vec![0, 2]);
    let candidates = vec![Candidate { var: 0, lp_value: ONE / 2 }];
    RyanFoster.execute(&mut decisions, &store, &candidates, &vec![], ROOT, 2, 3).unwrap();
    // items 0 and 2 together weigh 4 of 5: item 1 no longer fits beside them
    let constraints = duals(&[ONE, 3 * ONE, ONE]);
    let together =
        KnapsackPricer.generate_columns(&instance(), &constraints, &decisions, 3, false);
    let (pattern, value) = found(together.unwrap());
    assert_eq!(pattern.contains(&0), pattern.contains(&2));
    assert_eq!((pattern, value), (vec![1], 3 * ONE as i128));
}

#[test]
fn generating_columns_at_an_unknown_node_fails() {
    let decisions = BranchingDecisionMap::default();
    let constraints = duals(&[ONE, ONE, ONE]);
    let r = KnapsackPricer.generate_columns(&instance(), &constraints, &decisions, 9, false);
    assert_eq!(r.unwrap_err(), PricingError::UnknownNode(9));
}

#[test]
fn missing_dual_comes_before_unknown_node() {
    let decisions = BranchingDecisionMap::default();
    let constraints = vec![ConstraintDuals { dual: None, farkas_dual: None }];
    let r = KnapsackPricer.generate_columns(&instance(), &constraints, &decisions, 9, true);
    assert_eq!(r.unwrap_err(), PricingError::MissingDual(0));
}
