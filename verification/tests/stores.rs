use binpacking::decisions::{StoreError, ROOT};
use binpacking::patterns::pattern_holds;
use binpacking::{BranchingDecisionMap, BranchingDecisions, Pair, PatternForVar};

#[test]
fn root_is_recorded_without_decisions() {
    let decisions = BranchingDecisionMap::default();
    assert_eq!(ROOT, 1);
    assert!(decisions.contains(ROOT));
    assert!(!decisions.contains(0) && !decisions.contains(2));
    let root = decisions.get(ROOT).unwrap();
    assert!(root.together().is_empty());
    assert!(root.apart().is_empty());
    assert!(decisions.get(2).is_none());
}

#[test]
fn decisions_hold_each_pair_once() {
    let mut decisions = BranchingDecisions::default();
    assert!(decisions.insert_together(Pair(0, 1)));
    assert!(!decisions.insert_together(Pair(0, 1)));
    assert!(decisions.insert_together(Pair(1, 0)));
    assert!(decisions.insert_apart(Pair(0, 1)));
    assert!(!decisions.insert_apart(Pair(0, 1)));
    assert_eq!(decisions.together(), &vec![Pair(0, 1), Pair(1, 0)]);
    assert_eq!(decisions.apart(), &vec![Pair(0, 1)]);
}

#[test]
fn cloned_decisions_are_independent() {
    let mut decisions = BranchingDecisions::new();
    decisions.insert_apart(Pair(2, 3));
    let mut copy = decisions.clone();
    copy.insert_together(Pair(4, 5));
    assert_eq!(copy.apart(), &vec![Pair(2, 3)]);
    assert_eq!(copy.together(), &vec![Pair(4, 5)]);
    assert!(decisions.together().is_empty());
}

#[test]
fn pairs_name_the_same_items_in_either_order() {
    assert!(Pair(0, 1).same_items(&Pair(1, 0)));
    assert!(Pair(0, 1).same_items(&Pair(0, 1)));
    assert!(!Pair(0, 1).same_items(&Pair(0, 2)));
    assert_ne!(Pair(0, 1), Pair(1, 0));
}

#[test]
fn branching_the_store_extends_the_parent_record() {
    let mut decisions = BranchingDecisionMap::default();
    assert_eq!(decisions.branch(ROOT, 2, 3, Pair(0, 1)), Ok(()));
    assert_eq!(decisions.branch(3, 4, 5, Pair(2, 3)), Ok(()));
    let node = decisions.get(4).unwrap();
    assert_eq!(node.together(), &vec![Pair(0, 1)]);
    assert_eq!(node.apart(), &vec![Pair(2, 3)]);
    let node = decisions.get(5).unwrap();
    assert_eq!(node.together(), &vec![Pair(0, 1), Pair(2, 3)]);
    assert!(node.apart().is_empty());
}

#[test]
fn store_never_overwrites_a_record() {
    let mut decisions = BranchingDecisionMap::default();
    assert_eq!(decisions.branch(ROOT, 2, 3, Pair(0, 1)), Ok(()));
    assert_eq!(decisions.check_branch(ROOT, 2, 4), Some(StoreError::NodeAlreadyRecorded(2)));
    assert_eq!(
        decisions.branch(ROOT, 2, 4, Pair(5, 6)),
        Err(StoreError::NodeAlreadyRecorded(2))
    );
    assert_eq!(
        decisions.branch(ROOT, 4, 3, Pair(5, 6)),
        Err(StoreError::NodeAlreadyRecorded(3))
    );
    assert_eq!(
        decisions.branch(ROOT, 4, 4, Pair(5, 6)),
        Err(StoreError::NodeAlreadyRecorded(4))
    );
    assert_eq!(decisions.branch(9, 4, 5, Pair(5, 6)), Err(StoreError::UnknownNode(9)));
    assert!(!decisions.contains(4) && !decisions.contains(5));
    assert_eq!(decisions.get(2).unwrap().apart(), &vec![Pair(0, 1)]);
    assert_eq!(decisions.check_branch(ROOT, 4, 5), None);
}

#[test]
fn pattern_store_is_append_only() {
    let mut store = PatternForVar::default();
    assert!(!store.contains(3));
    assert!(store.get(3).is_none());
    assert!(store.insert(3, vec![0, 2]));
    assert!(store.contains(3));
    assert_eq!(store.get(3), Some(&vec![0, 2]));
    assert!(!store.insert(3, vec![1]));
    assert_eq!(store.get(3), Some(&vec![0, 2]));
    assert!(store.insert(4, vec![]));
    assert_eq!(store.get(4), Some(&vec![]));
}

#[test]
fn pattern_membership() {
    let pattern = vec![4, 0, 2];
    assert!(pattern_holds(&pattern, 0));
    assert!(pattern_holds(&pattern, 4));
    assert!(!pattern_holds(&pattern, 1));
    assert!(!pattern_holds(&vec![], 0));
}
