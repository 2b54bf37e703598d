//! The pricing oracle: finds a packing pattern that improves the master
//! problem, or tells that none does.
//!
//! A pattern is priced by the dual values of the covering constraints of
//! its items.  Its *reduced cost* is its objective coefficient (one in a
//! standard pass, zero in a Farkas pass) minus that price; the pattern
//! improves the master problem if its reduced cost lies below minus the
//! tolerance.

use crate::decisions::{BBNodeId, BranchingDecisionMap, BranchingDecisions, DecisionSets, Pair};
use crate::fixed::{EPSILON, ONE};
use crate::instance::{pattern_size, BinPackingInstance};
use crate::knapsack::{
    chosen, feasible, is_pattern, lemma_selection_size, optimal, selection, solve_knapsack,
    total_profit,
};
use crate::patterns::{holds_both, holds_one};
use vstd::prelude::*;

verus! {

/// What the engine reports of the covering constraint of one item, in
/// fixed-point units.  A value that the engine does not have is `None`.
#[derive(Debug, Clone, Copy, PartialEq, Eq, Structural)]
pub struct ConstraintDuals {
    /// The dual value in the current LP solution.
    pub dual: Option<i64>,
    /// The Farkas dual value in the current, infeasible, LP.
    pub farkas_dual: Option<i64>,
}

/// Why a pricing pass could not be made.
#[derive(Debug, Clone, Copy, PartialEq, Eq, Structural)]
pub enum PricingError {
    /// The engine has no dual value of the active regime for this item.
    MissingDual(usize),
    /// The requesting node has no record of decisions.
    UnknownNode(BBNodeId),
}

/// The result of a pricing pass.
#[derive(Debug)]
pub enum PricingOutcome {
    /// No pattern improves the master problem.
    NoColumns,
    /// A pattern that improves the master problem, and its price.
    FoundColumns { pattern: Vec<usize>, value: i128 },
}

/// The knapsack pricing oracle.
pub struct KnapsackPricer;

/// The dual value of the active regime.
pub open spec fn active_dual(constraint: ConstraintDuals, farkas: bool) -> Option<i64> {
    if farkas {
        constraint.farkas_dual
    } else {
        constraint.dual
    }
}

/// Whether `item` is the first item without a dual value of the active
/// regime.
pub open spec fn first_missing_dual(
    constraints: Seq<ConstraintDuals>,
    farkas: bool,
    item: int,
) -> bool {
    &&& 0 <= item < constraints.len()
    &&& active_dual(constraints[item], farkas) is None
    &&& forall|k: int| 0 <= k < item ==> active_dual(#[trigger] constraints[k], farkas) is Some
}

/// Whether every item has a dual value of the active regime.
pub open spec fn duals_known(constraints: Seq<ConstraintDuals>, farkas: bool) -> bool {
    forall|k: int|
        0 <= k < constraints.len() ==> active_dual(#[trigger] constraints[k], farkas) is Some
}

/// The dual values of the active regime, one per item.
pub open spec fn active_duals(constraints: Seq<ConstraintDuals>, farkas: bool) -> Seq<i64> {
    Seq::new(constraints.len(), |k: int| active_dual(constraints[k], farkas).unwrap())
}

/// The objective coefficient of a new column: one in a standard pass,
/// zero in a Farkas pass.
pub open spec fn objective_coefficient(farkas: bool) -> int {
    if farkas {
        0
    } else {
        ONE as int
    }
}

/// The reduced cost of a pattern whose items are priced at `value`.
pub open spec fn reduced_cost(farkas: bool, value: int) -> int {
    objective_coefficient(farkas) - value
}

/// Whether a pattern priced at `value` improves the master problem.
pub open spec fn improving(farkas: bool, value: int) -> bool {
    reduced_cost(farkas, value) < -EPSILON
}

/// Whether `outcome` is what a pricing pass owes: a feasible pattern of
/// greatest price if that pattern improves the master problem, and no
/// column if no feasible pattern improves it.  No column is owed either
/// when the decisions are contradictory or when the number of duals is
/// not the number of items.
pub open spec fn priced(
    outcome: PricingOutcome,
    sizes: Seq<u64>,
    duals: Seq<i64>,
    capacity: u64,
    d: DecisionSets,
    farkas: bool,
) -> bool {
    match outcome {
        PricingOutcome::FoundColumns { pattern, value } => {
            &&& sizes.len() == duals.len()
            &&& !d.contradictory()
            &&& is_pattern(pattern@, sizes.len())
            &&& optimal(sizes, duals, capacity, d, selection(pattern@, sizes.len()))
            &&& value == total_profit(duals, selection(pattern@, sizes.len()))
            &&& improving(farkas, value as int)
        },
        PricingOutcome::NoColumns => {
            ||| sizes.len() != duals.len()
            ||| d.contradictory()
            ||| forall|x: Seq<bool>| #[trigger]
                feasible(sizes, capacity, d, x) ==> !improving(farkas, total_profit(duals, x))
        },
    }
}

/// Contradictory decisions yield no column.
pub proof fn lemma_contradiction_yields_no_column(
    outcome: PricingOutcome,
    sizes: Seq<u64>,
    duals: Seq<i64>,
    capacity: u64,
    d: DecisionSets,
    farkas: bool,
)
    requires
        d.contradictory(),
        priced(outcome, sizes, duals, capacity, d, farkas),
    ensures
        outcome is NoColumns,
{
}

/// A column that pricing yields fits a bin.
pub proof fn lemma_found_column_fits(
    outcome: PricingOutcome,
    sizes: Seq<u64>,
    duals: Seq<i64>,
    capacity: u64,
    d: DecisionSets,
    farkas: bool,
)
    requires
        sizes.len() <= usize::MAX,
        priced(outcome, sizes, duals, capacity, d, farkas),
    ensures
        outcome matches PricingOutcome::FoundColumns { pattern, .. } ==> pattern_size(
            sizes,
            pattern@,
        ) <= capacity,
{
    if let PricingOutcome::FoundColumns { pattern, .. } = outcome {
        lemma_selection_size(sizes, pattern@, sizes.len());
    }
}

/// Once two items are to be kept apart at a node, no column that pricing
/// yields at that node or below it, where the decisions of the node still
/// hold, packs both.
pub proof fn lemma_found_column_keeps_apart(
    outcome: PricingOutcome,
    sizes: Seq<u64>,
    duals: Seq<i64>,
    capacity: u64,
    ancestor: DecisionSets,
    d: DecisionSets,
    farkas: bool,
    pair: Pair,
)
    requires
        ancestor.apart.contains(pair),
        ancestor.within(d),
        priced(outcome, sizes, duals, capacity, d, farkas),
    ensures
        outcome matches PricingOutcome::FoundColumns { pattern, .. } ==> !holds_both(
            pattern@,
            pair.0,
            pair.1,
        ),
{
    if let PricingOutcome::FoundColumns { pattern, .. } = outcome {
        assert(d.apart.contains(pair));
        if holds_both(pattern@, pair.0, pair.1) {
            lemma_listed_is_chosen(pattern@, sizes.len(), pair.0);
            lemma_listed_is_chosen(pattern@, sizes.len(), pair.1);
        }
    }
}

/// Once two items are to be packed together at a node, no column that
/// pricing yields at that node or below it, where the decisions of the
/// node still hold, packs exactly one of them.
pub proof fn lemma_found_column_keeps_together(
    outcome: PricingOutcome,
    sizes: Seq<u64>,
    duals: Seq<i64>,
    capacity: u64,
    ancestor: DecisionSets,
    d: DecisionSets,
    farkas: bool,
    pair: Pair,
)
    requires
        ancestor.together.contains(pair),
        ancestor.within(d),
        priced(outcome, sizes, duals, capacity, d, farkas),
    ensures
        outcome matches PricingOutcome::FoundColumns { pattern, .. } ==> !holds_one(
            pattern@,
            pair.0,
            pair.1,
        ),
{
    if let PricingOutcome::FoundColumns { pattern, .. } = outcome {
        let x = selection(pattern@, sizes.len());
        assert(d.together.contains(pair));
        assert(chosen(x, pair.0 as int) == chosen(x, pair.1 as int));
        if pattern@.contains(pair.0) {
            lemma_listed_is_chosen(pattern@, sizes.len(), pair.0);
        }
        if pattern@.contains(pair.1) {
            lemma_listed_is_chosen(pattern@, sizes.len(), pair.1);
        }
    }
}

/// An item that a pattern lists is packed by the pattern's selection.
proof fn lemma_listed_is_chosen(items: Seq<usize>, n: nat, item: usize)
    requires
        is_pattern(items, n),
        items.contains(item),
    ensures
        chosen(selection(items, n), item as int),
{
    let k = choose|k: int| 0 <= k < items.len() && items[k] == item;
    assert(items[k] < n);
}

/// Picks, for each item, the dual value of the active regime: the Farkas
/// dual when `farkas` is set, the dual of the LP solution otherwise.
/// Fails on the first item for which the engine has no such value.
pub fn get_duals(item_constraints: &Vec<ConstraintDuals>, farkas: bool) -> (r: Result<
    Vec<i64>,
    PricingError,
>)
    ensures
        match r {
            Ok(duals) => duals_known(item_constraints@, farkas) && duals@ == active_duals(
                item_constraints@,
                farkas,
            ),
            Err(PricingError::MissingDual(item)) => first_missing_dual(
                item_constraints@,
                farkas,
                item as int,
            ),
            Err(_) => false,
        },
{
    let mut duals: Vec<i64> = Vec::new();
    let mut item: usize = 0;
    while item < item_constraints.len()
        invariant
            item <= item_constraints.len(),
            duals@.len() == item,
            forall|k: int|
                0 <= k < item ==> active_dual(#[trigger] item_constraints@[k], farkas) == Some(
                    duals@[k],
                ),
        decreases item_constraints.len() - item,
    {
        let constraint = item_constraints[item];
        let value = if farkas {
            constraint.farkas_dual
        } else {
            constraint.dual
        };
        match value {
            Some(dual) => {
                duals.push(dual);
            },
            None => {
                return Err(PricingError::MissingDual(item));
            },
        }
        item += 1;
    }
    assert(duals@ =~= active_duals(item_constraints@, farkas));
    Ok(duals)
}

impl KnapsackPricer {
    /// Prices the patterns of `instance` by `duals` under the decisions of
    /// one node: returns a feasible pattern of greatest price if its
    /// reduced cost lies below minus the tolerance, and no column
    /// otherwise.
    pub fn price(
        &self,
        instance: &BinPackingInstance,
        duals: &Vec<i64>,
        farkas: bool,
        decisions: &BranchingDecisions,
    ) -> (outcome: PricingOutcome)
        ensures
            priced(outcome, instance.item_sizes@, duals@, instance.capacity, decisions@, farkas),
    {
        if decisions.is_contradictory() {
            return PricingOutcome::NoColumns;
        }
        match solve_knapsack(
            instance.item_sizes.as_slice(),
            duals.as_slice(),
            instance.capacity,
            decisions,
        ) {
            None => PricingOutcome::NoColumns,
            Some((pattern, value)) => {
                let coefficient: i128 = if farkas {
                    0
                } else {
                    ONE as i128
                };
                if value > coefficient + EPSILON as i128 {
                    PricingOutcome::FoundColumns { pattern, value }
                } else {
                    PricingOutcome::NoColumns
                }
            },
        }
    }

    /// Answers the engine's request for new columns at `node`.
    ///
    /// Picks the duals of the active regime, looks up the decisions of
    /// the node and prices the patterns under them.  Fails if the engine
    /// lacks a dual value, or else if the node has no record.
    pub fn generate_columns(
        &self,
        instance: &BinPackingInstance,
        item_constraints: &Vec<ConstraintDuals>,
        decisions: &BranchingDecisionMap,
        node: BBNodeId,
        farkas: bool,
    ) -> (r: Result<PricingOutcome, PricingError>)
        ensures
            match r {
                Ok(outcome) => {
                    &&& duals_known(item_constraints@, farkas)
                    &&& decisions@.contains_key(node)
                    &&& priced(
                        outcome,
                        instance.item_sizes@,
                        active_duals(item_constraints@, farkas),
                        instance.capacity,
                        decisions@[node],
                        farkas,
                    )
                },
                Err(PricingError::MissingDual(item)) => first_missing_dual(
                    item_constraints@,
                    farkas,
                    item as int,
                ),
                Err(PricingError::UnknownNode(n)) => {
                    &&& n == node
                    &&& duals_known(item_constraints@, farkas)
                    &&& !decisions@.contains_key(node)
                },
            },
    {
        let duals = match get_duals(item_constraints, farkas) {
            Ok(duals) => duals,
            Err(e) => {
                return Err(e);
            },
        };
        match decisions.get(node) {
            Some(record) => Ok(self.price(instance, &duals, farkas, record)),
            None => Err(PricingError::UnknownNode(node)),
        }
    }
}

} // verus!
