//! Ryan-Foster branching: split a node on a pair of items that the
//! fractional solution packs together only in part.
//!
//! The *mass* of a pair of items is the summed LP value of the candidate
//! columns whose pattern holds both.  The rule branches on the pair of
//! greatest mass strictly between the tolerance and one minus the
//! tolerance; among pairs of equal mass the lexicographically smallest
//! wins.  One child keeps the pair apart, the other packs it together,
//! and each child has the columns that contradict its decision fixed to
//! zero.

use crate::decisions::{
    branch_error, branched, lemma_branched_records, BBNodeId, BranchingDecisionMap, DecisionSets,
    Pair, StoreError,
};
use crate::fixed::{EPSILON, ONE};
use crate::patterns::{holds_both, holds_one, pattern_holds, PatternForVar, VarId};
use crate::pricing::{
    lemma_found_column_keeps_apart, lemma_found_column_keeps_together, priced, PricingOutcome,
};
use vstd::prelude::*;

verus! {

/// A column with a fractional value in the LP solution of the node.
#[derive(Debug, Clone, Copy, PartialEq, Eq, Structural)]
pub struct Candidate {
    /// The column.
    pub var: VarId,
    /// Its value in the LP solution, in fixed-point units.
    pub lp_value: i64,
}

/// A column of the master problem as the node sees it.
#[derive(Debug, Clone, Copy, PartialEq, Eq, Structural)]
pub struct Column {
    /// The column.
    pub var: VarId,
    /// Its local upper bound, in fixed-point units.
    pub upper_bound: i64,
}

/// Why a node could not be branched.
#[derive(Debug, Clone, Copy, PartialEq, Eq, Structural)]
pub enum BranchingError {
    /// A column has no recorded pattern.
    MissingPattern(VarId),
    /// No pair of items has a fractional mass.
    NoFractionalPair,
    /// The node to branch has no record of decisions.
    UnknownNode(BBNodeId),
    /// A child node already has a record of decisions.
    NodeAlreadyRecorded(BBNodeId),
}

/// The outcome of branching a node.
#[derive(Debug)]
pub struct Branching {
    /// The pair of items branched on, smaller index first.
    pub pair: Pair,
    /// The columns to fix to zero in the child that keeps the pair apart.
    pub fixed_apart: Vec<VarId>,
    /// The columns to fix to zero in the child that packs the pair together.
    pub fixed_together: Vec<VarId>,
}

/// The Ryan-Foster branching rule.
pub struct RyanFoster;

/// The summed LP value of the candidates whose pattern holds both `i`
/// and `j`.
pub open spec fn pair_mass(
    patterns: Map<VarId, Seq<usize>>,
    candidates: Seq<Candidate>,
    i: usize,
    j: usize,
) -> int
    decreases candidates.len(),
{
    if candidates.len() == 0 {
        0
    } else {
        let c = candidates.last();
        pair_mass(patterns, candidates.drop_last(), i, j) + if patterns.contains_key(c.var)
            && holds_both(patterns[c.var], i, j) {
            c.lp_value as int
        } else {
            0
        }
    }
}

/// Whether a mass lies strictly between the tolerance and one minus the
/// tolerance.
pub open spec fn fractional(mass: int) -> bool {
    EPSILON < mass < ONE - EPSILON
}

/// Whether a pair `p` of mass `mass_p` is to be branched on rather than a
/// pair `q` of mass `mass_q`, or is the same choice: greater mass first,
/// then the lexicographically smaller pair.
pub open spec fn preferred(mass_p: int, p: Pair, mass_q: int, q: Pair) -> bool {
    mass_p > mass_q || (mass_p == mass_q && (p.0 < q.0 || (p.0 == q.0 && p.1 <= q.1)))
}

/// Whether some pair of distinct items has a fractional mass.
pub open spec fn has_fractional_pair(
    patterns: Map<VarId, Seq<usize>>,
    candidates: Seq<Candidate>,
) -> bool {
    exists|i: usize, j: usize|
        i < j && fractional(#[trigger] pair_mass(patterns, candidates, i, j))
}

/// Whether `p` is the pair to branch on: it has a fractional mass, and it
/// is preferred to every other pair that has one.
pub open spec fn branching_pair(
    patterns: Map<VarId, Seq<usize>>,
    candidates: Seq<Candidate>,
    p: Pair,
) -> bool {
    &&& p.0 < p.1
    &&& fractional(pair_mass(patterns, candidates, p.0, p.1))
    &&& forall|i: usize, j: usize|
        i < j && fractional(#[trigger] pair_mass(patterns, candidates, i, j)) ==> preferred(
            pair_mass(patterns, candidates, p.0, p.1),
            p,
            pair_mass(patterns, candidates, i, j),
            Pair(i, j),
        )
}

/// The first candidate without a recorded pattern, if there is one.
pub open spec fn unknown_candidate(
    patterns: Map<VarId, Seq<usize>>,
    candidates: Seq<Candidate>,
) -> Option<VarId>
    decreases candidates.len(),
{
    if candidates.len() == 0 {
        None
    } else {
        match unknown_candidate(patterns, candidates.drop_last()) {
            Some(var) => Some(var),
            None => if patterns.contains_key(candidates.last().var) {
                None
            } else {
                Some(candidates.last().var)
            },
        }
    }
}

/// Whether a column is not yet fixed to zero at the node.
pub open spec fn unfixed(column: Column) -> bool {
    column.upper_bound > EPSILON
}

/// The first unfixed column without a recorded pattern, if there is one.
pub open spec fn unknown_column(patterns: Map<VarId, Seq<usize>>, columns: Seq<Column>) -> Option<
    VarId,
>
    decreases columns.len(),
{
    if columns.len() == 0 {
        None
    } else {
        match unknown_column(patterns, columns.drop_last()) {
            Some(var) => Some(var),
            None => if !unfixed(columns.last()) || patterns.contains_key(columns.last().var) {
                None
            } else {
                Some(columns.last().var)
            },
        }
    }
}

/// The columns to fix to zero in the child that keeps `pair` apart: the
/// unfixed columns whose pattern holds both items, in the order given.
pub open spec fn apart_fixings(
    patterns: Map<VarId, Seq<usize>>,
    columns: Seq<Column>,
    pair: Pair,
) -> Seq<VarId>
    decreases columns.len(),
{
    if columns.len() == 0 {
        Seq::empty()
    } else {
        let c = columns.last();
        let before = apart_fixings(patterns, columns.drop_last(), pair);
        if unfixed(c) && patterns.contains_key(c.var) && holds_both(
            patterns[c.var],
            pair.0,
            pair.1,
        ) {
            before.push(c.var)
        } else {
            before
        }
    }
}

/// The columns to fix to zero in the child that packs `pair` together:
/// the unfixed columns whose pattern holds exactly one of the two items,
/// in the order given.
pub open spec fn together_fixings(
    patterns: Map<VarId, Seq<usize>>,
    columns: Seq<Column>,
    pair: Pair,
) -> Seq<VarId>
    decreases columns.len(),
{
    if columns.len() == 0 {
        Seq::empty()
    } else {
        let c = columns.last();
        let before = together_fixings(patterns, columns.drop_last(), pair);
        if unfixed(c) && patterns.contains_key(c.var) && holds_one(
            patterns[c.var],
            pair.0,
            pair.1,
        ) {
            before.push(c.var)
        } else {
            before
        }
    }
}

/// The error, if any, that keeps `node` from being branched: a candidate
/// without a pattern, no fractional pair, a node without a record or a
/// child that has one, an unfixed column without a pattern, in this order.
pub open spec fn branching_obstacle(
    patterns: Map<VarId, Seq<usize>>,
    candidates: Seq<Candidate>,
    columns: Seq<Column>,
    store: Map<BBNodeId, DecisionSets>,
    node: BBNodeId,
    apart_child: BBNodeId,
    together_child: BBNodeId,
) -> Option<BranchingError> {
    match unknown_candidate(patterns, candidates) {
        Some(var) => Some(BranchingError::MissingPattern(var)),
        None => if !has_fractional_pair(patterns, candidates) {
            Some(BranchingError::NoFractionalPair)
        } else {
            match branch_error(store, node, apart_child, together_child) {
                Some(StoreError::UnknownNode(n)) => Some(BranchingError::UnknownNode(n)),
                Some(StoreError::NodeAlreadyRecorded(n)) => Some(
                    BranchingError::NodeAlreadyRecorded(n),
                ),
                None => match unknown_column(patterns, columns) {
                    Some(var) => Some(BranchingError::MissingPattern(var)),
                    None => None,
                },
            }
        },
    }
}

/// At most one pair is the pair to branch on: the choice is a function of
/// the candidates' patterns and LP values.
pub proof fn lemma_branching_pair_unique(
    patterns: Map<VarId, Seq<usize>>,
    candidates: Seq<Candidate>,
    p: Pair,
    q: Pair,
)
    requires
        branching_pair(patterns, candidates, p),
        branching_pair(patterns, candidates, q),
    ensures
        p == q,
{
    let mass_p = pair_mass(patterns, candidates, p.0, p.1);
    let mass_q = pair_mass(patterns, candidates, q.0, q.1);
    assert(preferred(mass_p, p, mass_q, Pair(q.0, q.1)));
    assert(preferred(mass_q, q, mass_p, Pair(p.0, p.1)));
}

/// The pair to branch on exists exactly when some pair has a fractional
/// mass.
pub proof fn lemma_branching_pair_needs_fractional(
    patterns: Map<VarId, Seq<usize>>,
    candidates: Seq<Candidate>,
    p: Pair,
)
    requires
        branching_pair(patterns, candidates, p),
    ensures
        has_fractional_pair(patterns, candidates),
{
}

/// Whether column `k` is not yet fixed and has a pattern that holds both
/// items of `pair`.
pub open spec fn breaks_apart(
    patterns: Map<VarId, Seq<usize>>,
    columns: Seq<Column>,
    pair: Pair,
    k: int,
) -> bool {
    &&& 0 <= k < columns.len()
    &&& unfixed(columns[k])
    &&& patterns.contains_key(columns[k].var)
    &&& holds_both(patterns[columns[k].var], pair.0, pair.1)
}

/// Whether column `k` is not yet fixed and has a pattern that holds
/// exactly one item of `pair`.
pub open spec fn breaks_together(
    patterns: Map<VarId, Seq<usize>>,
    columns: Seq<Column>,
    pair: Pair,
    k: int,
) -> bool {
    &&& 0 <= k < columns.len()
    &&& unfixed(columns[k])
    &&& patterns.contains_key(columns[k].var)
    &&& holds_one(patterns[columns[k].var], pair.0, pair.1)
}

/// The columns fixed in the child that keeps the pair apart are exactly
/// the unfixed columns whose pattern holds both items.
pub proof fn lemma_apart_fixings_exact(
    patterns: Map<VarId, Seq<usize>>,
    columns: Seq<Column>,
    pair: Pair,
    var: VarId,
)
    ensures
        apart_fixings(patterns, columns, pair).contains(var) <==> exists|k: int| #[trigger]
            breaks_apart(patterns, columns, pair, k) && columns[k].var == var,
    decreases columns.len(),
{
    if columns.len() > 0 {
        let before = columns.drop_last();
        let last = columns.len() - 1;
        lemma_apart_fixings_exact(patterns, before, pair, var);
        let listed = apart_fixings(patterns, before, pair);
        if apart_fixings(patterns, columns, pair).contains(var) {
            if breaks_apart(patterns, columns, pair, last) && columns[last].var == var {
            } else {
                if breaks_apart(patterns, columns, pair, last) {
                    let m = choose|m: int|
                        0 <= m < listed.push(columns[last].var).len() && listed.push(
                            columns[last].var,
                        )[m] == var;
                    assert(listed[m] == var);
                }
                let k = choose|k: int| #[trigger]
                    breaks_apart(patterns, before, pair, k) && before[k].var == var;
                assert(breaks_apart(patterns, columns, pair, k));
            }
        }
        if exists|k: int| #[trigger]
            breaks_apart(patterns, columns, pair, k) && columns[k].var == var {
            let k = choose|k: int| #[trigger]
                breaks_apart(patterns, columns, pair, k) && columns[k].var == var;
            if k < last {
                assert(breaks_apart(patterns, before, pair, k) && before[k].var == var);
                let m = choose|m: int| 0 <= m < listed.len() && listed[m] == var;
                if breaks_apart(patterns, columns, pair, last) {
                    assert(listed.push(columns[last].var)[m] == var);
                }
            } else {
                assert(listed.push(var)[listed.len() as int] == var);
            }
        }
    }
}

/// The columns fixed in the child that packs the pair together are
/// exactly the unfixed columns whose pattern holds one item but not the
/// other.
pub proof fn lemma_together_fixings_exact(
    patterns: Map<VarId, Seq<usize>>,
    columns: Seq<Column>,
    pair: Pair,
    var: VarId,
)
    ensures
        together_fixings(patterns, columns, pair).contains(var) <==> exists|k: int| #[trigger]
            breaks_together(patterns, columns, pair, k) && columns[k].var == var,
    decreases columns.len(),
{
    if columns.len() > 0 {
        let before = columns.drop_last();
        let last = columns.len() - 1;
        lemma_together_fixings_exact(patterns, before, pair, var);
        let listed = together_fixings(patterns, before, pair);
        if together_fixings(patterns, columns, pair).contains(var) {
            if breaks_together(patterns, columns, pair, last) && columns[last].var == var {
            } else {
                if breaks_together(patterns, columns, pair, last) {
                    let m = choose|m: int|
                        0 <= m < listed.push(columns[last].var).len() && listed.push(
                            columns[last].var,
                        )[m] == var;
                    assert(listed[m] == var);
                }
                let k = choose|k: int| #[trigger]
                    breaks_together(patterns, before, pair, k) && before[k].var == var;
                assert(breaks_together(patterns, columns, pair, k));
            }
        }
        if exists|k: int| #[trigger]
            breaks_together(patterns, columns, pair, k) && columns[k].var == var {
            let k = choose|k: int| #[trigger]
                breaks_together(patterns, columns, pair, k) && columns[k].var == var;
            if k < last {
                assert(breaks_together(patterns, before, pair, k) && before[k].var == var);
                let m = choose|m: int| 0 <= m < listed.len() && listed[m] == var;
                if breaks_together(patterns, columns, pair, last) {
                    assert(listed.push(columns[last].var)[m] == var);
                }
            } else {
                assert(listed.push(var)[listed.len() as int] == var);
            }
        }
    }
}

/// After a node has been branched on a pair, no column that pricing
/// yields in the subtree of the child that keeps the pair apart packs
/// both items: the decisions of a node of that subtree include those of
/// the child.
pub proof fn lemma_apart_subtree_columns(
    store: Map<BBNodeId, DecisionSets>,
    node: BBNodeId,
    apart_child: BBNodeId,
    together_child: BBNodeId,
    pair: Pair,
    d: DecisionSets,
    outcome: PricingOutcome,
    sizes: Seq<u64>,
    duals: Seq<i64>,
    capacity: u64,
    farkas: bool,
)
    requires
        branch_error(store, node, apart_child, together_child) is None,
        branched(store, node, apart_child, together_child, pair)[apart_child].within(d),
        priced(outcome, sizes, duals, capacity, d, farkas),
    ensures
        outcome matches PricingOutcome::FoundColumns { pattern, .. } ==> !holds_both(
            pattern@,
            pair.0,
            pair.1,
        ),
{
    lemma_branched_records(store, node, apart_child, together_child, pair);
    let record = branched(store, node, apart_child, together_child, pair)[apart_child];
    lemma_found_column_keeps_apart(outcome, sizes, duals, capacity, record, d, farkas, pair);
}

/// After a node has been branched on a pair, no column that pricing
/// yields in the subtree of the child that packs the pair together packs
/// exactly one of the two items.
pub proof fn lemma_together_subtree_columns(
    store: Map<BBNodeId, DecisionSets>,
    node: BBNodeId,
    apart_child: BBNodeId,
    together_child: BBNodeId,
    pair: Pair,
    d: DecisionSets,
    outcome: PricingOutcome,
    sizes: Seq<u64>,
    duals: Seq<i64>,
    capacity: u64,
    farkas: bool,
)
    requires
        branch_error(store, node, apart_child, together_child) is None,
        branched(store, node, apart_child, together_child, pair)[together_child].within(d),
        priced(outcome, sizes, duals, capacity, d, farkas),
    ensures
        outcome matches PricingOutcome::FoundColumns { pattern, .. } ==> !holds_one(
            pattern@,
            pair.0,
            pair.1,
        ),
{
    lemma_branched_records(store, node, apart_child, together_child, pair);
    let record = branched(store, node, apart_child, together_child, pair)[together_child];
    lemma_found_column_keeps_together(outcome, sizes, duals, capacity, record, d, farkas, pair);
}

proof fn lemma_unknown_candidate_stays(
    patterns: Map<VarId, Seq<usize>>,
    candidates: Seq<Candidate>,
    k: int,
)
    requires
        0 <= k <= candidates.len(),
        unknown_candidate(patterns, candidates.take(k)) is Some,
    ensures
        unknown_candidate(patterns, candidates) == unknown_candidate(patterns, candidates.take(k)),
    decreases candidates.len() - k,
{
    if k == candidates.len() {
        assert(candidates.take(k) =~= candidates);
    } else {
        assert(candidates.take(k + 1).drop_last() =~= candidates.take(k));
        lemma_unknown_candidate_stays(patterns, candidates, k + 1);
    }
}

proof fn lemma_unknown_column_stays(
    patterns: Map<VarId, Seq<usize>>,
    columns: Seq<Column>,
    k: int,
)
    requires
        0 <= k <= columns.len(),
        unknown_column(patterns, columns.take(k)) is Some,
    ensures
        unknown_column(patterns, columns) == unknown_column(patterns, columns.take(k)),
    decreases columns.len() - k,
{
    if k == columns.len() {
        assert(columns.take(k) =~= columns);
    } else {
        assert(columns.take(k + 1).drop_last() =~= columns.take(k));
        lemma_unknown_column_stays(patterns, columns, k + 1);
    }
}

proof fn lemma_known_candidates(
    patterns: Map<VarId, Seq<usize>>,
    candidates: Seq<Candidate>,
    k: int,
)
    requires
        unknown_candidate(patterns, candidates) is None,
        0 <= k < candidates.len(),
    ensures
        patterns.contains_key(candidates[k].var),
    decreases candidates.len(),
{
    if k < candidates.len() - 1 {
        lemma_known_candidates(patterns, candidates.drop_last(), k);
    }
}

proof fn lemma_mass_bounds(
    patterns: Map<VarId, Seq<usize>>,
    candidates: Seq<Candidate>,
    i: usize,
    j: usize,
)
    ensures
        -(candidates.len() * 0x8000_0000_0000_0000) <= pair_mass(patterns, candidates, i, j)
            <= candidates.len() * 0x8000_0000_0000_0000,
    decreases candidates.len(),
{
    if candidates.len() > 0 {
        lemma_mass_bounds(patterns, candidates.drop_last(), i, j);
        assert(candidates.drop_last().len() * 0x8000_0000_0000_0000 + 0x8000_0000_0000_0000
            == candidates.len() * 0x8000_0000_0000_0000) by (nonlinear_arith)
            requires
                candidates.drop_last().len() + 1 == candidates.len(),
        ;
    }
}

/// A pair has mass only if some candidate's pattern holds both its items.
proof fn lemma_mass_needs_pattern(
    patterns: Map<VarId, Seq<usize>>,
    candidates: Seq<Candidate>,
    i: usize,
    j: usize,
) -> (k: int)
    requires
        pair_mass(patterns, candidates, i, j) != 0,
    ensures
        0 <= k < candidates.len(),
        patterns.contains_key(candidates[k].var),
        holds_both(patterns[candidates[k].var], i, j),
    decreases candidates.len(),
{
    let c = candidates.last();
    if patterns.contains_key(c.var) && holds_both(patterns[c.var], i, j) {
        candidates.len() - 1
    } else {
        lemma_mass_needs_pattern(patterns, candidates.drop_last(), i, j)
    }
}

/// Computes the mass of a pair of items.
fn mass_of(patterns: &PatternForVar, candidates: &Vec<Candidate>, i: usize, j: usize) -> (mass:
    i128)
    ensures
        mass == pair_mass(patterns@, candidates@, i, j),
{
    let mut mass: i128 = 0;
    let mut k: usize = 0;
    while k < candidates.len()
        invariant
            k <= candidates.len(),
            mass == pair_mass(patterns@, candidates@.take(k as int), i, j),
        decreases candidates.len() - k,
    {
        proof {
            lemma_mass_bounds(patterns@, candidates@.take(k as int), i, j);
            assert(k * 0x8000_0000_0000_0000 <= 0xffff_ffff_ffff_fffe * 0x8000_0000_0000_0000)
                by (nonlinear_arith)
                requires
                    k <= 0xffff_ffff_ffff_fffe,
            ;
            assert(candidates@.take(k + 1).drop_last() =~= candidates@.take(k as int));
        }
        let c = candidates[k];
        match patterns.get(c.var) {
            Some(pattern) => {
                if pattern_holds(pattern, i) && pattern_holds(pattern, j) {
                    mass = mass + c.lp_value as i128;
                }
            },
            None => {},
        }
        k += 1;
    }
    assert(candidates@.take(candidates@.len() as int) =~= candidates@);
    mass
}

/// The pair and mass that lead the choice so far, if any pair does.
type Lead = Option<(Pair, i128)>;

/// Whether the leading pair, if there is one, has the fractional mass it
/// is listed with.
spec fn lead_valid(patterns: Map<VarId, Seq<usize>>, candidates: Seq<Candidate>, lead: Lead) -> bool {
    lead matches Some((p, mass)) ==> p.0 < p.1 && mass == pair_mass(patterns, candidates, p.0, p.1)
        && fractional(mass as int)
}

/// Whether the choice between the two items `a` and `b`, in either order,
/// is settled by `lead`: if the pair has a fractional mass, then the
/// leading pair is preferred to it.
spec fn accounted(
    patterns: Map<VarId, Seq<usize>>,
    candidates: Seq<Candidate>,
    lead: Lead,
    a: usize,
    b: usize,
) -> bool {
    let i = if a < b {
        a
    } else {
        b
    };
    let j = if a < b {
        b
    } else {
        a
    };
    i < j && fractional(pair_mass(patterns, candidates, i, j)) ==> lead is Some && preferred(
        lead.unwrap().1 as int,
        lead.unwrap().0,
        pair_mass(patterns, candidates, i, j),
        Pair(i, j),
    )
}

/// Whether `next` leads at least as well as `lead`.
spec fn advances(lead: Lead, next: Lead) -> bool {
    lead is Some ==> next is Some && preferred(
        next.unwrap().1 as int,
        next.unwrap().0,
        lead.unwrap().1 as int,
        lead.unwrap().0,
    )
}

proof fn lemma_accounted_kept(
    patterns: Map<VarId, Seq<usize>>,
    candidates: Seq<Candidate>,
    lead: Lead,
    next: Lead,
    a: usize,
    b: usize,
)
    requires
        advances(lead, next),
        accounted(patterns, candidates, lead, a, b),
    ensures
        accounted(patterns, candidates, next, a, b),
{
}

/// Lets the pair of items `a` and `b` compete with the leading pair.
fn consider(
    patterns: &PatternForVar,
    candidates: &Vec<Candidate>,
    lead: Lead,
    a: usize,
    b: usize,
) -> (next: Lead)
    requires
        lead_valid(patterns@, candidates@, lead),
    ensures
        lead_valid(patterns@, candidates@, next),
        advances(lead, next),
        accounted(patterns@, candidates@, next, a, b),
{
    if a == b {
        return lead;
    }
    let i = if a < b {
        a
    } else {
        b
    };
    let j = if a < b {
        b
    } else {
        a
    };
    let mass = mass_of(patterns, candidates, i, j);
    let low: i128 = EPSILON as i128;
    let high: i128 = (ONE - EPSILON) as i128;
    if !(low < mass && mass < high) {
        return lead;
    }
    match lead {
        None => Some((Pair(i, j), mass)),
        Some((p, best)) => {
            if mass > best || (mass == best && (i < p.0 || (i == p.0 && j < p.1))) {
                Some((Pair(i, j), mass))
            } else {
                lead
            }
        },
    }
}

/// The item at position `a` of the pattern of candidate `c`.
spec fn item_at(
    patterns: Map<VarId, Seq<usize>>,
    candidates: Seq<Candidate>,
    c: int,
    a: int,
) -> usize {
    patterns[candidates[c].var][a]
}

/// The number of items in the pattern of candidate `c`.
spec fn items_of(patterns: Map<VarId, Seq<usize>>, candidates: Seq<Candidate>, c: int) -> int {
    patterns[candidates[c].var].len() as int
}

/// Whether every two items of the patterns of the first `c` candidates
/// are accounted for by `lead`.
spec fn candidates_accounted(
    patterns: Map<VarId, Seq<usize>>,
    candidates: Seq<Candidate>,
    lead: Lead,
    c: int,
) -> bool {
    forall|k: int, a: int, b: int|
        #![trigger item_at(patterns, candidates, k, a), item_at(patterns, candidates, k, b)]
        0 <= k < c && 0 <= a < b < items_of(patterns, candidates, k) ==> accounted(
            patterns,
            candidates,
            lead,
            item_at(patterns, candidates, k, a),
            item_at(patterns, candidates, k, b),
        )
}

/// Whether every two items of `pattern` of which the first stands before
/// position `a` are accounted for by `lead`.
spec fn rows_accounted(
    patterns: Map<VarId, Seq<usize>>,
    candidates: Seq<Candidate>,
    lead: Lead,
    pattern: Seq<usize>,
    a: int,
) -> bool {
    forall|r: int, s: int|
        #![trigger pattern[r], pattern[s]]
        0 <= r < a && r < s < pattern.len() ==> accounted(
            patterns,
            candidates,
            lead,
            pattern[r],
            pattern[s],
        )
}

/// Whether the item at position `a` of `pattern` and every item between
/// it and position `b` are accounted for by `lead`.
spec fn row_accounted(
    patterns: Map<VarId, Seq<usize>>,
    candidates: Seq<Candidate>,
    lead: Lead,
    pattern: Seq<usize>,
    a: int,
    b: int,
) -> bool {
    forall|s: int|
        #![trigger pattern[s]]
        a < s < b ==> accounted(patterns, candidates, lead, pattern[a], pattern[s])
}

/// Lets every two items of `pattern` compete with the leading pair.
fn consider_pattern(
    patterns: &PatternForVar,
    candidates: &Vec<Candidate>,
    lead: Lead,
    pattern: &Vec<usize>,
) -> (next: Lead)
    requires
        lead_valid(patterns@, candidates@, lead),
    ensures
        lead_valid(patterns@, candidates@, next),
        advances(lead, next),
        rows_accounted(patterns@, candidates@, next, pattern@, pattern@.len() as int),
{
    let mut current = lead;
    let mut a: usize = 0;
    while a < pattern.len()
        invariant
            a <= pattern.len(),
            lead_valid(patterns@, candidates@, current),
            advances(lead, current),
            rows_accounted(patterns@, candidates@, current, pattern@, a as int),
        decreases pattern.len() - a,
    {
        let mut b: usize = a + 1;
        while b < pattern.len()
            invariant
                a < pattern.len(),
                a < b <= pattern.len(),
                lead_valid(patterns@, candidates@, current),
                advances(lead, current),
                rows_accounted(patterns@, candidates@, current, pattern@, a as int),
                row_accounted(patterns@, candidates@, current, pattern@, a as int, b as int),
            decreases pattern.len() - b,
        {
            let ghost before = current;
            current = consider(patterns, candidates, current, pattern[a], pattern[b]);
            proof {
                assert forall|r: int, s: int|
                    #![trigger pattern@[r], pattern@[s]]
                    0 <= r < a && r < s < pattern@.len() implies accounted(
                    patterns@,
                    candidates@,
                    current,
                    pattern@[r],
                    pattern@[s],
                ) by {
                    lemma_accounted_kept(
                        patterns@,
                        candidates@,
                        before,
                        current,
                        pattern@[r],
                        pattern@[s],
                    );
                }
                assert forall|s: int|
                    #![trigger pattern@[s]]
                    a < s < b + 1 implies accounted(
                    patterns@,
                    candidates@,
                    current,
                    pattern@[a as int],
                    pattern@[s],
                ) by {
                    if s < b {
                        lemma_accounted_kept(
                            patterns@,
                            candidates@,
                            before,
                            current,
                            pattern@[a as int],
                            pattern@[s],
                        );
                    }
                }
            }
            b += 1;
        }
        a += 1;
    }
    current
}

/// Lists, for each child, the columns to fix to zero, or names the first
/// unfixed column without a recorded pattern.
fn fixings(patterns: &PatternForVar, columns: &Vec<Column>, pair: Pair) -> (r: Result<
    (Vec<VarId>, Vec<VarId>),
    VarId,
>)
    ensures
        match r {
            Ok((apart, together)) => {
                &&& unknown_column(patterns@, columns@) is None
                &&& apart@ == apart_fixings(patterns@, columns@, pair)
                &&& together@ == together_fixings(patterns@, columns@, pair)
            },
            Err(var) => unknown_column(patterns@, columns@) == Some(var),
        },
{
    let mut apart: Vec<VarId> = Vec::new();
    let mut together: Vec<VarId> = Vec::new();
    let mut k: usize = 0;
    while k < columns.len()
        invariant
            k <= columns.len(),
            unknown_column(patterns@, columns@.take(k as int)) is None,
            apart@ == apart_fixings(patterns@, columns@.take(k as int), pair),
            together@ == together_fixings(patterns@, columns@.take(k as int), pair),
        decreases columns.len() - k,
    {
        let column = columns[k];
        proof {
            assert(columns@.take(k + 1).drop_last() =~= columns@.take(k as int));
        }
        if column.upper_bound > EPSILON {
            match patterns.get(column.var) {
                Some(pattern) => {
                    let first = pattern_holds(pattern, pair.0);
                    let second = pattern_holds(pattern, pair.1);
                    if first && second {
                        apart.push(column.var);
                    }
                    if first != second {
                        together.push(column.var);
                    }
                },
                None => {
                    proof {
                        lemma_unknown_column_stays(patterns@, columns@, k + 1);
                    }
                    return Err(column.var);
                },
            }
        }
        k += 1;
    }
    assert(columns@.take(columns@.len() as int) =~= columns@);
    Ok((apart, together))
}

impl RyanFoster {
    /// Branches `node` into two children.
    ///
    /// Chooses the pair to branch on among the fractional `candidates`,
    /// records for `apart_child` the decisions of `node` plus the pair kept
    /// apart and for `together_child` the decisions of `node` plus the
    /// pair packed together, and lists for each child the columns that
    /// the engine must fix to zero there: of the `columns` not yet fixed,
    /// those that hold both items of the pair in the child that keeps them
    /// apart, those that hold exactly one in the child that packs them
    /// together.
    ///
    /// On an error nothing is recorded.
    pub fn execute(
        &self,
        decisions: &mut BranchingDecisionMap,
        pattern_for_var: &PatternForVar,
        candidates: &Vec<Candidate>,
        columns: &Vec<Column>,
        node: BBNodeId,
        apart_child: BBNodeId,
        together_child: BBNodeId,
    ) -> (r: Result<Branching, BranchingError>)
        ensures
            match branching_obstacle(
                pattern_for_var@,
                candidates@,
                columns@,
                old(decisions)@,
                node,
                apart_child,
                together_child,
            ) {
                Some(e) => r == Err::<Branching, BranchingError>(e) && final(decisions)@ == old(
                    decisions,
                )@,
                None => {
                    &&& r matches Ok(b)
                    &&& branching_pair(pattern_for_var@, candidates@, b.pair)
                    &&& b.fixed_apart@ == apart_fixings(pattern_for_var@, columns@, b.pair)
                    &&& b.fixed_together@ == together_fixings(pattern_for_var@, columns@, b.pair)
                    &&& final(decisions)@ == branched(
                        old(decisions)@,
                        node,
                        apart_child,
                        together_child,
                        b.pair,
                    )
                },
            },
    {
        let pair = match Self::find_fractional_pair(pattern_for_var, candidates) {
            Ok(pair) => pair,
            Err(e) => {
                return Err(e);
            },
        };
        proof {
            lemma_branching_pair_needs_fractional(pattern_for_var@, candidates@, pair);
        }
        match decisions.check_branch(node, apart_child, together_child) {
            Some(StoreError::UnknownNode(n)) => {
                return Err(BranchingError::UnknownNode(n));
            },
            Some(StoreError::NodeAlreadyRecorded(n)) => {
                return Err(BranchingError::NodeAlreadyRecorded(n));
            },
            None => {},
        }
        let (fixed_apart, fixed_together) = match fixings(pattern_for_var, columns, pair) {
            Ok(lists) => lists,
            Err(var) => {
                return Err(BranchingError::MissingPattern(var));
            },
        };
        let recorded = decisions.branch(node, apart_child, together_child, pair);
        assert(recorded is Ok);
        Ok(Branching { pair, fixed_apart, fixed_together })
    }

    /// Chooses the pair of items to branch on.
    ///
    /// Fails with `MissingPattern` if a candidate has no recorded pattern
    /// (the first such candidate is named), and with `NoFractionalPair` if
    /// every pattern is known but no pair has a fractional mass.
    pub fn find_fractional_pair(
        pattern_for_var: &PatternForVar,
        candidates: &Vec<Candidate>,
    ) -> (r: Result<Pair, BranchingError>)
        ensures
            match r {
                Ok(p) => unknown_candidate(pattern_for_var@, candidates@) is None
                    && branching_pair(pattern_for_var@, candidates@, p),
                Err(BranchingError::MissingPattern(var)) => unknown_candidate(
                    pattern_for_var@,
                    candidates@,
                ) == Some(var),
                Err(BranchingError::NoFractionalPair) => unknown_candidate(
                    pattern_for_var@,
                    candidates@,
                ) is None && !has_fractional_pair(pattern_for_var@, candidates@),
                Err(_) => false,
            },
    {
        let ghost patterns = pattern_for_var@;
        let mut k: usize = 0;
        while k < candidates.len()
            invariant
                k <= candidates.len(),
                unknown_candidate(pattern_for_var@, candidates@.take(k as int)) is None,
            decreases candidates.len() - k,
        {
            let var = candidates[k].var;
            proof {
                assert(candidates@.take(k + 1).drop_last() =~= candidates@.take(k as int));
            }
            if !pattern_for_var.contains(var) {
                proof {
                    lemma_unknown_candidate_stays(pattern_for_var@, candidates@, k + 1);
                }
                return Err(BranchingError::MissingPattern(var));
            }
            k += 1;
        }
        assert(candidates@.take(candidates@.len() as int) =~= candidates@);

        let mut lead: Lead = None;
        let mut c: usize = 0;
        while c < candidates.len()
            invariant
                c <= candidates.len(),
                patterns == pattern_for_var@,
                unknown_candidate(patterns, candidates@) is None,
                lead_valid(patterns, candidates@, lead),
                candidates_accounted(patterns, candidates@, lead, c as int),
            decreases candidates.len() - c,
        {
            proof {
                lemma_known_candidates(patterns, candidates@, c as int);
            }
            let ghost before = lead;
            match pattern_for_var.get(candidates[c].var) {
                Some(pattern) => {
                    lead = consider_pattern(pattern_for_var, candidates, lead, pattern);
                },
                None => {},
            }
            proof {
                assert forall|k: int, a: int, b: int|
                    #![trigger item_at(patterns, candidates@, k, a), item_at(patterns, candidates@, k, b)]
                    0 <= k < c + 1 && 0 <= a < b < items_of(
                        patterns,
                        candidates@,
                        k,
                    ) implies accounted(
                    patterns,
                    candidates@,
                    lead,
                    item_at(patterns, candidates@, k, a),
                    item_at(patterns, candidates@, k, b),
                ) by {
                    if k < c {
                        lemma_accounted_kept(
                            patterns,
                            candidates@,
                            before,
                            lead,
                            item_at(patterns, candidates@, k, a),
                            item_at(patterns, candidates@, k, b),
                        );
                    } else {
                        let pattern = patterns[candidates@[k].var];
                        assert(accounted(patterns, candidates@, lead, pattern[a], pattern[b]));
                    }
                }
            }
            c += 1;
        }
        proof {
            assert forall|i: usize, j: usize|
                i < j && fractional(
                    #[trigger] pair_mass(patterns, candidates@, i, j),
                ) implies accounted(patterns, candidates@, lead, i, j) by {
                let k = lemma_mass_needs_pattern(patterns, candidates@, i, j);
                let pattern = patterns[candidates@[k].var];
                let a = choose|a: int| 0 <= a < pattern.len() && pattern[a] == i;
                let b = choose|b: int| 0 <= b < pattern.len() && pattern[b] == j;
                if a < b {
                    assert(accounted(
                        patterns,
                        candidates@,
                        lead,
                        item_at(patterns, candidates@, k, a),
                        item_at(patterns, candidates@, k, b),
                    ));
                } else {
                    assert(accounted(
                        patterns,
                        candidates@,
                        lead,
                        item_at(patterns, candidates@, k, b),
                        item_at(patterns, candidates@, k, a),
                    ));
                }
            }
        }
        match lead {
            Some((p, _)) => Ok(p),
            None => Err(BranchingError::NoFractionalPair),
        }
    }
}

} // verus!
