//! Reading the result of a finished search: the patterns of the columns
//! that the best solution uses, and whether they pack the instance.

use crate::fixed::{EPSILON, ONE};
use crate::instance::{is_packing, patterns_view, BinPackingInstance};
use crate::patterns::{copy_pattern, PatternForVar, VarId};
use vstd::prelude::*;

verus! {

/// The value of a column in the best solution, in fixed-point units.
#[derive(Debug, Clone, Copy, PartialEq, Eq, Structural)]
pub struct ColumnValue {
    pub var: VarId,
    pub value: i64,
}

/// A column that the solution uses has no recorded pattern.
#[derive(Debug, Clone, Copy, PartialEq, Eq, Structural)]
pub struct MissingPattern(pub VarId);

/// Whether the solution uses the column: its value exceeds the tolerance.
pub open spec fn in_solution(column: ColumnValue) -> bool {
    column.value > EPSILON
}

/// Whether every column that the solution uses has a recorded pattern.
pub open spec fn solution_known(patterns: Map<VarId, Seq<usize>>, values: Seq<ColumnValue>) -> bool {
    forall|k: int|
        0 <= k < values.len() && in_solution(#[trigger] values[k]) ==> patterns.contains_key(
            values[k].var,
        )
}

/// Whether column `k` is the first that the solution uses and that has no
/// recorded pattern.
pub open spec fn first_unknown(
    patterns: Map<VarId, Seq<usize>>,
    values: Seq<ColumnValue>,
    k: int,
) -> bool {
    &&& 0 <= k < values.len()
    &&& in_solution(values[k])
    &&& !patterns.contains_key(values[k].var)
    &&& solution_known(patterns, values.take(k))
}

/// The patterns of the columns that the solution uses, in the order of
/// the columns.
pub open spec fn solution_patterns(
    patterns: Map<VarId, Seq<usize>>,
    values: Seq<ColumnValue>,
) -> Seq<Seq<usize>>
    decreases values.len(),
{
    if values.len() == 0 {
        Seq::empty()
    } else {
        let before = solution_patterns(patterns, values.drop_last());
        if in_solution(values.last()) {
            before.push(patterns[values.last().var])
        } else {
            before
        }
    }
}

/// Whether an objective value, in fixed-point units, is the number of
/// bins, up to the tolerance.
pub open spec fn counts_bins(objective: i64, bins: nat) -> bool {
    -EPSILON <= objective - bins * ONE <= EPSILON
}

/// Lists the patterns of the columns that the solution uses, in the order
/// of the columns.  Fails on the first such column without a recorded
/// pattern.
pub fn collect_patterns(pattern_for_var: &PatternForVar, values: &Vec<ColumnValue>) -> (r: Result<
    Vec<Vec<usize>>,
    MissingPattern,
>)
    ensures
        match r {
            Ok(found) => solution_known(pattern_for_var@, values@) && patterns_view(found@)
                == solution_patterns(pattern_for_var@, values@),
            Err(MissingPattern(var)) => exists|k: int| #[trigger]
                first_unknown(pattern_for_var@, values@, k) && values@[k].var == var,
        },
{
    let mut found: Vec<Vec<usize>> = Vec::new();
    let mut k: usize = 0;
    while k < values.len()
        invariant
            k <= values.len(),
            solution_known(pattern_for_var@, values@.take(k as int)),
            patterns_view(found@) == solution_patterns(pattern_for_var@, values@.take(k as int)),
        decreases values.len() - k,
    {
        let column = values[k];
        proof {
            assert(values@.take(k + 1).drop_last() =~= values@.take(k as int));
        }
        if column.value > EPSILON {
            match pattern_for_var.get(column.var) {
                Some(pattern) => {
                    let ghost before = found@;
                    found.push(copy_pattern(pattern));
                    assert(patterns_view(found@) =~= patterns_view(before).push(pattern@));
                },
                None => {
                    assert(first_unknown(pattern_for_var@, values@, k as int));
                    return Err(MissingPattern(column.var));
                },
            }
        }
        k += 1;
    }
    assert(values@.take(values@.len() as int) =~= values@);
    Ok(found)
}

/// Tells whether `patterns` pack the instance and `objective` is their
/// number.
pub fn is_solution(instance: &BinPackingInstance, patterns: &Vec<Vec<usize>>, objective: i64) -> (r:
    bool)
    ensures
        r == (is_packing(instance.item_sizes@, instance.capacity, patterns_view(patterns@))
            && counts_bins(objective, patterns@.len())),
{
    let bins = patterns.len();
    assert(0 <= bins * ONE <= 0xffff_ffff_ffff_ffff * ONE) by (nonlinear_arith)
        requires
            0 <= bins <= 0xffff_ffff_ffff_ffff,
            ONE == 1_000_000_000,
    ;
    let expected: i128 = bins as i128 * ONE as i128;
    let gap: i128 = objective as i128 - expected;
    let low: i128 = -(EPSILON as i128);
    let high: i128 = EPSILON as i128;
    low <= gap && gap <= high && instance.is_packing(patterns)
}

} // verus!
