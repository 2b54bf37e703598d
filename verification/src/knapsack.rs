//! The pricing subproblem: an exact 0/1 knapsack under branching decisions.
//!
//! A *selection* is a sequence of booleans, one per item: `x[i]` says
//! whether item `i` is packed.  The solver explores selections item by
//! item, depth first, and abandons a partial selection as soon as it
//! exceeds the capacity, breaks a decision both of whose items are
//! already settled, or cannot earn more than the best selection found so
//! far even if every remaining item of positive profit were packed.

use crate::decisions::{BranchingDecisions, DecisionSets, Pair};
use crate::instance::pattern_size;
use vstd::prelude::*;

verus! {

/// Whether `item` is packed by the selection `x`.  An index beyond the
/// selection is not packed.
pub open spec fn chosen(x: Seq<bool>, item: int) -> bool {
    0 <= item < x.len() && x[item]
}

/// The summed size of the items that `x` packs.
pub open spec fn total_size(sizes: Seq<u64>, x: Seq<bool>) -> int
    decreases x.len(),
{
    if x.len() == 0 {
        0
    } else {
        total_size(sizes, x.drop_last()) + if x.last() {
            sizes[x.len() - 1] as int
        } else {
            0
        }
    }
}

/// The summed profit of the items that `x` packs.
pub open spec fn total_profit(profits: Seq<i64>, x: Seq<bool>) -> int
    decreases x.len(),
{
    if x.len() == 0 {
        0
    } else {
        total_profit(profits, x.drop_last()) + if x.last() {
            profits[x.len() - 1] as int
        } else {
            0
        }
    }
}

/// Whether `x` obeys every decision: the two items of a pair to be packed
/// together are both packed or both left out, and of the two items of a
/// pair to be kept apart at most one is packed.
pub open spec fn respects(x: Seq<bool>, d: DecisionSets) -> bool {
    &&& forall|p: Pair| #[trigger]
        d.together.contains(p) ==> chosen(x, p.0 as int) == chosen(x, p.1 as int)
    &&& forall|p: Pair| #[trigger]
        d.apart.contains(p) ==> !(chosen(x, p.0 as int) && chosen(x, p.1 as int))
}

/// Whether `x` is a selection over all items that fits the capacity and
/// obeys the decisions.
pub open spec fn feasible(sizes: Seq<u64>, capacity: u64, d: DecisionSets, x: Seq<bool>) -> bool {
    x.len() == sizes.len() && total_size(sizes, x) <= capacity && respects(x, d)
}

/// Whether `x` is feasible and no feasible selection earns more.
pub open spec fn optimal(
    sizes: Seq<u64>,
    profits: Seq<i64>,
    capacity: u64,
    d: DecisionSets,
    x: Seq<bool>,
) -> bool {
    &&& feasible(sizes, capacity, d, x)
    &&& forall|y: Seq<bool>| #[trigger]
        feasible(sizes, capacity, d, y) ==> total_profit(profits, y) <= total_profit(profits, x)
}

/// Whether `items` lists indices below `n` in strictly increasing order.
pub open spec fn is_pattern(items: Seq<usize>, n: nat) -> bool {
    &&& forall|k: int| 0 <= k < items.len() ==> items[k] < n
    &&& forall|k: int, m: int| 0 <= k < m < items.len() ==> items[k] < items[m]
}

/// The selection over `n` items that packs exactly the listed items.
pub open spec fn selection(items: Seq<usize>, n: nat) -> Seq<bool> {
    Seq::new(n, |i: int| items.contains(i as usize))
}

/// The selection that packs nothing is feasible whatever the decisions,
/// and earns nothing: the greatest profit is never negative.
pub proof fn lemma_empty_selection_feasible(
    sizes: Seq<u64>,
    profits: Seq<i64>,
    capacity: u64,
    d: DecisionSets,
)
    ensures
        feasible(sizes, capacity, d, selection(Seq::empty(), sizes.len())),
        total_profit(profits, selection(Seq::empty(), sizes.len())) == 0,
{
    lemma_nothing_packed(sizes, profits, selection(Seq::empty(), sizes.len()));
}

/// A selection that obeys the decisions of a node obeys those of each of
/// its ancestors, whose decisions are among the node's own.
pub proof fn lemma_respects_ancestor(x: Seq<bool>, ancestor: DecisionSets, d: DecisionSets)
    requires
        ancestor.within(d),
        respects(x, d),
    ensures
        respects(x, ancestor),
{
}

/// The items of a pattern have the summed size of the selection that
/// packs them.
pub proof fn lemma_selection_size(sizes: Seq<u64>, items: Seq<usize>, n: nat)
    requires
        is_pattern(items, n),
        n <= usize::MAX,
    ensures
        total_size(sizes, selection(items, n)) == pattern_size(sizes, items),
    decreases n,
{
    let x = selection(items, n);
    if n == 0 {
        if items.len() > 0 {
            assert(items[0] < n);
        }
    } else {
        let m = (n - 1) as nat;
        if items.len() > 0 && items.last() == m {
            let rest = items.drop_last();
            assert(is_pattern(rest, m)) by {
                assert forall|k: int| 0 <= k < rest.len() implies rest[k] < m by {
                    assert(items[k] < items[items.len() - 1]);
                }
            }
            assert(x.drop_last() =~= selection(rest, m)) by {
                let y = x.drop_last();
                let z = selection(rest, m);
                assert forall|i: int| 0 <= i < m implies #[trigger] y[i] == z[i] by {
                    if items.contains(i as usize) {
                        let k = choose|k: int| 0 <= k < items.len() && items[k] == i as usize;
                        assert(rest[k] == i as usize);
                    }
                    if rest.contains(i as usize) {
                        let k = choose|k: int| 0 <= k < rest.len() && rest[k] == i as usize;
                        assert(items[k] == i as usize);
                    }
                }
            }
            assert(x.last()) by {
                assert(items[items.len() - 1] == m as usize);
            }
            lemma_selection_size(sizes, rest, m);
        } else {
            assert(is_pattern(items, m)) by {
                assert forall|k: int| 0 <= k < items.len() implies items[k] < m by {
                    if k < items.len() - 1 {
                        assert(items[k] < items[items.len() - 1]);
                    }
                }
            }
            assert(x.drop_last() =~= selection(items, m));
            assert(!x.last()) by {
                if items.contains(m as usize) {
                    let k = choose|k: int| 0 <= k < items.len() && items[k] == m as usize;
                    assert(items[k] < m);
                }
            }
            lemma_selection_size(sizes, items, m);
        }
    }
}

proof fn lemma_nothing_packed(sizes: Seq<u64>, profits: Seq<i64>, x: Seq<bool>)
    requires
        forall|i: int| 0 <= i < x.len() ==> !x[i],
    ensures
        total_size(sizes, x) == 0,
        total_profit(profits, x) == 0,
    decreases x.len(),
{
    if x.len() > 0 {
        lemma_nothing_packed(sizes, profits, x.drop_last());
    }
}

/// Whether `y` agrees with `x` on every item that `x` decides.
spec fn extends(y: Seq<bool>, x: Seq<bool>) -> bool {
    x.len() <= y.len() && forall|k: int| 0 <= k < x.len() ==> y[k] == x[k]
}

/// Whether it is known of `item` if a selection over `n` items that
/// starts with `x` packs it.
spec fn settled(x: Seq<bool>, n: nat, item: int) -> bool {
    item < x.len() || item >= n
}

/// Whether the partial selection `x` breaks no decision yet.
spec fn admissible(x: Seq<bool>, n: nat, d: DecisionSets) -> bool {
    &&& forall|p: Pair| #[trigger]
        d.together.contains(p) ==> (settled(x, n, p.0 as int) && settled(x, n, p.1 as int)
            ==> chosen(x, p.0 as int) == chosen(x, p.1 as int))
    &&& forall|p: Pair| #[trigger]
        d.apart.contains(p) ==> !(chosen(x, p.0 as int) && chosen(x, p.1 as int))
}

/// The profit that the items from index `from` on can add at most: the
/// sum of their positive profits.
spec fn headroom(profits: Seq<i64>, from: int) -> int
    decreases profits.len() - from,
{
    if from < 0 || from >= profits.len() {
        0
    } else {
        headroom(profits, from + 1) + if profits[from] > 0 {
            profits[from] as int
        } else {
            0
        }
    }
}

proof fn lemma_totals_push(sizes: Seq<u64>, profits: Seq<i64>, x: Seq<bool>, b: bool)
    ensures
        total_size(sizes, x.push(b)) == total_size(sizes, x) + if b {
            sizes[x.len() as int] as int
        } else {
            0
        },
        total_profit(profits, x.push(b)) == total_profit(profits, x) + if b {
            profits[x.len() as int] as int
        } else {
            0
        },
{
    assert(x.push(b).drop_last() =~= x);
}

proof fn lemma_size_grows(sizes: Seq<u64>, x: Seq<bool>, y: Seq<bool>)
    requires
        extends(y, x),
    ensures
        total_size(sizes, x) <= total_size(sizes, y),
    decreases y.len(),
{
    if y.len() == x.len() {
        assert(y =~= x);
    } else {
        lemma_size_grows(sizes, x, y.drop_last());
    }
}

proof fn lemma_profit_bounds(profits: Seq<i64>, x: Seq<bool>)
    ensures
        -(x.len() * 0x8000_0000_0000_0000) <= total_profit(profits, x) <= x.len()
            * 0x8000_0000_0000_0000,
    decreases x.len(),
{
    if x.len() > 0 {
        lemma_profit_bounds(profits, x.drop_last());
        assert(x.drop_last().len() * 0x8000_0000_0000_0000 + 0x8000_0000_0000_0000 == x.len()
            * 0x8000_0000_0000_0000) by (nonlinear_arith)
            requires
                x.drop_last().len() + 1 == x.len(),
        ;
    }
}

proof fn lemma_headroom_bounds(profits: Seq<i64>, from: int)
    requires
        0 <= from <= profits.len(),
    ensures
        0 <= headroom(profits, from) <= (profits.len() - from) * 0x8000_0000_0000_0000,
    decreases profits.len() - from,
{
    if from < profits.len() {
        lemma_headroom_bounds(profits, from + 1);
        assert((profits.len() - (from + 1)) * 0x8000_0000_0000_0000 + 0x8000_0000_0000_0000 == (
        profits.len() - from) * 0x8000_0000_0000_0000) by (nonlinear_arith);
    }
}

/// No completion of a partial selection earns more than the selection
/// itself plus the headroom of the items it has not decided.
proof fn lemma_profit_within_headroom(profits: Seq<i64>, x: Seq<bool>, y: Seq<bool>)
    requires
        extends(y, x),
        y.len() <= profits.len(),
    ensures
        total_profit(profits, y) <= total_profit(profits, x) + headroom(profits, x.len() as int)
            - headroom(profits, y.len() as int),
    decreases y.len(),
{
    if y.len() == x.len() {
        assert(y =~= x);
    } else {
        lemma_profit_within_headroom(profits, x, y.drop_last());
    }
}

/// A decision that a partial selection breaks stays broken however the
/// selection is completed.
proof fn lemma_broken_stays_broken(x: Seq<bool>, y: Seq<bool>, n: nat, d: DecisionSets)
    requires
        extends(y, x),
        y.len() == n,
        !admissible(x, n, d),
    ensures
        !respects(y, d),
{
    if exists|p: Pair| #[trigger]
        d.together.contains(p) && settled(x, n, p.0 as int) && settled(x, n, p.1 as int) && chosen(
            x,
            p.0 as int,
        ) != chosen(x, p.1 as int) {
        let p = choose|p: Pair| #[trigger]
            d.together.contains(p) && settled(x, n, p.0 as int) && settled(x, n, p.1 as int)
                && chosen(x, p.0 as int) != chosen(x, p.1 as int);
        assert(chosen(y, p.0 as int) == chosen(x, p.0 as int));
        assert(chosen(y, p.1 as int) == chosen(x, p.1 as int));
    } else {
        let p = choose|p: Pair| #[trigger]
            d.apart.contains(p) && chosen(x, p.0 as int) && chosen(x, p.1 as int);
        assert(chosen(y, p.0 as int) && chosen(y, p.1 as int));
    }
}

/// Tells whether the partial selection packs `item`.
fn is_chosen(x: &Vec<bool>, item: usize) -> (r: bool)
    ensures
        r == chosen(x@, item as int),
{
    item < x.len() && x[item]
}

/// Tells whether the partial selection `x` breaks no decision yet.
fn admits(x: &Vec<bool>, n: usize, d: &BranchingDecisions) -> (r: bool)
    requires
        x@.len() <= n,
    ensures
        r == admissible(x@, n as nat, d@),
{
    let together = d.together();
    let mut k: usize = 0;
    while k < together.len()
        invariant
            k <= together.len(),
            x@.len() <= n,
            together@.to_set() == d@.together,
            forall|m: int|
                0 <= m < k ==> (settled(x@, n as nat, (#[trigger] together@[m]).0 as int)
                    && settled(x@, n as nat, together@[m].1 as int) ==> chosen(
                    x@,
                    together@[m].0 as int,
                ) == chosen(x@, together@[m].1 as int)),
        decreases together.len() - k,
    {
        let p = together[k];
        let first_settled = p.0 < x.len() || p.0 >= n;
        let second_settled = p.1 < x.len() || p.1 >= n;
        if first_settled && second_settled && is_chosen(x, p.0) != is_chosen(x, p.1) {
            assert(together@.contains(p));
            assert(d@.together.contains(p));
            return false;
        }
        k += 1;
    }
    let apart = d.apart();
    let mut k: usize = 0;
    while k < apart.len()
        invariant
            k <= apart.len(),
            apart@.to_set() == d@.apart,
            forall|m: int|
                0 <= m < k ==> !(chosen(x@, (#[trigger] apart@[m]).0 as int) && chosen(
                    x@,
                    apart@[m].1 as int,
                )),
        decreases apart.len() - k,
    {
        let p = apart[k];
        if is_chosen(x, p.0) && is_chosen(x, p.1) {
            assert(apart@.contains(p));
            assert(d@.apart.contains(p));
            return false;
        }
        k += 1;
    }
    proof {
        assert forall|p: Pair|
            #[trigger] d@.together.contains(p) && settled(x@, n as nat, p.0 as int) && settled(
                x@,
                n as nat,
                p.1 as int,
            ) implies chosen(x@, p.0 as int) == chosen(x@, p.1 as int) by {
            assert(together@.contains(p));
            let m = choose|m: int| 0 <= m < together@.len() && together@[m] == p;
            assert(together@[m] == p);
        }
        assert forall|p: Pair| #[trigger] d@.apart.contains(p) implies !(chosen(x@, p.0 as int)
            && chosen(x@, p.1 as int)) by {
            assert(apart@.contains(p));
            let m = choose|m: int| 0 <= m < apart@.len() && apart@[m] == p;
            assert(apart@[m] == p);
        }
    }
    true
}

/// Copies a selection.
fn copy_selection(x: &Vec<bool>) -> (r: Vec<bool>)
    ensures
        r@ == x@,
{
    let mut out: Vec<bool> = Vec::new();
    let mut k: usize = 0;
    while k < x.len()
        invariant
            k <= x.len(),
            out@ == x@.take(k as int),
        decreases x.len() - k,
    {
        out.push(x[k]);
        assert(x@.take(k + 1) =~= x@.take(k as int).push(x@[k as int]));
        k += 1;
    }
    assert(x@.take(x@.len() as int) =~= x@);
    out
}

/// Computes, for each item, the headroom of the items from it on.
fn headrooms(profits: &[i64]) -> (rest: Vec<i128>)
    ensures
        rest@.len() == profits@.len(),
        forall|k: int| 0 <= k < rest@.len() ==> rest@[k] == headroom(profits@, k),
{
    let n = profits.len();
    let mut rest: Vec<i128> = Vec::new();
    let mut k: usize = 0;
    while k < n
        invariant
            k <= n,
            rest@.len() == k,
        decreases n - k,
    {
        rest.push(0);
        k += 1;
    }
    let mut above: i128 = 0;
    let mut k: usize = n;
    while k > 0
        invariant
            k <= n,
            n == profits@.len(),
            rest@.len() == n,
            above == headroom(profits@, k as int),
            forall|m: int| k <= m < n ==> rest@[m] == headroom(profits@, m),
        decreases k,
    {
        proof {
            lemma_headroom_bounds(profits@, k as int);
            assert((n - k) * 0x8000_0000_0000_0000 <= 0xffff_ffff_ffff_fffe
                * 0x8000_0000_0000_0000) by (nonlinear_arith)
                requires
                    0 <= n - k <= 0xffff_ffff_ffff_fffe,
            ;
        }
        k -= 1;
        let gain = profits[k];
        if gain > 0 {
            above = above + gain as i128;
        }
        rest.set(k, above);
    }
    rest
}

/// Explores every completion of the partial selection `x` that can be
/// feasible and can earn more than `best`, and leaves in `best` the most
/// profitable feasible selection among all completions of `x` and the one
/// it held before.
fn search(
    sizes: &[u64],
    profits: &[i64],
    rest: &Vec<i128>,
    capacity: u64,
    d: &BranchingDecisions,
    x: &mut Vec<bool>,
    used: u64,
    value: i128,
    best: &mut Vec<bool>,
    best_value: &mut i128,
)
    requires
        sizes@.len() == profits@.len(),
        rest@.len() == profits@.len(),
        forall|k: int| 0 <= k < rest@.len() ==> rest@[k] == headroom(profits@, k),
        old(x)@.len() <= sizes@.len(),
        used == total_size(sizes@, old(x)@),
        used <= capacity,
        value == total_profit(profits@, old(x)@),
        admissible(old(x)@, sizes@.len(), d@),
        feasible(sizes@, capacity, d@, old(best)@),
        *old(best_value) == total_profit(profits@, old(best)@),
    ensures
        final(x)@ == old(x)@,
        feasible(sizes@, capacity, d@, final(best)@),
        *final(best_value) == total_profit(profits@, final(best)@),
        *old(best_value) <= *final(best_value),
        forall|y: Seq<bool>| #[trigger]
            feasible(sizes@, capacity, d@, y) && extends(y, old(x)@) ==> total_profit(profits@, y)
                <= *final(best_value),
    decreases sizes@.len() - old(x)@.len(),
{
    let n = sizes.len();
    let i = x.len();
    let ghost x0 = x@;
    if i == n {
        if value > *best_value {
            *best = copy_selection(x);
            *best_value = value;
        }
        assert forall|y: Seq<bool>| #[trigger]
            feasible(sizes@, capacity, d@, y) && extends(y, x0) implies total_profit(profits@, y)
            <= *best_value by {
            assert(y =~= x0);
        }
        return ;
    }
    proof {
        lemma_totals_push(sizes@, profits@, x0, false);
        lemma_totals_push(sizes@, profits@, x0, true);
        lemma_profit_bounds(profits@, x0);
        lemma_headroom_bounds(profits@, i as int);
        assert(x0.len() * 0x8000_0000_0000_0000 + (n - x0.len()) * 0x8000_0000_0000_0000
            <= 0xffff_ffff_ffff_ffff * 0x8000_0000_0000_0000) by (nonlinear_arith)
            requires
                x0.len() <= n <= 0xffff_ffff_ffff_ffff,
        ;
        assert(x0.len() * 0x8000_0000_0000_0000 <= 0xffff_ffff_ffff_fffe * 0x8000_0000_0000_0000)
            by (nonlinear_arith)
            requires
                x0.len() <= 0xffff_ffff_ffff_fffe,
        ;
    }
    if value + rest[i] <= *best_value {
        proof {
            assert forall|y: Seq<bool>| #[trigger]
                feasible(sizes@, capacity, d@, y) && extends(y, x0) implies total_profit(
                profits@,
                y,
            ) <= *best_value by {
                lemma_profit_within_headroom(profits@, x0, y);
            }
        }
        return ;
    }
    let size = sizes[i];
    let fits = size <= capacity - used;
    if fits {
        x.push(true);
        if admits(x, n, d) {
            search(
                sizes,
                profits,
                rest,
                capacity,
                d,
                x,
                used + size,
                value + profits[i] as i128,
                best,
                best_value,
            );
        }
        x.pop();
        assert(x@ =~= x0);
    }
    x.push(false);
    if admits(x, n, d) {
        search(sizes, profits, rest, capacity, d, x, used, value, best, best_value);
    }
    x.pop();
    assert(x@ =~= x0);
    proof {
        assert forall|y: Seq<bool>| #[trigger]
            feasible(sizes@, capacity, d@, y) && extends(y, x0) implies total_profit(profits@, y)
            <= *best_value by {
            let prefix = x0.push(y[i as int]);
            assert(extends(y, prefix));
            if !admissible(prefix, n as nat, d@) {
                lemma_broken_stays_broken(prefix, y, n as nat, d@);
            }
            if y[i as int] && !fits {
                lemma_size_grows(sizes@, prefix, y);
            }
        }
    }
}

/// Lists the items that a selection packs, in increasing order.
fn packed_items(x: &Vec<bool>) -> (items: Vec<usize>)
    ensures
        is_pattern(items@, x@.len()),
        selection(items@, x@.len()) == x@,
{
    let mut items: Vec<usize> = Vec::new();
    let mut i: usize = 0;
    while i < x.len()
        invariant
            i <= x.len(),
            is_pattern(items@, i as nat),
            forall|k: int| 0 <= k < i ==> x@[k] == items@.contains(k as usize),
        decreases x.len() - i,
    {
        let ghost before = items@;
        if x[i] {
            items.push(i);
            assert(items@[before.len() as int] == i);
            assert forall|k: int| 0 <= k < i + 1 implies x@[k] == items@.contains(k as usize) by {
                if k < i && before.contains(k as usize) {
                    let m = choose|m: int| 0 <= m < before.len() && before[m] == k as usize;
                    assert(items@[m] == k as usize);
                }
            }
        }
        i += 1;
    }
    assert(selection(items@, x@.len()) =~= x@);
    items
}

/// Solves the knapsack problem of the pricing step: among the selections
/// of items that fit `capacity` and obey `branching_decision`, finds one
/// of greatest total profit.  Returns the packed items in increasing
/// order and their total profit, or `None` when `sizes` and `profits`
/// differ in length.
///
/// The empty selection is always feasible, so the profit returned is
/// never negative.
pub fn solve_knapsack(
    sizes: &[u64],
    profits: &[i64],
    capacity: u64,
    branching_decision: &BranchingDecisions,
) -> (r: Option<(Vec<usize>, i128)>)
    ensures
        r is Some == (sizes@.len() == profits@.len()),
        r matches Some((items, value)) ==> {
            &&& is_pattern(items@, sizes@.len())
            &&& optimal(
                sizes@,
                profits@,
                capacity,
                branching_decision@,
                selection(items@, sizes@.len()),
            )
            &&& value == total_profit(profits@, selection(items@, sizes@.len()))
        },
{
    if sizes.len() != profits.len() {
        return None;
    }
    let n = sizes.len();
    let mut best: Vec<bool> = Vec::new();
    let mut i: usize = 0;
    while i < n
        invariant
            i <= n,
            best@.len() == i,
            forall|k: int| 0 <= k < i ==> !best@[k],
            total_size(sizes@, best@) == 0,
            total_profit(profits@, best@) == 0,
        decreases n - i,
    {
        proof {
            lemma_totals_push(sizes@, profits@, best@, false);
        }
        best.push(false);
        i += 1;
    }
    let mut best_value: i128 = 0;
    let mut x: Vec<bool> = Vec::new();
    let rest = headrooms(profits);
    search(
        sizes,
        profits,
        &rest,
        capacity,
        branching_decision,
        &mut x,
        0,
        0,
        &mut best,
        &mut best_value,
    );
    let items = packed_items(&best);
    proof {
        let d = branching_decision@;
        assert forall|y: Seq<bool>| #[trigger] feasible(sizes@, capacity, d, y) implies total_profit(
            profits@,
            y,
        ) <= best_value by {
            assert(extends(y, Seq::<bool>::empty()));
        }
    }
    Some((items, best_value))
}

} // verus!
