//! The pattern store: which items each master-problem column packs.

use std::collections::HashMap;
use vstd::prelude::*;

verus! {

/// Identifier the engine assigns to a column of the master problem.
pub type VarId = usize;

/// Whether `pattern` packs both items.
pub open spec fn holds_both(pattern: Seq<usize>, i: usize, j: usize) -> bool {
    pattern.contains(i) && pattern.contains(j)
}

/// Whether `pattern` packs exactly one of the two items.
pub open spec fn holds_one(pattern: Seq<usize>, i: usize, j: usize) -> bool {
    pattern.contains(i) != pattern.contains(j)
}

/// Tells whether `pattern` packs `item`.
pub fn pattern_holds(pattern: &Vec<usize>, item: usize) -> (r: bool)
    ensures
        r == pattern@.contains(item),
{
    let mut k: usize = 0;
    while k < pattern.len()
        invariant
            k <= pattern.len(),
            forall|m: int| 0 <= m < k ==> pattern@[m] != item,
        decreases pattern.len() - k,
    {
        if pattern[k] == item {
            return true;
        }
        k += 1;
    }
    false
}

/// Copies a pattern.
pub fn copy_pattern(pattern: &Vec<usize>) -> (r: Vec<usize>)
    ensures
        r@ == pattern@,
{
    let mut out: Vec<usize> = Vec::new();
    let mut k: usize = 0;
    while k < pattern.len()
        invariant
            k <= pattern.len(),
            out@ == pattern@.take(k as int),
        decreases pattern.len() - k,
    {
        out.push(pattern[k]);
        assert(pattern@.take(k + 1) =~= pattern@.take(k as int).push(pattern@[k as int]));
        k += 1;
    }
    assert(pattern@.take(pattern@.len() as int) =~= pattern@);
    out
}

/// The pattern of every column admitted to the master problem so far.
/// A column's pattern is recorded once and never changed or removed.
pub struct PatternForVar(HashMap<VarId, Vec<usize>>);

impl View for PatternForVar {
    type V = Map<VarId, Seq<usize>>;

    closed spec fn view(&self) -> Map<VarId, Seq<usize>> {
        Map::new(|var: VarId| self.0@.contains_key(var), |var: VarId| self.0@[var]@)
    }
}

impl PatternForVar {
    /// The store without any column.
    pub fn new() -> (store: Self)
        ensures
            store@ == Map::<VarId, Seq<usize>>::empty(),
    {
        let store = PatternForVar(HashMap::new());
        assert(store@ =~= Map::<VarId, Seq<usize>>::empty());
        store
    }

    /// Tells whether the pattern of `var` is recorded.
    pub fn contains(&self, var: VarId) -> (r: bool)
        ensures
            r == self@.contains_key(var),
    {
        self.0.contains_key(&var)
    }

    /// The pattern of `var`, if it is recorded.
    pub fn get(&self, var: VarId) -> (r: Option<&Vec<usize>>)
        ensures
            r is Some == self@.contains_key(var),
            r is Some ==> r.unwrap()@ == self@[var],
    {
        self.0.get(&var)
    }

    /// Records the pattern of a newly admitted column.  Returns whether
    /// the column was new; the pattern of a column that is already
    /// recorded is kept as it is.
    pub fn insert(&mut self, var: VarId, pattern: Vec<usize>) -> (added: bool)
        ensures
            added == !old(self)@.contains_key(var),
            added ==> final(self)@ == old(self)@.insert(var, pattern@),
            !added ==> final(self)@ == old(self)@,
    {
        if self.0.contains_key(&var) {
            false
        } else {
            self.0.insert(var, pattern);
            assert(self@ =~= old(self)@.insert(var, pattern@));
            true
        }
    }
}

impl Default for PatternForVar {
    fn default() -> (store: Self)
        ensures
            store@ == Map::<VarId, Seq<usize>>::empty(),
    {
        PatternForVar::new()
    }
}

} // verus!
