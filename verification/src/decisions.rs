//! Branching decisions and their per-node store.
//!
//! A node of the search tree carries two sets of item pairs: the pairs
//! whose items must be packed *together* and the pairs whose items must be
//! kept *apart*.  The store maps node identifiers to these records; it only
//! ever grows, and a child's record is its parent's record plus one pair.

use std::collections::HashMap;
use vstd::prelude::*;

verus! {

/// Identifier the engine assigns to a node of the search tree.
pub type BBNodeId = usize;

/// Identifier of the root node of the search tree.
pub const ROOT: BBNodeId = 1;

/// An unordered pair of item indices.
#[derive(Debug, Clone, Copy, Hash, Default, PartialEq, Eq, Structural)]
pub struct Pair(pub usize, pub usize);

impl Pair {
    /// Whether the pair names items `i` and `j`, in either order.
    pub open spec fn joins(self, i: int, j: int) -> bool {
        (self.0 == i && self.1 == j) || (self.0 == j && self.1 == i)
    }

    /// Tells whether two pairs name the same two items.
    pub fn same_items(&self, other: &Pair) -> (r: bool)
        ensures
            r == other.joins(self.0 as int, self.1 as int),
    {
        (self.0 == other.0 && self.1 == other.1) || (self.0 == other.1 && self.1 == other.0)
    }
}

/// The mathematical content of a node's record: two sets of pairs.
#[verifier::ext_equal]
pub struct DecisionSets {
    pub together: Set<Pair>,
    pub apart: Set<Pair>,
}

impl DecisionSets {
    /// The record of the root node.
    pub open spec fn empty() -> DecisionSets {
        DecisionSets { together: Set::empty(), apart: Set::empty() }
    }

    /// The record extended by one pair of items to be packed together.
    pub open spec fn with_together(self, pair: Pair) -> DecisionSets {
        DecisionSets { together: self.together.insert(pair), apart: self.apart }
    }

    /// The record extended by one pair of items to be kept apart.
    pub open spec fn with_apart(self, pair: Pair) -> DecisionSets {
        DecisionSets { together: self.together, apart: self.apart.insert(pair) }
    }

    /// Every decision of `self` is also a decision of `other`.
    pub open spec fn within(self, other: DecisionSets) -> bool {
        self.together.subset_of(other.together) && self.apart.subset_of(other.apart)
    }

    /// Some two items are required to be both together and apart.
    pub open spec fn contradictory(self) -> bool {
        exists|p: Pair, q: Pair|
            #![trigger self.together.contains(p), self.apart.contains(q)]
            self.together.contains(p) && self.apart.contains(q) && q.joins(p.0 as int, p.1 as int)
    }
}

/// Tells whether `pair` occurs in `pairs`.
fn holds_pair(pairs: &Vec<Pair>, pair: Pair) -> (r: bool)
    ensures
        r == pairs@.contains(pair),
{
    let mut k: usize = 0;
    while k < pairs.len()
        invariant
            k <= pairs.len(),
            forall|m: int| 0 <= m < k ==> pairs@[m] != pair,
        decreases pairs.len() - k,
    {
        if pairs[k] == pair {
            return true;
        }
        k += 1;
    }
    false
}

/// Tells whether some pair of `pairs` names the two items of `pair`.
fn holds_same_items(pairs: &Vec<Pair>, pair: Pair) -> (r: bool)
    ensures
        r == exists|m: int|
            0 <= m < pairs@.len() && (#[trigger] pairs@[m]).joins(pair.0 as int, pair.1 as int),
{
    let mut k: usize = 0;
    while k < pairs.len()
        invariant
            k <= pairs.len(),
            forall|m: int| 0 <= m < k ==> !(#[trigger] pairs@[m]).joins(pair.0 as int, pair.1 as int),
        decreases pairs.len() - k,
    {
        if pair.same_items(&pairs[k]) {
            return true;
        }
        k += 1;
    }
    false
}

/// Copies a list of pairs.
fn copy_pairs(pairs: &Vec<Pair>) -> (r: Vec<Pair>)
    ensures
        r@ == pairs@,
{
    let mut out: Vec<Pair> = Vec::new();
    let mut k: usize = 0;
    while k < pairs.len()
        invariant
            k <= pairs.len(),
            out@ == pairs@.take(k as int),
        decreases pairs.len() - k,
    {
        out.push(pairs[k]);
        assert(pairs@.take(k + 1) =~= pairs@.take(k as int).push(pairs@[k as int]));
        k += 1;
    }
    assert(pairs@.take(pairs@.len() as int) =~= pairs@);
    out
}

/// The branching decisions in force at one node of the search tree.
#[derive(Debug)]
pub struct BranchingDecisions {
    together: Vec<Pair>,
    apart: Vec<Pair>,
}

impl View for BranchingDecisions {
    type V = DecisionSets;

    closed spec fn view(&self) -> DecisionSets {
        DecisionSets { together: self.together@.to_set(), apart: self.apart@.to_set() }
    }
}

impl BranchingDecisions {
    /// No pair is stored twice.
    #[verifier::type_invariant]
    spec fn no_pair_twice(self) -> bool {
        self.together@.no_duplicates() && self.apart@.no_duplicates()
    }

    /// The record without any decision.
    pub fn new() -> (d: Self)
        ensures
            d@ == DecisionSets::empty(),
    {
        let d = BranchingDecisions { together: Vec::new(), apart: Vec::new() };
        assert(d@ =~= DecisionSets::empty());
        d
    }

    /// The pairs to be packed together, each listed once.
    pub fn together(&self) -> (r: &Vec<Pair>)
        ensures
            r@.to_set() == self@.together,
            r@.no_duplicates(),
    {
        proof {
            use_type_invariant(self);
        }
        &self.together
    }

    /// The pairs to be kept apart, each listed once.
    pub fn apart(&self) -> (r: &Vec<Pair>)
        ensures
            r@.to_set() == self@.apart,
            r@.no_duplicates(),
    {
        proof {
            use_type_invariant(self);
        }
        &self.apart
    }

    /// Requires the two items of `pair` to be packed together.  Returns
    /// whether the pair was new to the set.
    pub fn insert_together(&mut self, pair: Pair) -> (fresh: bool)
        ensures
            final(self)@ == old(self)@.with_together(pair),
            fresh == !old(self)@.together.contains(pair),
    {
        proof {
            use_type_invariant(&*self);
        }
        let known = holds_pair(&self.together, pair);
        if !known {
            let mut pairs: Vec<Pair> = Vec::new();
            std::mem::swap(&mut self.together, &mut pairs);
            pairs.push(pair);
            proof {
                lemma_push_to_set(old(self).together@, pair);
            }
            self.together = pairs;
            assert(self.together@.to_set() =~= old(self).together@.to_set().insert(pair));
        } else {
            assert(self.together@.to_set() =~= old(self).together@.to_set().insert(pair));
        }
        !known
    }

    /// Requires the two items of `pair` to be kept apart.  Returns whether
    /// the pair was new to the set.
    pub fn insert_apart(&mut self, pair: Pair) -> (fresh: bool)
        ensures
            final(self)@ == old(self)@.with_apart(pair),
            fresh == !old(self)@.apart.contains(pair),
    {
        proof {
            use_type_invariant(&*self);
        }
        let known = holds_pair(&self.apart, pair);
        if !known {
            let mut pairs: Vec<Pair> = Vec::new();
            std::mem::swap(&mut self.apart, &mut pairs);
            pairs.push(pair);
            proof {
                lemma_push_to_set(old(self).apart@, pair);
            }
            self.apart = pairs;
            assert(self.apart@.to_set() =~= old(self).apart@.to_set().insert(pair));
        } else {
            assert(self.apart@.to_set() =~= old(self).apart@.to_set().insert(pair));
        }
        !known
    }

    /// Tells whether some two items are required to be both together and
    /// apart, which no pattern that holds either of them can satisfy.
    pub fn is_contradictory(&self) -> (r: bool)
        ensures
            r == self@.contradictory(),
    {
        let mut k: usize = 0;
        while k < self.together.len()
            invariant
                k <= self.together.len(),
                forall|m: int, q: Pair|
                    #![trigger self.together@[m], self.apart@.contains(q)]
                    0 <= m < k && self.apart@.contains(q) ==> !q.joins(
                        self.together@[m].0 as int,
                        self.together@[m].1 as int,
                    ),
            decreases self.together.len() - k,
        {
            let p = self.together[k];
            if holds_same_items(&self.apart, p) {
                proof {
                    let m = choose|m: int|
                        0 <= m < self.apart@.len() && (#[trigger] self.apart@[m]).joins(
                            p.0 as int,
                            p.1 as int,
                        );
                    assert(self.together@.contains(p));
                    assert(self.apart@.contains(self.apart@[m]));
                    assert(self@.together.contains(p) && self@.apart.contains(self.apart@[m]));
                }
                return true;
            }
            proof {
                assert forall|q: Pair| self.apart@.contains(q) implies !q.joins(
                    p.0 as int,
                    p.1 as int,
                ) by {
                    if q.joins(p.0 as int, p.1 as int) {
                        let m = choose|m: int| 0 <= m < self.apart@.len() && self.apart@[m] == q;
                        assert(self.apart@[m].joins(p.0 as int, p.1 as int));
                    }
                }
            }
            k += 1;
        }
        proof {
            if self@.contradictory() {
                let (p, q) = choose|p: Pair, q: Pair|
                    #![trigger self@.together.contains(p), self@.apart.contains(q)]
                    self@.together.contains(p) && self@.apart.contains(q) && q.joins(
                        p.0 as int,
                        p.1 as int,
                    );
                let m = choose|m: int| 0 <= m < self.together@.len() && self.together@[m] == p;
                assert(self.apart@.contains(q));
                assert(!q.joins(self.together@[m].0 as int, self.together@[m].1 as int));
            }
        }
        false
    }
}

impl Clone for BranchingDecisions {
    fn clone(&self) -> (r: Self)
        ensures
            r@ == self@,
    {
        proof {
            use_type_invariant(self);
        }
        BranchingDecisions { together: copy_pairs(&self.together), apart: copy_pairs(&self.apart) }
    }
}

impl Default for BranchingDecisions {
    fn default() -> (d: Self)
        ensures
            d@ == DecisionSets::empty(),
    {
        BranchingDecisions::new()
    }
}

/// Appending an element to a sequence inserts it into the set of its elements.
proof fn lemma_push_to_set(s: Seq<Pair>, pair: Pair)
    ensures
        s.push(pair).to_set() =~= s.to_set().insert(pair),
        s.no_duplicates() && !s.contains(pair) ==> s.push(pair).no_duplicates(),
{
    let t = s.push(pair);
    assert forall|q: Pair| t.to_set().contains(q) == s.to_set().insert(pair).contains(q) by {
        if t.contains(q) {
            let m = choose|m: int| 0 <= m < t.len() && t[m] == q;
            if m < s.len() {
                assert(s[m] == q);
            }
        }
        if s.contains(q) {
            let m = choose|m: int| 0 <= m < s.len() && s[m] == q;
            assert(t[m] == q);
        }
        if q == pair {
            assert(t[s.len() as int] == q);
        }
    }
}

/// Why a record could not be added to the store.
#[derive(Debug, Clone, Copy, PartialEq, Eq, Structural)]
pub enum StoreError {
    /// The node whose record was to be extended has none.
    UnknownNode(BBNodeId),
    /// The node that was to receive a record already has one.
    NodeAlreadyRecorded(BBNodeId),
}

/// The branching decisions of every node of the search tree created so far.
pub struct BranchingDecisionMap(HashMap<BBNodeId, BranchingDecisions>);

impl View for BranchingDecisionMap {
    type V = Map<BBNodeId, DecisionSets>;

    closed spec fn view(&self) -> Map<BBNodeId, DecisionSets> {
        Map::new(|node: BBNodeId| self.0@.contains_key(node), |node: BBNodeId| self.0@[node]@)
    }
}

/// What the store holds once `parent` has been branched on `pair`.
pub open spec fn branched(
    store: Map<BBNodeId, DecisionSets>,
    parent: BBNodeId,
    apart_child: BBNodeId,
    together_child: BBNodeId,
    pair: Pair,
) -> Map<BBNodeId, DecisionSets> {
    store.insert(apart_child, store[parent].with_apart(pair)).insert(
        together_child,
        store[parent].with_together(pair),
    )
}

/// The error, if any, that keeps `parent` from being branched into the
/// two children.
pub open spec fn branch_error(
    store: Map<BBNodeId, DecisionSets>,
    parent: BBNodeId,
    apart_child: BBNodeId,
    together_child: BBNodeId,
) -> Option<StoreError> {
    if !store.contains_key(parent) {
        Some(StoreError::UnknownNode(parent))
    } else if store.contains_key(apart_child) {
        Some(StoreError::NodeAlreadyRecorded(apart_child))
    } else if store.contains_key(together_child) || together_child == apart_child {
        Some(StoreError::NodeAlreadyRecorded(together_child))
    } else {
        None
    }
}

/// Branching only adds to the store: each child receives the decisions
/// of its parent and the pair branched on, one child in its pairs to be
/// kept apart, the other in its pairs to be packed together, and every
/// record held before is kept as it was.
pub proof fn lemma_branched_records(
    store: Map<BBNodeId, DecisionSets>,
    parent: BBNodeId,
    apart_child: BBNodeId,
    together_child: BBNodeId,
    pair: Pair,
)
    requires
        branch_error(store, parent, apart_child, together_child) is None,
    ensures
        ({
            let after = branched(store, parent, apart_child, together_child, pair);
            &&& after.dom() == store.dom().insert(apart_child).insert(together_child)
            &&& after[apart_child] == store[parent].with_apart(pair)
            &&& after[together_child] == store[parent].with_together(pair)
            &&& store[parent].within(after[apart_child])
            &&& store[parent].within(after[together_child])
            &&& forall|node: BBNodeId| #[trigger]
                store.contains_key(node) ==> after.contains_key(node) && after[node] == store[node]
        }),
{
    let after = branched(store, parent, apart_child, together_child, pair);
    assert(after.dom() =~= store.dom().insert(apart_child).insert(together_child));
}

impl BranchingDecisionMap {
    /// Tells whether `node` has a record.
    pub fn contains(&self, node: BBNodeId) -> (r: bool)
        ensures
            r == self@.contains_key(node),
    {
        self.0.contains_key(&node)
    }

    /// The record of `node`, if it has one.
    pub fn get(&self, node: BBNodeId) -> (r: Option<&BranchingDecisions>)
        ensures
            r is Some == self@.contains_key(node),
            r is Some ==> r.unwrap()@ == self@[node],
    {
        self.0.get(&node)
    }

    /// Tells which error, if any, keeps `parent` from being branched into
    /// the two children.
    pub fn check_branch(
        &self,
        parent: BBNodeId,
        apart_child: BBNodeId,
        together_child: BBNodeId,
    ) -> (r: Option<StoreError>)
        ensures
            r == branch_error(self@, parent, apart_child, together_child),
    {
        if !self.0.contains_key(&parent) {
            Some(StoreError::UnknownNode(parent))
        } else if self.0.contains_key(&apart_child) {
            Some(StoreError::NodeAlreadyRecorded(apart_child))
        } else if self.0.contains_key(&together_child) || together_child == apart_child {
            Some(StoreError::NodeAlreadyRecorded(together_child))
        } else {
            None
        }
    }

    /// Records the two children of `parent` after branching on `pair`: each
    /// child inherits the parent's decisions; one also keeps the pair
    /// apart, the other packs it together.  Records are never overwritten:
    /// on an error the store is left as it was.
    pub fn branch(
        &mut self,
        parent: BBNodeId,
        apart_child: BBNodeId,
        together_child: BBNodeId,
        pair: Pair,
    ) -> (r: Result<(), StoreError>)
        ensures
            match branch_error(old(self)@, parent, apart_child, together_child) {
                Some(e) => r == Err::<(), StoreError>(e) && final(self)@ == old(self)@,
                None => r is Ok && final(self)@ == branched(
                    old(self)@,
                    parent,
                    apart_child,
                    together_child,
                    pair,
                ),
            },
    {
        match self.check_branch(parent, apart_child, together_child) {
            Some(e) => Err(e),
            None => {
                let (mut apart, mut together) = match self.0.get(&parent) {
                    Some(d) => (d.clone(), d.clone()),
                    None => (BranchingDecisions::new(), BranchingDecisions::new()),
                };
                apart.insert_apart(pair);
                together.insert_together(pair);
                self.0.insert(apart_child, apart);
                self.0.insert(together_child, together);
                assert(self@ =~= branched(old(self)@, parent, apart_child, together_child, pair));
                Ok(())
            },
        }
    }
}

impl Default for BranchingDecisionMap {
    /// The store of a search that has not branched yet: the root node,
    /// without decisions.
    fn default() -> (store: Self)
        ensures
            store@ == Map::<BBNodeId, DecisionSets>::empty().insert(ROOT, DecisionSets::empty()),
    {
        let mut nodes: HashMap<BBNodeId, BranchingDecisions> = HashMap::new();
        nodes.insert(ROOT, BranchingDecisions::new());
        let store = BranchingDecisionMap(nodes);
        assert(store@ =~= Map::<BBNodeId, DecisionSets>::empty().insert(
            ROOT,
            DecisionSets::empty(),
        ));
        store
    }
}

} // verus!
