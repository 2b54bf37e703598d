//! The instance model: item sizes and the bin capacity, and what it means
//! for a set of patterns to pack the instance.

use vstd::prelude::*;

verus! {

/// A bin-packing instance: the size of each item and the capacity of a bin.
#[derive(Debug)]
pub struct BinPackingInstance {
    pub item_sizes: Vec<u64>,
    pub capacity: u64,
}

/// Whether every item has a positive size that fits a bin.
pub open spec fn well_formed(sizes: Seq<u64>, capacity: u64) -> bool {
    forall|i: int| 0 <= i < sizes.len() ==> 0 < #[trigger] sizes[i] <= capacity
}

/// The summed size of the items that `pattern` lists.
pub open spec fn pattern_size(sizes: Seq<u64>, pattern: Seq<usize>) -> int
    decreases pattern.len(),
{
    if pattern.len() == 0 {
        0
    } else {
        pattern_size(sizes, pattern.drop_last()) + sizes[pattern.last() as int]
    }
}

/// Whether position `k` of pattern `p` lists `item`.
pub open spec fn packs_at(patterns: Seq<Seq<usize>>, p: int, k: int, item: int) -> bool {
    0 <= p < patterns.len() && 0 <= k < patterns[p].len() && patterns[p][k] == item
}

/// Whether `item` is listed by exactly one pattern, exactly once.
pub open spec fn packed_once(patterns: Seq<Seq<usize>>, item: int) -> bool {
    exists|p: int, k: int|
        {
            &&& #[trigger] packs_at(patterns, p, k, item)
            &&& forall|q: int, m: int| #[trigger]
                packs_at(patterns, q, m, item) ==> q == p && m == k
        }
}

/// Whether `patterns` pack the instance: they list only items of the
/// instance, none exceeds the capacity, and each item of the instance is
/// listed by exactly one pattern, exactly once.
pub open spec fn is_packing(sizes: Seq<u64>, capacity: u64, patterns: Seq<Seq<usize>>) -> bool {
    &&& forall|p: int, k: int|
        0 <= p < patterns.len() && 0 <= k < patterns[p].len() ==> #[trigger] patterns[p][k]
            < sizes.len()
    &&& forall|p: int|
        0 <= p < patterns.len() ==> pattern_size(sizes, #[trigger] patterns[p]) <= capacity
    &&& forall|item: int| 0 <= item < sizes.len() ==> packed_once(patterns, item)
}

/// The patterns as sequences of item indices.
pub open spec fn patterns_view(patterns: Seq<Vec<usize>>) -> Seq<Seq<usize>> {
    patterns.map_values(|pattern: Vec<usize>| pattern@)
}

/// Whether position `m` of pattern `q` stands before position `k` of
/// pattern `p` in reading order.
spec fn read_before(q: int, m: int, p: int, k: int) -> bool {
    q < p || (q == p && m < k)
}

/// Whether `seen` and `place` record the items listed before position `k`
/// of pattern `p`: each of those positions lists an item of the instance
/// that is marked as seen and placed there, and each item marked as seen
/// is placed at one of those positions.
spec fn tracks(
    patterns: Seq<Seq<usize>>,
    n: int,
    seen: Seq<bool>,
    place: Seq<(int, int)>,
    p: int,
    k: int,
) -> bool {
    &&& seen.len() == n
    &&& place.len() == n
    &&& forall|item: int|
        0 <= item < n && #[trigger] seen[item] ==> read_before(place[item].0, place[item].1, p, k)
            && packs_at(patterns, place[item].0, place[item].1, item)
    &&& forall|q: int, m: int|
        0 <= q < patterns.len() && 0 <= m < patterns[q].len() && read_before(q, m, p, k) ==> {
            &&& 0 <= #[trigger] patterns[q][m] < n
            &&& seen[patterns[q][m] as int]
            &&& place[patterns[q][m] as int] == (q, m)
        }
}

proof fn lemma_pattern_size_grows(sizes: Seq<u64>, pattern: Seq<usize>, k: int)
    requires
        0 <= k <= pattern.len(),
    ensures
        pattern_size(sizes, pattern.take(k)) <= pattern_size(sizes, pattern),
    decreases pattern.len() - k,
{
    if k == pattern.len() {
        assert(pattern.take(k) =~= pattern);
    } else {
        assert(pattern.take(k + 1).drop_last() =~= pattern.take(k));
        lemma_pattern_size_grows(sizes, pattern, k + 1);
    }
}

impl BinPackingInstance {
    /// Tells whether every item has a positive size that fits a bin.
    pub fn is_well_formed(&self) -> (r: bool)
        ensures
            r == well_formed(self.item_sizes@, self.capacity),
    {
        let mut i: usize = 0;
        while i < self.item_sizes.len()
            invariant
                i <= self.item_sizes.len(),
                forall|k: int| 0 <= k < i ==> 0 < #[trigger] self.item_sizes@[k] <= self.capacity,
            decreases self.item_sizes.len() - i,
        {
            let size = self.item_sizes[i];
            if size == 0 || size > self.capacity {
                return false;
            }
            i += 1;
        }
        true
    }

    /// Tells whether `patterns` pack the instance.
    pub fn is_packing(&self, patterns: &Vec<Vec<usize>>) -> (r: bool)
        ensures
            r == is_packing(self.item_sizes@, self.capacity, patterns_view(patterns@)),
    {
        let n = self.item_sizes.len();
        let ghost sizes = self.item_sizes@;
        let ghost all = patterns_view(patterns@);
        let mut seen: Vec<bool> = Vec::new();
        let mut i: usize = 0;
        while i < n
            invariant
                i <= n,
                seen@.len() == i,
                forall|k: int| 0 <= k < i ==> !seen@[k],
            decreases n - i,
        {
            seen.push(false);
            i += 1;
        }
        let ghost mut place: Seq<(int, int)> = Seq::new(n as nat, |item: int| (0int, 0int));
        let mut p: usize = 0;
        while p < patterns.len()
            invariant
                p <= patterns.len(),
                n == sizes.len(),
                sizes == self.item_sizes@,
                all == patterns_view(patterns@),
                tracks(all, n as int, seen@, place, p as int, 0),
                forall|q: int| 0 <= q < p ==> pattern_size(sizes, #[trigger] all[q]) <= self.capacity,
            decreases patterns.len() - p,
        {
            let pattern = &patterns[p];
            assert(all[p as int] == pattern@);
            let mut load: u64 = 0;
            let mut k: usize = 0;
            while k < pattern.len()
                invariant
                    k <= pattern.len(),
                    p < patterns.len(),
                    n == sizes.len(),
                    sizes == self.item_sizes@,
                    all == patterns_view(patterns@),
                    all[p as int] == pattern@,
                    tracks(all, n as int, seen@, place, p as int, k as int),
                    load == pattern_size(sizes, pattern@.take(k as int)),
                    load <= self.capacity,
                decreases pattern.len() - k,
            {
                let item = pattern[k];
                assert(packs_at(all, p as int, k as int, item as int));
                if item >= n {
                    return false;
                }
                if seen[item] {
                    proof {
                        let (q, m) = place[item as int];
                        assert(packs_at(all, q, m, item as int));
                        assert(!packed_once(all, item as int));
                    }
                    return false;
                }
                let size = self.item_sizes[item];
                proof {
                    assert(pattern@.take(k + 1).drop_last() =~= pattern@.take(k as int));
                    lemma_pattern_size_grows(sizes, pattern@, k + 1);
                }
                if size > self.capacity - load {
                    return false;
                }
                load = load + size;
                seen.set(item, true);
                proof {
                    place = place.update(item as int, (p as int, k as int));
                }
                k += 1;
            }
            assert(pattern@.take(pattern@.len() as int) =~= pattern@);
            p += 1;
        }
        let mut item: usize = 0;
        while item < n
            invariant
                item <= n,
                n == sizes.len(),
                sizes == self.item_sizes@,
                all == patterns_view(patterns@),
                tracks(all, n as int, seen@, place, patterns@.len() as int, 0),
                forall|i: int| 0 <= i < item ==> seen@[i],
            decreases n - item,
        {
            if !seen[item] {
                proof {
                    if packed_once(all, item as int) {
                        let (q, m) = choose|q: int, m: int| #[trigger]
                            packs_at(all, q, m, item as int);
                        assert(seen@[all[q][m] as int]);
                    }
                }
                return false;
            }
            item += 1;
        }
        proof {
            assert forall|i: int| 0 <= i < sizes.len() implies packed_once(all, i) by {
                let (q, m) = place[i];
                assert(seen@[i]);
                assert(packs_at(all, q, m, i));
            }
        }
        true
    }
}

} // verus!
