//! Random bin-packing instances.

use rand::rngs::SmallRng;
use rand::Rng;
use rand::SeedableRng;
use vstd::prelude::*;

verus! {

#[verifier::external_type_specification]
#[verifier::external_body]
pub struct ExSmallRng(rand::rngs::SmallRng);

/// Calls `SmallRng::from_seed` of the `rand` crate with the all-zero
/// seed.  Nothing is claimed of the generator it returns.
#[verifier::external_body]
fn seeded_rng() -> SmallRng {
    SmallRng::from_seed([0u8; 32])
}

/// Calls `Rng::random_range` of the `rand` crate on the range from one to
/// `capacity`, exclusive.  The contract claims that the value drawn lies
/// in that range, as the crate documents; `random_range` panics on an
/// empty range, which the precondition leaves out.
#[verifier::external_body]
fn random_size(rng: &mut SmallRng, capacity: u64) -> (size: u64)
    requires
        1 < capacity,
    ensures
        1 <= size < capacity,
{
    rng.random_range(1..capacity)
}

/// Draws the sizes of `items` items at random, each at least one and
/// below `capacity`.  Returns `None` when items are asked for and no such
/// size exists, which is when `capacity` is below two.
pub fn generate_binpacking(items: usize, capacity: u64) -> (r: Option<Vec<u64>>)
    ensures
        r is None <==> items > 0 && capacity < 2,
        r matches Some(sizes) ==> sizes@.len() == items && forall|i: int|
            0 <= i < items ==> 1 <= #[trigger] sizes@[i] < capacity,
{
    if items > 0 && capacity < 2 {
        return None;
    }
    let mut rng = seeded_rng();
    let mut sizes: Vec<u64> = Vec::new();
    let mut i: usize = 0;
    while i < items
        invariant
            i <= items,
            items > 0 ==> 1 < capacity,
            sizes@.len() == i,
            forall|k: int| 0 <= k < i ==> 1 <= #[trigger] sizes@[k] < capacity,
        decreases items - i,
    {
        let size = random_size(&mut rng, capacity);
        sizes.push(size);
        i += 1;
    }
    Some(sizes)
}

} // verus!
