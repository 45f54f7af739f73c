use crate::types::{Container, Item};
use rand::rngs::StdRng;
use vstd::prelude::*;

verus! {

/// Why a problem instance could not be built.
#[derive(Clone, Copy, Debug, PartialEq, Eq, Structural)]
pub enum ScenarioError {
    /// A size, a count or a benefit that must be positive is not.
    NonPositive,
    /// A scenario file misses a number or holds a token that is not one.
    Malformed,
    /// The instance is too large: its cells or its total benefit do not fit an `i64`.
    TooLarge,
}

/// Accepts a strictly positive configuration value.
pub fn ensure_positive(n: i64) -> (r: Result<(), ScenarioError>)
    ensures
        r is Ok <==> n >= 1,
        r is Err ==> r == Err::<(), ScenarioError>(ScenarioError::NonPositive),
{
    if n < 1 {
        Err(ScenarioError::NonPositive)
    } else {
        Ok(())
    }
}

/// A random instance: a square container of side `container_square_size`
/// and `item_count` random items, each side at most `item_max_side` and each
/// benefit at most `item_max_benefit`. All four values must be positive.
pub fn random_scenario(
    container_square_size: i64,
    item_count: i64,
    item_max_side: i64,
    item_max_benefit: i64,
    rng: &mut StdRng,
) -> (r: Result<(Container, Vec<Item>), ScenarioError>)
    ensures
        r is Ok <==> (container_square_size >= 1 && item_count >= 1 && item_max_side >= 1
            && item_max_benefit >= 1),
        r is Err ==> r == Err::<(Container, Vec<Item>), ScenarioError>(ScenarioError::NonPositive),
        r matches Ok((c, items)) ==> {
            &&& c.width == container_square_size
            &&& c.height == container_square_size
            &&& items@.len() == item_count
            &&& forall|k: int|
                0 <= k < items@.len() ==> {
                    &&& (#[trigger] items@[k]).valid()
                    &&& items@[k].width <= item_max_side
                    &&& items@[k].height <= item_max_side
                    &&& items@[k].benefit <= item_max_benefit
                }
        },
{
    ensure_positive(container_square_size)?;
    ensure_positive(item_count)?;
    ensure_positive(item_max_side)?;
    ensure_positive(item_max_benefit)?;
    let container: Container = Container::new(container_square_size, container_square_size);
    let mut items: Vec<Item> = Vec::new();
    let mut k: i64 = 0;
    while k < item_count
        invariant
            0 <= k <= item_count,
            item_max_side >= 1,
            item_max_benefit >= 1,
            items@.len() == k,
            forall|j: int|
                0 <= j < items@.len() ==> {
                    &&& (#[trigger] items@[j]).valid()
                    &&& items@[j].width <= item_max_side
                    &&& items@[j].height <= item_max_side
                    &&& items@[j].benefit <= item_max_benefit
                },
        decreases item_count - k,
    {
        items.push(Item::make_random(item_max_side, item_max_side, item_max_benefit, rng));
        k += 1;
    }
    Ok((container, items))
}

} // verus!
