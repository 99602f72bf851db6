//! The calls into `rand` and `itertools`: where randomness and sorting come from.

use vstd::prelude::*;
use vstd::relations::sorted_by;
use itertools::Itertools;
use rand::Rng;
use rand::seq::{IteratorRandom, SliceRandom};
use crate::table::{LineItem, Table, WeightError, item_weights, weighted_error, weights_overflow};

verus! {

/// Ascending order on `i32`.
pub open spec fn ascending() -> spec_fn(i32, i32) -> bool {
    |a: i32, b: i32| a <= b
}

/// `rand::Rng::gen_range(1..=faces)` on `rand::thread_rng()`: some value from 1 to `faces`.
/// Which one is left open; the range is not empty, so the call does not panic.
#[verifier::external_body]
pub fn roll_die(faces: i32) -> (v: i32)
    requires
        faces >= 1,
    ensures
        1 <= v <= faces,
{
    rand::thread_rng().gen_range(1..=faces)
}

/// `itertools::Itertools::sorted` on the values: the same values, in ascending order.
#[verifier::external_body]
pub fn sorted_ascending(values: Vec<i32>) -> (r: Vec<i32>)
    ensures
        r@.to_multiset() == values@.to_multiset(),
        sorted_by(r@, ascending()),
{
    values.into_iter().sorted().collect()
}


/// `rand::seq::SliceRandom::choose_weighted` on the line items, each weighted by its `weight`
/// field, with `rand::thread_rng()`; its `WeightedError` is told apart variant by variant.
///
/// `WeightedIndex::new` (which the call builds) adds the weights up from the first and stops at
/// the first negative one; the `requires` leaves out the weights on which that sum overflows,
/// where it would panic. It fails on no items (`NoItem`), a negative weight (`InvalidWeight`) or
/// weights that are all zero (`AllWeightsZero`), and never with `TooMany`. Otherwise it returns
/// one of the items with a positive weight; which one is left open.
#[verifier::external_body]
pub fn choose_weighted_item(items: &Vec<LineItem>) -> (r: Result<&LineItem, WeightError>)
    requires
        !weights_overflow(item_weights(items@)),
    ensures
        match r {
            Ok(item) => weighted_error(item_weights(items@)) is None
                && exists|i: int| 0 <= i < items@.len() && #[trigger] items@[i] == *item && items@[i].weight > 0,
            Err(e) => weighted_error(item_weights(items@)) == Some(e),
        },
{
    match items.choose_weighted(&mut rand::thread_rng(), |item| item.weight) {
        Ok(item) => Ok(item),
        Err(rand::distributions::WeightedError::NoItem) => Err(WeightError::NoItem),
        Err(rand::distributions::WeightedError::InvalidWeight) => Err(WeightError::InvalidWeight),
        Err(rand::distributions::WeightedError::AllWeightsZero) => Err(WeightError::AllWeightsZero),
        Err(rand::distributions::WeightedError::TooMany) => Err(WeightError::TooMany),
    }
}

/// `rand::seq::IteratorRandom::choose` on the tables, with `rand::thread_rng()`: `None` when
/// there are none, otherwise one of them; which one is left open.
#[verifier::external_body]
pub fn choose_table(tables: &Vec<Table>) -> (r: Option<&Table>)
    ensures
        r is None <==> tables@.len() == 0,
        r matches Some(t) ==> exists|i: int| 0 <= i < tables@.len() && #[trigger] tables@[i] == *t,
{
    tables.iter().choose(&mut rand::thread_rng())
}

} // verus!
