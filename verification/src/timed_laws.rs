//! What maps that depend on time do at a moment.

use vstd::prelude::*;
use crate::scalar::Scalar;
use crate::timed::{Moment, TimeDependentOperator, TimeOperator};
use crate::timed;

verus! {

/// A map applied to a vector a number of times; nothing where it is refused on the way.
pub open spec fn applied_often<T: Moment, V: Scalar, O: TimeDependentOperator<T, V>>(
    map: TimeOperator<O, V>,
    time: T,
    input: Seq<V>,
    count: nat,
) -> Option<Seq<V>>
    decreases count,
{
    if count == 0 {
        Some(input)
    } else {
        match map.maps(time, input) {
            Some(image) => applied_often(map, time, image, (count - 1) as nat),
            None => None,
        }
    }
}

/// A product applies its right factor first and its left factor to what comes out.
pub proof fn products_apply_the_right_factor_first<
    T: Moment,
    V: Scalar,
    O: TimeDependentOperator<T, V>,
>(
    left: TimeOperator<O, V>,
    right: TimeOperator<O, V>,
    product: TimeOperator<O, V>,
    time: T,
    input: Seq<V>,
)
    requires
        time.settled_time(),
        timed::is_product(left, right, product),
    ensures
        right.maps(time, input) is None ==> product.maps(time, input) is None,
        right.maps(time, input) is Some ==> product.maps(time, input) == left.maps(
            time,
            right.maps(time, input)->0,
        ),
{
}

/// A power applies its map as often as the exponent says.
pub proof fn powers_apply_their_map_again_and_again<
    T: Moment,
    V: Scalar,
    O: TimeDependentOperator<T, V>,
>(
    map: TimeOperator<O, V>,
    exponent: nat,
    power: TimeOperator<O, V>,
    time: T,
    input: Seq<V>,
)
    requires
        time.settled_time(),
        timed::is_power(map, exponent, power),
    ensures
        power.maps(time, input) == applied_often(map, time, input, exponent),
    decreases exponent,
{
    reveal_with_fuel(applied_often, 2);
    if exponent > 1 {
        let before = choose|before: TimeOperator<O, V>| #[trigger]
            timed::is_product(before, map, power) && timed::is_power(
                map,
                (exponent - 1) as nat,
                before,
            );
        products_apply_the_right_factor_first(before, map, power, time, input);
        if let Some(image) = map.maps(time, input) {
            powers_apply_their_map_again_and_again(
                map,
                (exponent - 1) as nat,
                before,
                time,
                image,
            );
        }
    } else if exponent == 1 {
        if let Some(image) = map.maps(time, input) {
            assert(applied_often(map, time, image, 0) == Some(image));
        }
    }
}

} // verus!
