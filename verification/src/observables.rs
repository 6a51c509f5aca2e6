//! Observables along a sequence of states, and their fluctuations.

use vstd::prelude::*;
use crate::error::{QmbedError, Result};
use crate::linear::LinearOperator;
use crate::measurement;
use crate::operator;
use crate::scalar::{Normed, Scalar};

verus! {

/// The variance of a map in a state, from the image of the state.
pub open spec fn variance<V: Normed>(state: Seq<V>, image: Seq<V>) -> V::Magnitude {
    let norm = measurement::norm_total(state, state.len());
    V::surplus(
        V::portion(measurement::norm_total(image, image.len()), norm),
        measurement::inner_product(state, image, state.len()).ratio(norm).squared(),
    )
}

/// The variance of a map in a state: the squared norm of the image less the squared
/// magnitude of the expectation value, for the normalized state.
pub fn quantum_fluctuation<V: Normed, O: LinearOperator<V>>(operator: &O, state: &[V]) -> (result:
    Result<V::Magnitude>)
    requires
        operator.usable(),
    ensures
        match result {
            Ok(number) => {
                &&& operator.extent() == (state@.len() as usize, state@.len() as usize)
                &&& V::positive(measurement::norm_total(state@, state@.len()))
                &&& operator.maps(state@) is Some
                &&& number == variance(state@, operator.maps(state@)->0)
            },
            Err(error) => if operator.extent() != (state@.len() as usize, state@.len() as usize) {
                error is DimensionMismatch
            } else if !V::positive(measurement::norm_total(state@, state@.len())) {
                error is InvalidOptions
            } else {
                operator.maps(state@) is None && operator.refuses(state@, error)
            },
        },
{
    let (rows, columns): (usize, usize) = operator.shape();
    let length: usize = state.len();
    if rows != columns || length != rows {
        return Err(
            QmbedError::DimensionMismatch(
                "quantum fluctuation requires a square operator matching the state".to_string(),
            ),
        );
    }
    let norm: V::Magnitude = measurement::total_norm(state);
    if !V::is_positive(norm) {
        return Err(
            QmbedError::InvalidOptions("state must have positive finite norm".to_string()),
        );
    }
    let mut image: Vec<V> = operator::zeros(rows);
    match operator.apply(state, image.as_mut_slice()) {
        Ok(()) => {},
        Err(error) => {
            return Err(error);
        },
    }
    let mean: V = measurement::inner(state, image.as_slice()).divided(norm);
    let second: V::Magnitude = V::quotient(measurement::total_norm(image.as_slice()), norm);
    Ok(V::excess(second, mean.norm_square()))
}

/// The expectation values of a map in states.
pub open spec fn values_along<V: Scalar, O: LinearOperator<V>>(
    operator: &O,
    states: Seq<Vec<V>>,
    values: Seq<V>,
) -> bool {
    &&& values.len() == states.len()
    &&& forall|t: int|
        0 <= t < states.len() ==> measured(operator, states[t]@, #[trigger] values[t])
}

/// The number is the expectation value of the map in the state.
pub open spec fn measured<V: Scalar, O: LinearOperator<V>>(
    operator: &O,
    state: Seq<V>,
    number: V,
) -> bool {
    &&& operator.extent() == (state.len() as usize, state.len() as usize)
    &&& operator.maps(state) is Some
    &&& number == measurement::element_between(state, operator, state)
}

/// A map cannot be measured in a state, and the error says why.
pub open spec fn unmeasured<V: Scalar, O: LinearOperator<V>>(
    operator: &O,
    state: Seq<V>,
    error: QmbedError,
) -> bool {
    if state.len() != operator.extent().0 || state.len() != operator.extent().1 {
        error is DimensionMismatch
    } else {
        operator.maps(state) is None && operator.refuses(state, error)
    }
}

/// The first states can be measured, and the next one cannot.
pub open spec fn stops_along<V: Scalar, O: LinearOperator<V>>(
    operator: &O,
    states: Seq<Vec<V>>,
    at: int,
    error: QmbedError,
) -> bool {
    &&& 0 <= at < states.len()
    &&& unmeasured(operator, states[at]@, error)
    &&& exists|values: Seq<V>| #[trigger] values_along(operator, states.take(at), values)
}

fn measure_along<V: Scalar, O: LinearOperator<V>>(operator: &O, states: &[Vec<V>]) -> (result: Result<
    Vec<V>,
>)
    requires
        operator.usable(),
    ensures
        match result {
            Ok(values) => values_along(operator, states@, values@),
            Err(error) => exists|at: int| #[trigger] stops_along(operator, states@, at, error),
        },
{
    let mut values: Vec<V> = Vec::new();
    while values.len() < states.len()
        invariant
            operator.usable(),
            values@.len() <= states@.len(),
            forall|t: int|
                0 <= t < values@.len() ==> measured(operator, states@[t]@, #[trigger] values@[t]),
        decreases states@.len() - values@.len(),
    {
        let ghost at = values@.len() as int;
        match measurement::expectation(operator, states[values.len()].as_slice()) {
            Ok(number) => {
                assert(measured(operator, states@[at]@, number));
                values.push(number);
            },
            Err(error) => {
                assert(values_along(operator, states@.take(at), values@));
                assert(stops_along(operator, states@, at, error));
                return Err(error);
            },
        }
    }
    Ok(values)
}

/// A map to be measured, by its name.
#[derive(Debug)]
pub struct Observable<O> {
    pub name: String,
    pub operator: O,
}

/// The observable has an empty name or the name of an earlier one.
pub open spec fn misnamed<O>(observables: Seq<Observable<O>>, at: int) -> bool {
    observables[at].name@.len() == 0 || exists|i: int|
        0 <= i < at && (#[trigger] observables[i]).name@ == observables[at].name@
}

/// The observable in a place is well named, and its values are known.
pub open spec fn observed<V: Scalar, O: LinearOperator<V>>(
    observables: Seq<Observable<O>>,
    states: Seq<Vec<V>>,
    at: int,
    values: Seq<V>,
) -> bool {
    !misnamed(observables, at) && values_along(&observables[at].operator, states, values)
}

/// The first observables are well named, and their values are known.
pub open spec fn all_observed<V: Scalar, O: LinearOperator<V>>(
    observables: Seq<Observable<O>>,
    states: Seq<Vec<V>>,
    values: Seq<Vec<V>>,
) -> bool {
    forall|k: int|
        0 <= k < values.len() ==> observed(observables, states, k, (#[trigger] values[k])@)
}

/// The first observables have values, and the next one is misnamed or has none.
pub open spec fn unobserved<V: Scalar, O: LinearOperator<V>>(
    observables: Seq<Observable<O>>,
    states: Seq<Vec<V>>,
    values: Seq<Vec<V>>,
    error: QmbedError,
) -> bool {
    let at = values.len() as int;
    &&& at < observables.len()
    &&& all_observed(observables, states, values)
    &&& if misnamed(observables, at) {
        error is InvalidOptions
    } else {
        exists|t: int| #[trigger] stops_along(&observables[at].operator, states, t, error)
    }
}

fn well_named<O>(observables: &[Observable<O>], at: usize) -> (result: bool)
    requires
        at < observables@.len(),
    ensures
        result == !misnamed(observables@, at as int),
{
    if observables[at].name.as_str().unicode_len() == 0 {
        return false;
    }
    let mut index: usize = 0;
    while index < at
        invariant
            index <= at < observables@.len(),
            forall|i: int|
                0 <= i < index ==> (#[trigger] observables@[i]).name@
                    != observables@[at as int].name@,
        decreases at - index,
    {
        if observables[index].name == observables[at].name {
            assert(observables@[index as int].name@ == observables@[at as int].name@);
            return false;
        }
        index = index + 1;
    }
    true
}

/// The expectation values of observables in the states of a trajectory, in the order of
/// the observables. Names have to tell the observables apart.
pub fn observables_vs_time<V: Scalar, O: LinearOperator<V>>(
    times: usize,
    states: &[Vec<V>],
    observables: &[Observable<O>],
) -> (result: Result<Vec<Vec<V>>>)
    requires
        forall|k: int|
            0 <= k < observables@.len() ==> (#[trigger] observables@[k]).operator.usable(),
    ensures
        match result {
            Ok(values) => {
                &&& times == states@.len()
                &&& values@.len() == observables@.len()
                &&& all_observed(observables@, states@, values@)
            },
            Err(error) => if times != states@.len() {
                error is DimensionMismatch
            } else {
                exists|values: Seq<Vec<V>>| #[trigger]
                    unobserved(observables@, states@, values, error)
            },
        },
{
    if times != states.len() {
        return Err(
            QmbedError::DimensionMismatch(
                "trajectory times and states must have equal lengths".to_string(),
            ),
        );
    }
    let mut values: Vec<Vec<V>> = Vec::new();
    while values.len() < observables.len()
        invariant
            times == states@.len(),
            forall|k: int|
                0 <= k < observables@.len() ==> (#[trigger] observables@[k]).operator.usable(),
            values@.len() <= observables@.len(),
            all_observed(observables@, states@, values@),
        decreases observables@.len() - values@.len(),
    {
        let at: usize = values.len();
        if !well_named(observables, at) {
            let error: QmbedError = QmbedError::InvalidOptions(
                "observable names must be nonempty and unique".to_string(),
            );
            assert(unobserved(observables@, states@, values@, error));
            return Err(error);
        }
        assert(observables@[at as int].operator.usable());
        match measure_along(&observables[at].operator, states) {
            Ok(list) => {
                values.push(list);
            },
            Err(error) => {
                assert(unobserved(observables@, states@, values@, error));
                return Err(error);
            },
        }
    }
    Ok(values)
}

} // verus!
