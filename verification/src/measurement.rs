//! Matrix elements, reduced density matrices and projected operators.

use vstd::prelude::*;
use crate::columns;
use crate::error::{QmbedError, Result};
use crate::linear::LinearOperator;
use crate::operator::{MatrixFormat, Operator};
use crate::operator;
use crate::projector::BasisProjector;
use crate::projector;
use crate::scalar::{Normed, Scalar};

verus! {

/// The inner product of the first components, the left ones conjugated.
pub open spec fn inner_product<V: Scalar>(left: Seq<V>, right: Seq<V>, upto: nat) -> V
    decreases upto,
{
    if upto == 0 {
        V::zero_value()
    } else {
        inner_product(left, right, (upto - 1) as nat).sum(
            left[upto - 1].mirror().product(right[upto - 1]),
        )
    }
}

/// The inner product of two vectors.
pub fn inner<V: Scalar>(left: &[V], right: &[V]) -> (number: V)
    requires
        left@.len() == right@.len(),
    ensures
        number == inner_product(left@, right@, left@.len()),
{
    let mut number: V = V::zero();
    let mut index: usize = 0;
    while index < left.len()
        invariant
            index <= left@.len(),
            left@.len() == right@.len(),
            number == inner_product(left@, right@, index as nat),
        decreases left@.len() - index,
    {
        number = number.plus(left[index].conjugate().times(right[index]));
        index = index + 1;
    }
    number
}

/// The inner product of a vector with the image of another.
pub open spec fn element_between<V: Scalar, O: LinearOperator<V>>(
    left: Seq<V>,
    operator: &O,
    right: Seq<V>,
) -> V {
    inner_product(left, operator.maps(right)->0, left.len())
}

/// The matrix element of a map between two vectors.
pub fn matrix_element<V: Scalar, O: LinearOperator<V>>(left: &[V], operator: &O, right: &[V]) -> (result:
    Result<V>)
    requires
        operator.usable(),
    ensures
        match result {
            Ok(number) => {
                &&& left@.len() == operator.extent().0
                &&& right@.len() == operator.extent().1
                &&& operator.maps(right@) is Some
                &&& number == element_between(left@, operator, right@)
            },
            Err(error) => if left@.len() != operator.extent().0 || right@.len()
                != operator.extent().1 {
                error is DimensionMismatch
            } else {
                operator.maps(right@) is None && operator.refuses(right@, error)
            },
        },
{
    let (rows, columns): (usize, usize) = operator.shape();
    if left.len() != rows || right.len() != columns {
        return Err(
            QmbedError::DimensionMismatch(
                "matrix-element vectors do not match the operator shape".to_string(),
            ),
        );
    }
    let mut image: Vec<V> = operator::zeros(rows);
    match operator.apply(right, image.as_mut_slice()) {
        Ok(()) => Ok(inner(left, image.as_slice())),
        Err(error) => Err(error),
    }
}

/// The expectation value of a map in a state.
pub fn expectation<V: Scalar, O: LinearOperator<V>>(operator: &O, state: &[V]) -> (result: Result<V>)
    requires
        operator.usable(),
    ensures
        match result {
            Ok(number) => {
                &&& state@.len() == operator.extent().0
                &&& state@.len() == operator.extent().1
                &&& operator.maps(state@) is Some
                &&& number == element_between(state@, operator, state@)
            },
            Err(error) => if state@.len() != operator.extent().0 || state@.len()
                != operator.extent().1 {
                error is DimensionMismatch
            } else {
                operator.maps(state@) is None && operator.refuses(state@, error)
            },
        },
{
    matrix_element(state, operator, state)
}

/// No name is empty and no two are equal.
pub open spec fn distinct(names: Seq<String>) -> bool {
    &&& forall|i: int| 0 <= i < names.len() ==> (#[trigger] names[i])@.len() > 0
    &&& forall|i: int, j: int|
        0 <= i < j < names.len() ==> (#[trigger] names[i])@ != (#[trigger] names[j])@
}

/// Whether names can tell observables apart: none is empty and no two are equal.
pub fn distinct_names(names: &[String]) -> (result: bool)
    ensures
        result == distinct(names@),
{
    let mut index: usize = 0;
    while index < names.len()
        invariant
            index <= names@.len(),
            distinct(names@.take(index as int)),
        decreases names@.len() - index,
    {
        if names[index].as_str().unicode_len() == 0 {
            assert(names@[index as int]@.len() == 0);
            return false;
        }
        let mut other: usize = 0;
        while other < index
            invariant
                other <= index < names@.len(),
                forall|i: int|
                    0 <= i < other ==> (#[trigger] names@[i])@ != names@[index as int]@,
            decreases index - other,
        {
            if names[other] == names[index] {
                assert(names@[other as int]@ == names@[index as int]@);
                return false;
            }
            other = other + 1;
        }
        proof {
            let before = names@.take(index as int);
            let after = names@.take(index + 1);
            assert forall|i: int| 0 <= i < after.len() implies (#[trigger] after[i])@.len() > 0 by {
                if i < index {
                    assert(before[i] == after[i]);
                }
            }
            assert forall|i: int, j: int| 0 <= i < j < after.len() implies (#[trigger] after[i])@
                != (#[trigger] after[j])@ by {
                assert(after[i] == names@[i] && after[j] == names@[j]);
                if j < index {
                    assert(before[i] == after[i] && before[j] == after[j]);
                }
            }
        }
        index = index + 1;
    }
    assert(names@.take(index as int) =~= names@);
    true
}

/// The sum of the squared magnitudes of the first components.
pub open spec fn norm_total<V: Normed>(state: Seq<V>, upto: nat) -> V::Magnitude
    decreases upto,
{
    if upto == 0 {
        V::nothing()
    } else {
        V::joined(norm_total(state, (upto - 1) as nat), state[upto - 1].squared())
    }
}

pub(crate) fn total_norm<V: Normed>(state: &[V]) -> (total: V::Magnitude)
    ensures
        total == norm_total(state@, state@.len()),
{
    let mut total: V::Magnitude = V::no_magnitude();
    let mut index: usize = 0;
    while index < state.len()
        invariant
            index <= state@.len(),
            total == norm_total(state@, index as nat),
        decreases state@.len() - index,
    {
        total = V::add_magnitudes(total, state[index].norm_square());
        index = index + 1;
    }
    total
}

/// The sum over the first states of the environment of products of two components of a
/// normalized state.
pub open spec fn traced<V: Normed>(
    state: Seq<V>,
    environment: int,
    left: int,
    right: int,
    upto: nat,
) -> V
    decreases upto,
{
    if upto == 0 {
        V::zero_value()
    } else {
        traced(state, environment, left, right, (upto - 1) as nat).sum(
            state[operator::cell_index(environment, left, upto - 1)].product(
                state[operator::cell_index(environment, right, upto - 1)].mirror(),
            ).ratio(norm_total(state, state.len())),
        )
    }
}

/// The values are the reduced density matrix of the first factor, row by row.
pub open spec fn reduces<V: Normed>(
    state: Seq<V>,
    subsystem: int,
    environment: int,
    density: Seq<V>,
) -> bool {
    &&& density.len() == subsystem * subsystem
    &&& forall|left: int, right: int|
        0 <= left < subsystem && 0 <= right < subsystem
            ==> #[trigger] density[operator::cell_index(subsystem, left, right)] == traced(
            state,
            environment,
            left,
            right,
            environment as nat,
        )
}

/// The reduced density matrix of the first factor of a state of two factors.
pub fn partial_trace<V: Normed>(
    state: &[V],
    subsystem_dimension: usize,
    environment_dimension: usize,
) -> (result: Result<Vec<V>>)
    requires
        subsystem_dimension * subsystem_dimension <= usize::MAX,
    ensures
        match result {
            Ok(density) => {
                &&& subsystem_dimension > 0
                &&& environment_dimension > 0
                &&& state@.len() == subsystem_dimension * environment_dimension
                &&& V::positive(norm_total(state@, state@.len()))
                &&& reduces(
                    state@,
                    subsystem_dimension as int,
                    environment_dimension as int,
                    density@,
                )
            },
            Err(error) => if subsystem_dimension == 0 || environment_dimension == 0 || state@.len()
                != subsystem_dimension * environment_dimension {
                error is DimensionMismatch
            } else {
                error is InvalidOptions && !V::positive(norm_total(state@, state@.len()))
            },
        },
{
    let length: usize = state.len();
    let fits: bool = match subsystem_dimension.checked_mul(environment_dimension) {
        Some(product) => length == product,
        None => false,
    };
    if subsystem_dimension == 0 || environment_dimension == 0 || !fits {
        return Err(
            QmbedError::DimensionMismatch(
                "state length must equal subsystem_dimension * environment_dimension".to_string(),
            ),
        );
    }
    let norm: V::Magnitude = total_norm(state);
    if !V::is_positive(norm) {
        return Err(
            QmbedError::InvalidOptions("state must have positive finite norm".to_string()),
        );
    }
    let ghost size = subsystem_dimension as int;
    let mut density: Vec<V> = Vec::new();
    let mut left: usize = 0;
    assert(0 * size == 0) by (nonlinear_arith);
    while left < subsystem_dimension
        invariant
            size == subsystem_dimension,
            state@.len() == subsystem_dimension * environment_dimension,
            length == state@.len(),
            norm == norm_total(state@, state@.len()),
            V::positive(norm),
            left <= subsystem_dimension,
            density@.len() == left * size,
            forall|l: int, r: int|
                0 <= l < left && 0 <= r < size ==> #[trigger] density@[operator::cell_index(
                    size,
                    l,
                    r,
                )] == traced(
                    state@,
                    environment_dimension as int,
                    l,
                    r,
                    environment_dimension as nat,
                ),
        decreases subsystem_dimension - left,
    {
        let ghost before = density@;
        let mut right: usize = 0;
        while right < subsystem_dimension
            invariant
                size == subsystem_dimension,
                state@.len() == subsystem_dimension * environment_dimension,
                length == state@.len(),
                norm == norm_total(state@, state@.len()),
                V::positive(norm),
                left < subsystem_dimension,
                right <= subsystem_dimension,
                before.len() == left * size,
                density@.len() == left * size + right,
                forall|i: int| 0 <= i < before.len() ==> #[trigger] density@[i] == before[i],
                forall|r: int|
                    0 <= r < right ==> #[trigger] density@[left * size + r] == traced(
                        state@,
                        environment_dimension as int,
                        left as int,
                        r,
                        environment_dimension as nat,
                    ),
            decreases subsystem_dimension - right,
        {
            let mut sum: V = V::zero();
            let mut at: usize = 0;
            while at < environment_dimension
                invariant
                    state@.len() == subsystem_dimension * environment_dimension,
                    length == state@.len(),
                    norm == norm_total(state@, state@.len()),
                    V::positive(norm),
                    left < subsystem_dimension,
                    right < subsystem_dimension,
                    at <= environment_dimension,
                    sum == traced(
                        state@,
                        environment_dimension as int,
                        left as int,
                        right as int,
                        at as nat,
                    ),
                decreases environment_dimension - at,
            {
                proof {
                    operator::lemma_cell_index(
                        subsystem_dimension as int,
                        environment_dimension as int,
                        left as int,
                        at as int,
                    );
                    operator::lemma_cell_index(
                        subsystem_dimension as int,
                        environment_dimension as int,
                        right as int,
                        at as int,
                    );
                }
                let first: V = state[left * environment_dimension + at];
                let second: V = state[right * environment_dimension + at];
                sum = sum.plus(first.times(second.conjugate()).divided(norm));
                at = at + 1;
            }
            density.push(sum);
            right = right + 1;
        }
        proof {
            assert((left + 1) * size == left * size + size) by (nonlinear_arith);
            assert forall|l: int, r: int| 0 <= l < left + 1 && 0 <= r < size implies
                #[trigger] density@[operator::cell_index(size, l, r)] == traced(
                state@,
                environment_dimension as int,
                l,
                r,
                environment_dimension as nat,
            ) by {
                if l < left {
                    operator::lemma_cell_index(left as int, size, l, r);
                    assert(density@[operator::cell_index(size, l, r)]
                        == before[operator::cell_index(size, l, r)]);
                } else {
                    assert(density@[left * size + r] == traced(
                        state@,
                        environment_dimension as int,
                        left as int,
                        r,
                        environment_dimension as nat,
                    ));
                }
            }
        }
        left = left + 1;
    }
    Ok(density)
}

/// The sum of the magnitudes of the first cells on the diagonal of a density matrix.
pub open spec fn diagonal_total<V: Normed>(density: Seq<V>, size: int, upto: nat) -> V::Magnitude
    decreases upto,
{
    if upto == 0 {
        V::nothing()
    } else {
        V::joined(
            diagonal_total(density, size, (upto - 1) as nat),
            V::root_value(density[operator::cell_index(size, upto - 1, upto - 1)].squared()),
        )
    }
}

/// The sum over the first states of the environment of cells of a normalized density matrix.
pub open spec fn density_traced<V: Normed>(
    density: Seq<V>,
    subsystem: int,
    environment: int,
    left: int,
    right: int,
    upto: nat,
) -> V
    decreases upto,
{
    if upto == 0 {
        V::zero_value()
    } else {
        let size = subsystem * environment;
        density_traced(density, subsystem, environment, left, right, (upto - 1) as nat).sum(
            density[operator::cell_index(
                size,
                operator::cell_index(environment, left, upto - 1),
                operator::cell_index(environment, right, upto - 1),
            )].ratio(diagonal_total(density, size, size as nat)),
        )
    }
}

/// The values are the reduced density matrix of the first factor of a mixed state, row by
/// row.
pub open spec fn density_reduces<V: Normed>(
    density: Seq<V>,
    subsystem: int,
    environment: int,
    reduced: Seq<V>,
) -> bool {
    &&& reduced.len() == subsystem * subsystem
    &&& forall|left: int, right: int|
        0 <= left < subsystem && 0 <= right < subsystem
            ==> #[trigger] reduced[operator::cell_index(subsystem, left, right)] == density_traced(
            density,
            subsystem,
            environment,
            left,
            right,
            environment as nat,
        )
}

fn total_diagonal<V: Normed>(density: &[V], size: usize) -> (total: V::Magnitude)
    requires
        density@.len() == size * size,
    ensures
        total == diagonal_total(density@, size as int, size as nat),
{
    let length: usize = density.len();
    let mut total: V::Magnitude = V::no_magnitude();
    let mut index: usize = 0;
    while index < size
        invariant
            length == density@.len(),
            density@.len() == size * size,
            index <= size,
            total == diagonal_total(density@, size as int, index as nat),
        decreases size - index,
    {
        proof {
            operator::lemma_cell_index(size as int, size as int, index as int, index as int);
        }
        total = V::add_magnitudes(total, V::root(density[index * size + index].norm_square()));
        index = index + 1;
    }
    total
}

/// The reduced density matrix of the first factor of a mixed state of two factors, given by
/// its density matrix, row by row.
pub fn partial_trace_density<V: Normed>(
    density: &[V],
    subsystem_dimension: usize,
    environment_dimension: usize,
) -> (result: Result<Vec<V>>)
    ensures
        ({
            let size = subsystem_dimension * environment_dimension;
            match result {
                Ok(reduced) => {
                    &&& subsystem_dimension > 0
                    &&& environment_dimension > 0
                    &&& density@.len() == size * size
                    &&& V::positive(diagonal_total(density@, size, size as nat))
                    &&& density_reduces(
                        density@,
                        subsystem_dimension as int,
                        environment_dimension as int,
                        reduced@,
                    )
                },
                Err(error) => if subsystem_dimension == 0 || environment_dimension == 0
                    || density@.len() != size * size {
                    error is DimensionMismatch
                } else {
                    error is InvalidOptions && !V::positive(
                        diagonal_total(density@, size, size as nat),
                    )
                },
            }
        }),
{
    let length: usize = density.len();
    let ghost wide = subsystem_dimension * environment_dimension;
    let size: usize = match subsystem_dimension.checked_mul(environment_dimension) {
        Some(size) => size,
        None => {
            assert(wide * wide > usize::MAX) by (nonlinear_arith)
                requires
                    wide > usize::MAX,
            ;
            return Err(wrong_density());
        },
    };
    let fits: bool = match size.checked_mul(size) {
        Some(area) => length == area,
        None => false,
    };
    if subsystem_dimension == 0 || environment_dimension == 0 || !fits {
        return Err(wrong_density());
    }
    let weight: V::Magnitude = total_diagonal(density, size);
    if !V::is_positive(weight) {
        return Err(
            QmbedError::InvalidOptions("density matrix must have positive finite trace".to_string()),
        );
    }
    let ghost inner = subsystem_dimension as int;
    let ghost outer = environment_dimension as int;
    let mut reduced: Vec<V> = Vec::new();
    let mut left: usize = 0;
    assert(0 * inner == 0) by (nonlinear_arith);
    while left < subsystem_dimension
        invariant
            inner == subsystem_dimension,
            outer == environment_dimension,
            size == inner * outer,
            length == density@.len(),
            density@.len() == size * size,
            weight == diagonal_total(density@, size as int, size as nat),
            V::positive(weight),
            left <= subsystem_dimension,
            reduced@.len() == left * inner,
            forall|l: int, r: int|
                0 <= l < left && 0 <= r < inner ==> #[trigger] reduced@[operator::cell_index(
                    inner,
                    l,
                    r,
                )] == density_traced(density@, inner, outer, l, r, outer as nat),
        decreases subsystem_dimension - left,
    {
        let ghost before = reduced@;
        let mut right: usize = 0;
        while right < subsystem_dimension
            invariant
                inner == subsystem_dimension,
                outer == environment_dimension,
                size == inner * outer,
                length == density@.len(),
                density@.len() == size * size,
                weight == diagonal_total(density@, size as int, size as nat),
                V::positive(weight),
                left < subsystem_dimension,
                right <= subsystem_dimension,
                before.len() == left * inner,
                reduced@.len() == left * inner + right,
                forall|i: int| 0 <= i < before.len() ==> #[trigger] reduced@[i] == before[i],
                forall|r: int|
                    0 <= r < right ==> #[trigger] reduced@[left * inner + r] == density_traced(
                        density@,
                        inner,
                        outer,
                        left as int,
                        r,
                        outer as nat,
                    ),
            decreases subsystem_dimension - right,
        {
            let mut sum: V = V::zero();
            let mut at: usize = 0;
            while at < environment_dimension
                invariant
                    inner == subsystem_dimension,
                    outer == environment_dimension,
                    size == inner * outer,
                    length == density@.len(),
                    density@.len() == size * size,
                    weight == diagonal_total(density@, size as int, size as nat),
                    V::positive(weight),
                    left < subsystem_dimension,
                    right < subsystem_dimension,
                    at <= environment_dimension,
                    sum == density_traced(
                        density@,
                        inner,
                        outer,
                        left as int,
                        right as int,
                        at as nat,
                    ),
                decreases environment_dimension - at,
            {
                proof {
                    operator::lemma_cell_index(inner, outer, left as int, at as int);
                    operator::lemma_cell_index(inner, outer, right as int, at as int);
                    operator::lemma_cell_index(
                        size as int,
                        size as int,
                        left * outer + at,
                        right * outer + at,
                    );
                }
                let row: usize = left * environment_dimension + at;
                let column: usize = right * environment_dimension + at;
                sum = sum.plus(density[row * size + column].divided(weight));
                at = at + 1;
            }
            reduced.push(sum);
            right = right + 1;
        }
        proof {
            assert((left + 1) * inner == left * inner + inner) by (nonlinear_arith);
            assert forall|l: int, r: int| 0 <= l < left + 1 && 0 <= r < inner implies
                #[trigger] reduced@[operator::cell_index(inner, l, r)] == density_traced(
                density@,
                inner,
                outer,
                l,
                r,
                outer as nat,
            ) by {
                if l < left {
                    operator::lemma_cell_index(left as int, inner, l, r);
                    assert(reduced@[operator::cell_index(inner, l, r)]
                        == before[operator::cell_index(inner, l, r)]);
                } else {
                    assert(reduced@[left * inner + r] == density_traced(
                        density@,
                        inner,
                        outer,
                        left as int,
                        r,
                        outer as nat,
                    ));
                }
            }
        }
        left = left + 1;
    }
    proof {
        assert(inner * inner <= size * size) by (nonlinear_arith)
            requires
                size == inner * outer,
                inner > 0,
                outer > 0,
        ;
    }
    Ok(reduced)
}

fn wrong_density() -> (error: QmbedError)
    ensures
        error is DimensionMismatch,
{
    QmbedError::DimensionMismatch(
        "density matrix must be square with subsystem_dimension * environment_dimension rows".to_string(),
    )
}

/// An energy lies no farther from the center of a window than half its width.
pub open spec fn in_window<V: Normed>(
    energy: V::Magnitude,
    center: V::Magnitude,
    half_width: V::Magnitude,
) -> bool {
    V::at_most(energy, V::joined(center, half_width)) && V::at_most(
        center,
        V::joined(energy, half_width),
    )
}

/// The places of the first energies that lie in a window, in order.
pub open spec fn window_places<V: Normed>(
    energies: Seq<V::Magnitude>,
    center: V::Magnitude,
    half_width: V::Magnitude,
    upto: nat,
) -> Seq<usize>
    decreases upto,
{
    if upto == 0 {
        Seq::empty()
    } else {
        let before = window_places::<V>(energies, center, half_width, (upto - 1) as nat);
        if in_window::<V>(energies[upto - 1], center, half_width) {
            before.push((upto - 1) as usize)
        } else {
            before
        }
    }
}

/// The places of the energies that lie in a window.
pub fn energy_window_indices<V: Normed>(
    energies: &[V::Magnitude],
    center: V::Magnitude,
    half_width: V::Magnitude,
) -> (result: Result<Vec<usize>>)
    ensures
        match result {
            Ok(places) => V::askable(half_width) && places@ == window_places::<V>(
                energies@,
                center,
                half_width,
                energies@.len(),
            ),
            Err(error) => error is InvalidOptions && !V::askable(half_width),
        },
{
    if !V::is_askable(half_width) {
        return Err(
            QmbedError::InvalidOptions(
                "energy window width must be finite and nonnegative".to_string(),
            ),
        );
    }
    let mut places: Vec<usize> = Vec::new();
    let mut index: usize = 0;
    while index < energies.len()
        invariant
            index <= energies@.len(),
            places@ == window_places::<V>(energies@, center, half_width, index as nat),
        decreases energies@.len() - index,
    {
        let energy: V::Magnitude = energies[index];
        if V::is_at_most(energy, V::add_magnitudes(center, half_width)) && V::is_at_most(
            center,
            V::add_magnitudes(energy, half_width),
        ) {
            places.push(index);
        }
        index = index + 1;
    }
    Ok(places)
}

/// A column of an operator seen through a projector: from the reduced space into the
/// reduced space, or from the parent space into the parent space.
pub open spec fn projected_column<V: Scalar, O: LinearOperator<V>>(
    operator: &O,
    projector: &BasisProjector<V>,
    lifting: bool,
    column: int,
) -> Option<Seq<V>> {
    if lifting {
        let start = projector::unit(projector.rows() as nat, column);
        match operator.maps(projector.projection(start)) {
            Some(image) => Some(projector.lift(image)),
            None => None,
        }
    } else {
        let start = projector::unit(projector.columns() as nat, column);
        match operator.maps(projector.lift(start)) {
            Some(image) => Some(projector.projection(image)),
            None => None,
        }
    }
}

/// The operator is lifted into the parent space: its dimension is that of the reduced
/// space.
pub open spec fn lifts<V: Scalar, O: LinearOperator<V>>(
    operator: &O,
    projector: &BasisProjector<V>,
) -> bool {
    operator.extent().0 == projector.columns()
}

/// The operator is square, in the parent space or in the reduced space.
pub open spec fn projectable<V: Scalar, O: LinearOperator<V>>(
    operator: &O,
    projector: &BasisProjector<V>,
) -> bool {
    &&& operator.extent().0 == operator.extent().1
    &&& operator.extent().0 == projector.rows() || operator.extent().0 == projector.columns()
}

/// The dimension of the projected operator.
pub open spec fn projected_size<V: Scalar, O: LinearOperator<V>>(
    operator: &O,
    projector: &BasisProjector<V>,
) -> usize {
    if lifts(operator, projector) {
        projector.rows()
    } else {
        projector.columns()
    }
}

/// The columns of the projected operator.
pub open spec fn projected_columns<V: Scalar, O: LinearOperator<V>>(
    operator: &O,
    projector: &BasisProjector<V>,
    list: Seq<Vec<V>>,
) -> bool {
    &&& list.len() == projected_size(operator, projector)
    &&& forall|c: int|
        0 <= c < list.len() ==> column_projected(operator, projector, c, #[trigger] list[c]@)
}

pub open spec fn column_projected<V: Scalar, O: LinearOperator<V>>(
    operator: &O,
    projector: &BasisProjector<V>,
    column: int,
    image: Seq<V>,
) -> bool {
    projected_column(operator, projector, lifts(operator, projector), column) == Some(image)
}

/// The column is the first that the operator refuses, and it is refused with the error.
pub open spec fn unprojected<V: Scalar, O: LinearOperator<V>>(
    operator: &O,
    projector: &BasisProjector<V>,
    column: int,
    error: QmbedError,
) -> bool {
    let lifting = lifts(operator, projector);
    let size = projected_size(operator, projector);
    let start = projector::unit(size as nat, column);
    &&& 0 <= column < size
    &&& projected_column(operator, projector, lifting, column) is None
    &&& operator.refuses(
        if lifting {
            projector.projection(start)
        } else {
            projector.lift(start)
        },
        error,
    )
    &&& forall|c: int|
        0 <= c < column ==> (#[trigger] projected_column(operator, projector, lifting, c)) is Some
}

/// The operator seen through a projector, one column at a time.
pub fn project_operator<V: Scalar, O: LinearOperator<V>>(
    operator: &O,
    projector: &BasisProjector<V>,
    format: MatrixFormat,
) -> (result: Result<Operator<V>>)
    requires
        operator.usable(),
        projector.wf(),
        operator::storable(
            projected_size(operator, projector),
            projected_size(operator, projector),
            format,
        ),
    ensures
        match result {
            Ok(matrix) => projectable(operator, projector) && exists|list: Seq<Vec<V>>|
                {
                    &&& #[trigger] projected_columns(operator, projector, list)
                    &&& columns::holds_columns(
                        &matrix,
                        projected_size(operator, projector),
                        list,
                        format,
                    )
                },
            Err(error) => if !projectable(operator, projector) {
                error is DimensionMismatch
            } else {
                ||| exists|c: int| #[trigger] unprojected(operator, projector, c, error)
                ||| error is InvalidCoupling && exists|list: Seq<Vec<V>>| #[trigger]
                    projected_columns(operator, projector, list) && !columns::finite_columns(list)
            },
        },
{
    let parent: usize = projector.source_dimension();
    let reduced: usize = projector.reduced_dimension();
    let (rows, taken): (usize, usize) = operator.shape();
    if rows != taken || (rows != parent && rows != reduced) {
        return Err(
            QmbedError::DimensionMismatch(
                "operator dimension must match the parent or reduced projector space".to_string(),
            ),
        );
    }
    let lifting: bool = rows == reduced;
    let size: usize = if lifting {
        parent
    } else {
        reduced
    };
    let mut list: Vec<Vec<V>> = Vec::new();
    while list.len() < size
        invariant
            operator.usable(),
            projector.wf(),
            projectable(operator, projector),
            operator.extent() == (rows, taken),
            parent == projector.rows(),
            reduced == projector.columns(),
            lifting == lifts(operator, projector),
            size == projected_size(operator, projector),
            list@.len() <= size,
            forall|c: int|
                0 <= c < list@.len() ==> (#[trigger] list@[c])@.len() == size && column_projected(
                    operator,
                    projector,
                    c,
                    list@[c]@,
                ),
        decreases size - list@.len(),
    {
        let column: usize = list.len();
        let mut start: Vec<V> = operator::zeros(size);
        start.set(column, V::one());
        assert(start@ =~= projector::unit(size as nat, column as int));
        let inward: Result<Vec<V>> = if lifting {
            projector.projected(start.as_slice())
        } else {
            projector.lifted(start.as_slice())
        };
        let inside: Vec<V> = match inward {
            Ok(vector) => vector,
            Err(error) => {
                assert(false);
                return Err(error);
            },
        };
        let mut image: Vec<V> = operator::zeros(rows);
        match operator.apply(inside.as_slice(), image.as_mut_slice()) {
            Ok(()) => {},
            Err(error) => {
                proof {
                    assert forall|c: int| 0 <= c < column implies (#[trigger] projected_column(
                        operator,
                        projector,
                        lifting,
                        c,
                    )) is Some by {
                        assert(list@[c]@.len() == size);
                    }
                    assert(unprojected(operator, projector, column as int, error));
                }
                return Err(error);
            },
        }
        let outward: Result<Vec<V>> = if lifting {
            projector.lifted(image.as_slice())
        } else {
            projector.projected(image.as_slice())
        };
        match outward {
            Ok(vector) => {
                assert(column_projected(operator, projector, column as int, vector@));
                list.push(vector);
            },
            Err(error) => {
                assert(false);
                return Err(error);
            },
        }
    }
    proof {
        assert(columns::level(list@, size));
        assert forall|c: int| 0 <= c < list@.len() implies column_projected(
            operator,
            projector,
            c,
            #[trigger] list@[c]@,
        ) by {
            assert(list@[c]@.len() == size);
        }
        assert(projected_columns(operator, projector, list@));
    }
    columns::from_columns(size, &list, format)
}

} // verus!
