//! What matrix elements, traces and products with vectors mean, for exact numbers.

use vstd::prelude::*;
use crate::algebra;
use crate::columns;
use crate::composition;
use crate::exactness;
use crate::grids;
use crate::kernels;
use crate::linear::LinearOperator;
use crate::linear;
use crate::measurement;
use crate::operator::{MatrixFormat, Operator};
use crate::operator_laws;
use crate::projector::BasisProjector;
use crate::projector;
use crate::reduction_laws;
use crate::scalar::{Normed, Scalar};
use crate::timed::{Moment, TimeDependentOperator};
use crate::triplets;

verus! {

/// A matrix element sums the cells, each with its conjugated left and its right component.
pub proof fn matrix_elements_sum_over_cells<V: Scalar>(
    left: Seq<V>,
    matrix: &Operator<V>,
    right: Seq<V>,
)
    requires
        exactness::exact::<V>(),
        matrix.wf(),
        left.len() == matrix.rows(),
        right.len() == matrix.columns(),
    ensures
        measurement::element_between(left, matrix, right) == exactness::total(
            |row: int|
                left[row].mirror().product(
                    exactness::total(
                        |column: int| matrix.entry(row, column).product(right[column]),
                        matrix.columns() as nat,
                    ),
                ),
            matrix.rows() as nat,
        ),
{
    let rows = matrix.rows() as nat;
    let columns = matrix.columns() as nat;
    operator_laws::lemma_inner(left, matrix.image(right), rows);
    let one = |i: int| left[i].mirror().product(matrix.image(right)[i]);
    let two = |row: int|
        left[row].mirror().product(
            exactness::total(
                |column: int| matrix.entry(row, column).product(right[column]),
                columns,
            ),
        );
    assert forall|r: int| 0 <= r < rows implies #[trigger] one(r) == two(r) by {
        exactness::rows_sum_up(matrix, r, right);
        let terms = exactness::row_terms(matrix, r, right);
        let own = |column: int| matrix.entry(r, column).product(right[column]);
        assert forall|c: int| 0 <= c < columns implies #[trigger] terms(c) == own(c) by {}
        exactness::lemma_total_same(terms, own, columns);
    }
    exactness::lemma_total_same(one, two, rows);
}

/// The matrix element of the adjoint between the vectors in the other order is the conjugate.
pub proof fn adjoint_elements_are_conjugates<V: Scalar>(
    left: Seq<V>,
    matrix: &Operator<V>,
    adjoint: &Operator<V>,
    right: Seq<V>,
)
    requires
        grids::faithful::<V>(),
        matrix.wf(),
        algebra::is_adjoint(matrix, adjoint),
        left.len() == matrix.rows(),
        right.len() == matrix.columns(),
    ensures
        measurement::element_between(right, adjoint, left) == measurement::element_between(
            left,
            matrix,
            right,
        ).mirror(),
{
    let image = matrix.image(right);
    let back = adjoint.image(left);
    operator_laws::adjoints_move_to_the_other_side(matrix, adjoint, left, right);
    operator_laws::lemma_inner(left, image, matrix.rows() as nat);
    operator_laws::lemma_inner(back, right, matrix.columns() as nat);
    operator_laws::inner_products_are_conjugate_symmetric(back, right);
}

/// A product added to a vector is the vector plus the product alone, the product with one is the
/// image, and adding two products is adding the product with both coefficients.
pub proof fn products_are_written_or_added<V: Scalar>(
    before: Seq<V>,
    image: Seq<V>,
    first: V,
    second: V,
    at: int,
)
    requires
        grids::faithful::<V>(),
        before.len() == image.len(),
        0 <= at < image.len(),
    ensures
        linear::blended(before, image, first, false)[at] == before[at].sum(
            linear::blended(before, image, first, true)[at],
        ),
        linear::blended(before, image, V::one_value(), true)[at] == image[at],
        linear::blended(linear::blended(before, image, first, false), image, second, false)[at]
            == linear::blended(before, image, first.sum(second), false)[at],
{
    let x = image[at];
    assert(exactness::factors_commute(x, first));
    assert(exactness::factors_commute(x, second));
    assert(exactness::factors_commute(x, first.sum(second)));
    assert(exactness::factors_commute(x, V::one_value()));
    assert(V::one_value().product(x) == x);
    assert(exactness::distributes(first, second, x));
    assert(exactness::distributes(x, first, second));
    assert(exactness::regroups(before[at], first.product(x), second.product(x)));
}

proof fn lemma_dot<V: Scalar>(left: Seq<V>, right: Seq<V>, upto: nat)
    ensures
        linear::dot(left, right, upto) == operator_laws::paired(left, right, upto),
    decreases upto,
{
    if upto > 0 {
        lemma_dot(left, right, (upto - 1) as nat);
    }
}

/// The image of a unit vector is a column.
pub proof fn units_map_to_columns<V: Scalar>(matrix: &Operator<V>, row: int, column: int)
    requires
        grids::faithful::<V>(),
        matrix.wf(),
        matrix.inside(row, column),
    ensures
        matrix.image(projector::unit(matrix.columns() as nat, column))[row] == matrix.entry(
            row,
            column,
        ),
{
    let columns = matrix.columns() as nat;
    let start = projector::unit::<V>(columns, column);
    let z = V::zero_value();
    exactness::rows_sum_up(matrix, row, start);
    let terms = exactness::row_terms(matrix, row, start);
    let nothing = |c: int| V::zero_value();
    assert forall|c: int| 0 <= c < columns && c != column implies #[trigger] terms(c) == nothing(
        c,
    ) by {
        assert(exactness::factors_commute(matrix.entry(row, c), z));
        assert(z.product(matrix.entry(row, c)) == z);
    }
    exactness::lemma_total_replaced(nothing, terms, column, columns);
    exactness::lemma_total_zero(nothing, columns);
    assert(exactness::factors_commute(matrix.entry(row, column), V::one_value()));
    assert(V::one_value().product(matrix.entry(row, column)) == matrix.entry(row, column));
    assert(z.sum(matrix.entry(row, column)) == matrix.entry(row, column));
}

/// What the transpose makes of a vector, column by column, pairs as the vector pairs with images.
pub proof fn column_products_pair<V: Scalar>(
    matrix: &Operator<V>,
    left: Seq<V>,
    output: Seq<V>,
    right: Seq<V>,
)
    requires
        grids::faithful::<V>(),
        matrix.wf(),
        left.len() == matrix.rows(),
        linear::column_products(matrix, left, output),
    ensures
        operator_laws::paired(left, matrix.image(right), matrix.rows() as nat)
            == operator_laws::paired(output, right, matrix.columns() as nat),
{
    let rows = matrix.rows() as nat;
    let columns = matrix.columns() as nat;
    let bra = |row: int| left[row];
    operator_laws::lemma_bilinear(matrix, bra, right);
    let one = |row: int| bra(row).product(matrix.image(right)[row]);
    let two = |i: int| left[i].product(matrix.image(right)[i]);
    assert forall|r: int| 0 <= r < rows implies #[trigger] one(r) == two(r) by {}
    exactness::lemma_total_same(one, two, rows);
    let three = |column: int|
        exactness::total(
            |row: int| bra(row).product(matrix.entry(row, column)),
            rows,
        ).product(right[column]);
    let four = |i: int| output[i].product(right[i]);
    assert forall|c: int| 0 <= c < columns implies #[trigger] three(c) == four(c) by {
        assert(linear::column_product(matrix, left, c, output[c]));
        let image = matrix.image(projector::unit(columns, c));
        lemma_dot(image, left, rows);
        let terms = |i: int| image[i].product(left[i]);
        let own = |row: int| bra(row).product(matrix.entry(row, c));
        assert forall|r: int| 0 <= r < rows implies #[trigger] own(r) == terms(r) by {
            units_map_to_columns(matrix, r, c);
            assert(exactness::factors_commute(left[r], matrix.entry(r, c)));
        }
        exactness::lemma_total_same(own, terms, rows);
    }
    exactness::lemma_total_same(three, four, columns);
}

proof fn lemma_summed<V: Scalar>(value: spec_fn(int) -> V, upto: nat)
    ensures
        triplets::summed(Seq::new(upto, value)) == exactness::total(value, upto),
    decreases upto,
{
    if upto > 0 {
        let shorter = (upto - 1) as nat;
        lemma_summed(value, shorter);
        assert(Seq::new(upto, value).drop_last() =~= Seq::new(shorter, value));
    }
}

proof fn lemma_trace<V: Scalar>(matrix: &Operator<V>)
    ensures
        matrix.diagonal_sum() == grids::trace(
            operator_laws::cells(matrix),
            matrix.rows() as nat,
        ),
{
    let rows = matrix.rows() as nat;
    let value = |i: int| matrix.entry(i, i);
    let own = |row: int| operator_laws::cells(matrix)(row, row);
    lemma_summed(value, rows);
    assert forall|r: int| 0 <= r < rows implies #[trigger] value(r) == own(r) by {}
    exactness::lemma_total_same(value, own, rows);
}

proof fn lemma_product_trace<V: Scalar>(
    left: &Operator<V>,
    right: &Operator<V>,
    product: &Operator<V>,
)
    requires
        exactness::exact::<V>(),
        composition::is_product(left, right, product),
        left.rows() == left.columns(),
        right.rows() == right.columns(),
    ensures
        product.diagonal_sum() == grids::trace(
            grids::times(
                operator_laws::cells(left),
                operator_laws::cells(right),
                left.rows() as nat,
            ),
            left.rows() as nat,
        ),
{
    let rows = left.rows() as nat;
    let a = operator_laws::cells(left);
    let b = operator_laws::cells(right);
    lemma_trace(product);
    let one = |row: int| operator_laws::cells(product)(row, row);
    let two = |row: int| grids::times(a, b, rows)(row, row);
    assert forall|r: int| 0 <= r < rows implies #[trigger] one(r) == two(r) by {
        composition::cells_sum_up(left, right, product, r, r);
        let terms = composition::cell_terms(left, right, r, r);
        let own = grids::line(a, b, r, r);
        assert forall|m: int| 0 <= m < rows implies #[trigger] terms(m) == own(m) by {}
        exactness::lemma_total_same(terms, own, rows);
    }
    exactness::lemma_total_same(one, two, rows);
}

/// The trace of a product of square matrices does not depend on the order of the factors.
pub proof fn traces_are_cyclic<V: Scalar>(
    left: &Operator<V>,
    right: &Operator<V>,
    forward: &Operator<V>,
    backward: &Operator<V>,
)
    requires
        exactness::exact::<V>(),
        composition::is_product(left, right, forward),
        composition::is_product(right, left, backward),
        left.rows() == left.columns(),
        right.rows() == right.columns(),
    ensures
        forward.diagonal_sum() == backward.diagonal_sum(),
{
    lemma_product_trace(left, right, forward);
    lemma_product_trace(right, left, backward);
    grids::lemma_trace_cyclic(
        operator_laws::cells(left),
        operator_laws::cells(right),
        left.rows() as nat,
    );
}

/// The trace is the sum of the matrix elements of the unit vectors.
pub proof fn traces_sum_over_units<V: Scalar>(matrix: &Operator<V>)
    requires
        grids::faithful::<V>(),
        matrix.wf(),
        matrix.rows() == matrix.columns(),
    ensures
        matrix.diagonal_sum() == exactness::total(
            |i: int| matrix.image(projector::unit(matrix.rows() as nat, i))[i],
            matrix.rows() as nat,
        ),
{
    let rows = matrix.rows() as nat;
    let value = |i: int| matrix.entry(i, i);
    let own = |i: int| matrix.image(projector::unit(matrix.rows() as nat, i))[i];
    lemma_summed(value, rows);
    assert forall|r: int| 0 <= r < rows implies #[trigger] value(r) == own(r) by {
        units_map_to_columns(matrix, r, r);
    }
    exactness::lemma_total_same(value, own, rows);
}

/// The leakage adds up the squared lengths of what leaves from every reduced state.
pub proof fn leakage_sums_over_states<V: Normed, O: LinearOperator<V>>(
    value: spec_fn(V::Magnitude) -> V,
    projector: &BasisProjector<V>,
    map: &O,
    upto: nat,
)
    requires
        reduction_laws::measures::<V>(value),
    ensures
        value(projector.leakage_total(map, upto)) == exactness::total(
            |column: int| reduction_laws::length_squared(projector.leak(map, column)),
            upto,
        ),
    decreases upto,
{
    if upto > 0 {
        let shorter = (upto - 1) as nat;
        leakage_sums_over_states(value, projector, map, shorter);
        let part = projector.leak(map, upto - 1);
        reduction_laws::lemma_norm(value, part, part.len());
        assert(reduction_laws::joins::<V>(
            value,
            projector.leakage_total(map, shorter),
            measurement::norm_total(part, part.len()),
        ));
    }
}

/// A matrix made of columns maps every unit vector to its column.
pub proof fn columns_are_images_of_units<V: Scalar>(
    matrix: &Operator<V>,
    rows: usize,
    list: Seq<Vec<V>>,
    format: MatrixFormat,
    row: int,
    column: int,
)
    requires
        grids::faithful::<V>(),
        columns::holds_columns(matrix, rows, list, format),
        list.len() <= usize::MAX,
        0 <= row < rows,
        0 <= column < list.len(),
    ensures
        matrix.image(projector::unit(list.len(), column))[row] == list[column]@[row],
{
    assert(matrix.inside(row, column));
    units_map_to_columns(matrix, row, column);
    operator_laws::lemma_rewritten(format, algebra::Change::Keep, list[column]@[row]);
}

/// The matrix of a map at a moment maps every unit vector as the map does at that moment.
pub proof fn evaluated_matrices_map_units<T: Moment, V: Scalar, O: TimeDependentOperator<T, V>>(
    operator: &O,
    time: T,
    format: MatrixFormat,
    matrix: Operator<V>,
    row: int,
    column: int,
)
    requires
        grids::faithful::<V>(),
        columns::evaluated(operator, time, format, Ok(matrix)),
        0 <= row < operator.extent().0,
        0 <= column < operator.extent().1,
    ensures
        ({
            let start = projector::unit(operator.extent().1 as nat, column);
            &&& operator.maps_at(time, start) is Some
            &&& matrix.image(start)[row] == operator.maps_at(time, start)->0[row]
        }),
{
    let list = choose|list: Seq<Vec<V>>|
        {
            &&& list.len() == operator.extent().1
            &&& #[trigger] columns::images_at(operator, time, list)
            &&& columns::holds_columns(&matrix, operator.extent().0, list, format)
        };
    assert(columns::imaged_at(operator, time, column, list[column]@));
    columns_are_images_of_units(&matrix, operator.extent().0, list, format, row, column);
}

/// The values of a matrix, row by row, are its cells.
pub proof fn materialized_values_are_cells<V: Scalar>(
    matrix: &Operator<V>,
    values: Seq<V>,
    row: int,
    column: int,
)
    requires
        grids::faithful::<V>(),
        matrix.wf(),
        columns::dense_images(matrix, values),
        matrix.inside(row, column),
    ensures
        values[row * matrix.columns() + column] == matrix.entry(row, column),
{
    units_map_to_columns(matrix, row, column);
    assert(columns::cell_imaged(
        matrix,
        row,
        column,
        values[crate::operator::cell_index(matrix.extent().1 as int, row, column)],
    ));
}

/// The entries that are found for a map by its images of unit vectors add up, cell by cell, to
/// the components of these images.
pub proof fn probed_entries_add_up<V: Scalar, O: LinearOperator<V>>(
    operator: &O,
    upto: nat,
    row: int,
    column: int,
)
    requires
        exactness::exact::<V>(),
        upto <= operator.extent().1,
        forall|c: int|
            0 <= c < upto ==> (#[trigger] columns::probed_column(operator, c)).len()
                == operator.extent().0,
        0 <= row < operator.extent().0,
        0 <= column,
    ensures
        triplets::cell_sum(columns::probed_list(operator, upto), row, column) == (if column < upto {
            operator.maps(projector::unit(operator.extent().1 as nat, column))->0[row]
        } else {
            V::zero_value()
        }),
{
    lemma_probed(operator, upto, row, column);
    reveal_with_fuel(triplets::summed, 2);
    if column < upto {
        let value = columns::probed_column(operator, column)[row];
        assert(V::zero_value().sum(value) == value);
        assert(seq![value].drop_last() =~= Seq::<V>::empty());
    }
}

proof fn lemma_probed<V: Scalar, O: LinearOperator<V>>(
    operator: &O,
    upto: nat,
    row: int,
    column: int,
)
    requires
        upto <= operator.extent().1,
        forall|c: int|
            0 <= c < upto ==> (#[trigger] columns::probed_column(operator, c)).len()
                == operator.extent().0,
        0 <= row < operator.extent().0,
        0 <= column,
    ensures
        triplets::values_at(columns::probed_list(operator, upto), row, column) == (if column < upto
            && !columns::probed_column(operator, column)[row].tiny() {
            seq![columns::probed_column(operator, column)[row]]
        } else {
            Seq::<V>::empty()
        }),
    decreases upto,
{
    if upto > 0 {
        let shorter = (upto - 1) as nat;
        lemma_probed(operator, shorter, row, column);
        let values = columns::probed_column(operator, upto - 1);
        let rows = operator.extent().0 as nat;
        columns::lemma_column_list(values, shorter as usize, rows, row, column);
        let head = columns::probed_list(operator, shorter);
        let tail = columns::column_list(values, shorter as usize, rows);
        triplets::lemma_values_concat(head, tail, row, column);
        assert(triplets::values_at(head + tail, row, column) =~= (if column < upto
            && !columns::probed_column(operator, column)[row].tiny() {
            seq![columns::probed_column(operator, column)[row]]
        } else {
            Seq::<V>::empty()
        }));
    }
}

/// Adding a multiple of a vector adds the multiple of its inner products, and multiplying a vector
/// multiplies its inner products.
pub proof fn vector_updates_change_inner_products<V: Scalar>(
    left: Seq<V>,
    alpha: V,
    input: Seq<V>,
    output: Seq<V>,
)
    requires
        grids::faithful::<V>(),
        left.len() == input.len(),
        left.len() == output.len(),
    ensures
        measurement::inner_product(left, kernels::shifted_by(alpha, input, output), left.len())
            == measurement::inner_product(left, output, left.len()).sum(
            alpha.product(measurement::inner_product(left, input, left.len())),
        ),
        measurement::inner_product(left, kernels::stretched(alpha, input), left.len())
            == measurement::inner_product(left, input, left.len()).product(alpha),
{
    let n = left.len();
    operator_laws::inner_products_are_linear(
        left,
        output,
        input,
        alpha,
        kernels::shifted_by(alpha, input, output),
    );
    let longer = kernels::stretched(alpha, input);
    operator_laws::lemma_inner(left, input, n);
    operator_laws::lemma_inner(left, longer, n);
    let terms = |i: int| left[i].mirror().product(input[i]);
    composition::lemma_scaled(terms, alpha, n);
    let scaled = |i: int| terms(i).product(alpha);
    let own = |i: int| left[i].mirror().product(longer[i]);
    assert forall|i: int| 0 <= i < n implies #[trigger] own(i) == scaled(i) by {
        assert(exactness::factors_regroup(left[i].mirror(), input[i], alpha));
    }
    exactness::lemma_total_same(own, scaled, n);
}

} // verus!
