//! What the operations on matrices mean for the maps that the matrices stand for, for exact
//! numbers.

use vstd::prelude::*;
use crate::action;
use crate::algebra;
use crate::composition;
use crate::corrected::QuantumLinearOperator;
use crate::corrected;
use crate::exactness;
use crate::folds;
use crate::grids;
use crate::linear::LinearOperator;
use crate::matrix::Matrix;
use crate::matrix;
use crate::measurement;
use crate::operator::{MatrixFormat, Operator};
use crate::operator;
use crate::scalar::Scalar;
use crate::triplets;

verus! {

/// The cells of a matrix.
pub open spec fn cells<V: Scalar>(matrix: &Operator<V>) -> spec_fn(int, int) -> V {
    |row: int, column: int| matrix.entry(row, column)
}

/// A linear pairing of two vectors.
pub open spec fn paired<V: Scalar>(left: Seq<V>, right: Seq<V>, length: nat) -> V {
    exactness::total(|i: int| left[i].product(right[i]), length)
}

/// A pairing that conjugates the left vector.
pub open spec fn bracketed<V: Scalar>(left: Seq<V>, right: Seq<V>, length: nat) -> V {
    exactness::total(|i: int| left[i].mirror().product(right[i]), length)
}

pub proof fn lemma_rewritten<V: Scalar>(format: MatrixFormat, change: algebra::Change<V>, value: V)
    requires
        exactness::exact::<V>(),
    ensures
        operator::settled(format, algebra::rewritten(change, value)) == algebra::changed(
            change,
            value,
        ),
{
    let z = V::zero_value();
    let image = algebra::changed(change, value);
    assert(z.sum(image) == image);
    if value.tiny() {
        if let algebra::Change::Scale(factor) = change {
            assert(exactness::factors_commute(factor, z));
            assert(z.product(factor) == z);
        }
    }
}

/// A vector paired with an image, summed column by column.
pub proof fn lemma_bilinear<V: Scalar>(
    matrix: &Operator<V>,
    left: spec_fn(int) -> V,
    right: Seq<V>,
)
    requires
        exactness::exact::<V>(),
        matrix.wf(),
    ensures
        exactness::total(
            |row: int| left(row).product(matrix.image(right)[row]),
            matrix.rows() as nat,
        ) == exactness::total(
            |column: int|
                exactness::total(
                    |row: int| left(row).product(matrix.entry(row, column)),
                    matrix.rows() as nat,
                ).product(right[column]),
            matrix.columns() as nat,
        ),
{
    let rows = matrix.rows() as nat;
    let columns = matrix.columns() as nat;
    let value = |r: int, c: int| left(r).product(matrix.entry(r, c)).product(right[c]);
    let by_rows = |r: int| exactness::total(|c: int| value(r, c), columns);
    let by_columns = |c: int| exactness::total(|r: int| value(r, c), rows);
    let first = |row: int| left(row).product(matrix.image(right)[row]);
    let second = |column: int|
        exactness::total(
            |row: int| left(row).product(matrix.entry(row, column)),
            rows,
        ).product(right[column]);
    assert forall|r: int| 0 <= r < rows implies #[trigger] first(r) == by_rows(r) by {
        exactness::rows_sum_up(matrix, r, right);
        let line = exactness::row_terms(matrix, r, right);
        composition::lemma_scaled(line, left(r), columns);
        let scaled = |c: int| line(c).product(left(r));
        let inner = |c: int| value(r, c);
        assert forall|c: int| 0 <= c < columns implies #[trigger] scaled(c) == inner(c) by {
            let b = matrix.entry(r, c);
            assert(exactness::factors_commute(b.product(right[c]), left(r)));
            assert(exactness::factors_regroup(left(r), b, right[c]));
        }
        exactness::lemma_total_same(scaled, inner, columns);
        assert(exactness::factors_commute(exactness::total(line, columns), left(r)));
    }
    exactness::lemma_total_same(first, by_rows, rows);
    composition::lemma_exchanged(value, rows, columns);
    assert forall|c: int| 0 <= c < columns implies #[trigger] by_columns(c) == second(c) by {
        let line = |row: int| left(row).product(matrix.entry(row, c));
        composition::lemma_scaled(line, right[c], rows);
        let scaled = |r: int| line(r).product(right[c]);
        let inner = |r: int| value(r, c);
        assert forall|r: int| 0 <= r < rows implies #[trigger] scaled(r) == inner(r) by {}
        exactness::lemma_total_same(scaled, inner, rows);
    }
    exactness::lemma_total_same(by_columns, second, columns);
}

/// Pairing a vector with an image is pairing the image under the transpose with the other
/// vector.
pub proof fn transposes_move_to_the_other_side<V: Scalar>(
    matrix: &Operator<V>,
    transpose: &Operator<V>,
    left: Seq<V>,
    right: Seq<V>,
)
    requires
        exactness::exact::<V>(),
        matrix.wf(),
        algebra::is_transpose(matrix, transpose),
    ensures
        paired(left, matrix.image(right), matrix.rows() as nat) == paired(
            transpose.image(left),
            right,
            matrix.columns() as nat,
        ),
{
    let rows = matrix.rows() as nat;
    let columns = matrix.columns() as nat;
    let bra = |row: int| left[row];
    lemma_bilinear(matrix, bra, right);
    let one = |row: int| bra(row).product(matrix.image(right)[row]);
    let two = |row: int| left[row].product(matrix.image(right)[row]);
    assert forall|r: int| 0 <= r < rows implies #[trigger] one(r) == two(r) by {}
    exactness::lemma_total_same(one, two, rows);
    let three = |column: int|
        exactness::total(
            |row: int| bra(row).product(matrix.entry(row, column)),
            rows,
        ).product(right[column]);
    let four = |column: int| transpose.image(left)[column].product(right[column]);
    assert forall|c: int| 0 <= c < columns implies #[trigger] three(c) == four(c) by {
        exactness::rows_sum_up(transpose, c, left);
        let terms = exactness::row_terms(transpose, c, left);
        let own = |row: int| bra(row).product(matrix.entry(row, c));
        assert forall|r: int| 0 <= r < rows implies #[trigger] own(r) == terms(r) by {
            assert(transpose.inside(c, r));
            lemma_rewritten(matrix.format, algebra::Change::Keep, matrix.entry(r, c));
            assert(exactness::factors_commute(left[r], matrix.entry(r, c)));
        }
        exactness::lemma_total_same(own, terms, rows);
    }
    exactness::lemma_total_same(three, four, columns);
}

/// The conjugate of a sum.
pub proof fn lemma_mirrored_total<V: Scalar>(value: spec_fn(int) -> V, upto: nat)
    requires
        grids::faithful::<V>(),
    ensures
        exactness::total(value, upto).mirror() == exactness::total(
            |i: int| value(i).mirror(),
            upto,
        ),
    decreases upto,
{
    if upto > 0 {
        let shorter = (upto - 1) as nat;
        lemma_mirrored_total(value, shorter);
        assert(grids::mirrors_sum(exactness::total(value, shorter), value(upto - 1)));
    }
}

/// The inner product of a vector with an image is that of its image under the adjoint with the
/// other vector.
pub proof fn adjoints_move_to_the_other_side<V: Scalar>(
    matrix: &Operator<V>,
    adjoint: &Operator<V>,
    left: Seq<V>,
    right: Seq<V>,
)
    requires
        grids::faithful::<V>(),
        matrix.wf(),
        algebra::is_adjoint(matrix, adjoint),
    ensures
        bracketed(left, matrix.image(right), matrix.rows() as nat) == bracketed(
            adjoint.image(left),
            right,
            matrix.columns() as nat,
        ),
{
    let rows = matrix.rows() as nat;
    let columns = matrix.columns() as nat;
    let bra = |row: int| left[row].mirror();
    lemma_bilinear(matrix, bra, right);
    let one = |row: int| bra(row).product(matrix.image(right)[row]);
    let two = |row: int| left[row].mirror().product(matrix.image(right)[row]);
    assert forall|r: int| 0 <= r < rows implies #[trigger] one(r) == two(r) by {}
    exactness::lemma_total_same(one, two, rows);
    let three = |column: int|
        exactness::total(
            |row: int| bra(row).product(matrix.entry(row, column)),
            rows,
        ).product(right[column]);
    let four = |column: int| adjoint.image(left)[column].mirror().product(right[column]);
    assert forall|c: int| 0 <= c < columns implies #[trigger] three(c) == four(c) by {
        exactness::rows_sum_up(adjoint, c, left);
        let terms = exactness::row_terms(adjoint, c, left);
        lemma_mirrored_total(terms, rows);
        let turned = |r: int| terms(r).mirror();
        let own = |row: int| bra(row).product(matrix.entry(row, c));
        assert forall|r: int| 0 <= r < rows implies #[trigger] own(r) == turned(r) by {
            assert(adjoint.inside(c, r));
            let e = matrix.entry(r, c);
            lemma_rewritten(matrix.format, algebra::Change::Conjugate, e);
            assert(adjoint.entry(c, r) == e.mirror());
            assert(grids::mirrors_product(e.mirror(), left[r]));
            assert(e.mirror().mirror() == e);
            assert(exactness::factors_commute(left[r].mirror(), e));
        }
        exactness::lemma_total_same(own, turned, rows);
    }
    exactness::lemma_total_same(three, four, columns);
}

/// What the adjoint action of a matrix makes of a vector moves to the other side of an inner
/// product as the matrix.
pub proof fn adjoint_actions_move_to_the_other_side<V: Scalar>(
    matrix: &Operator<V>,
    left: Seq<V>,
    right: Seq<V>,
)
    requires
        grids::faithful::<V>(),
        matrix.wf(),
        left.len() == matrix.rows(),
    ensures
        bracketed(left, matrix.image(right), matrix.rows() as nat) == bracketed(
            matrix.adjoint_image(left),
            right,
            matrix.columns() as nat,
        ),
{
    let rows = matrix.rows() as nat;
    let columns = matrix.columns() as nat;
    let bra = action::mirrored(left);
    composition::transposes_pair(matrix, bra, right);
    let one = |row: int| bra[row].product(matrix.image(right)[row]);
    let two = |i: int| left[i].mirror().product(matrix.image(right)[i]);
    assert forall|r: int| 0 <= r < rows implies #[trigger] one(r) == two(r) by {}
    exactness::lemma_total_same(one, two, rows);
    let three = |column: int| matrix.transposed_image(bra)[column].product(right[column]);
    let four = |i: int| matrix.adjoint_image(left)[i].mirror().product(right[i]);
    assert forall|c: int| 0 <= c < columns implies #[trigger] three(c) == four(c) by {
        let x = matrix.transposed_image(bra)[c];
        assert(x.mirror().mirror() == x);
    }
    exactness::lemma_total_same(three, four, columns);
}

/// The conjugated matrix maps the conjugate of a vector to the conjugate of its image.
pub proof fn conjugates_map_conjugates<V: Scalar>(
    matrix: &Operator<V>,
    conjugate: &Operator<V>,
    input: Seq<V>,
    mirrored: Seq<V>,
    row: int,
)
    requires
        grids::faithful::<V>(),
        matrix.wf(),
        algebra::is_conjugate(matrix, conjugate),
        0 <= row < matrix.rows(),
        forall|i: int|
            0 <= i < matrix.columns() ==> #[trigger] mirrored[i] == input[i].mirror(),
    ensures
        conjugate.image(mirrored)[row] == matrix.image(input)[row].mirror(),
{
    let columns = matrix.columns() as nat;
    exactness::rows_sum_up(matrix, row, input);
    exactness::rows_sum_up(conjugate, row, mirrored);
    let terms = exactness::row_terms(matrix, row, input);
    lemma_mirrored_total(terms, columns);
    let turned = |c: int| terms(c).mirror();
    let own = exactness::row_terms(conjugate, row, mirrored);
    assert forall|c: int| 0 <= c < columns implies #[trigger] own(c) == turned(c) by {
        assert(conjugate.inside(row, c));
        let e = matrix.entry(row, c);
        lemma_rewritten(matrix.format, algebra::Change::Conjugate, e);
        assert(grids::mirrors_product(e, input[c]));
        assert(mirrored[c] == input[c].mirror());
    }
    exactness::lemma_total_same(own, turned, columns);
}

/// A multiple of a matrix maps a vector to the multiple of its image.
pub proof fn multiples_act<V: Scalar>(
    matrix: &Operator<V>,
    coefficient: V,
    multiple: &Operator<V>,
    input: Seq<V>,
    row: int,
)
    requires
        exactness::exact::<V>(),
        matrix.wf(),
        algebra::is_multiple(matrix, coefficient, multiple),
        0 <= row < matrix.rows(),
    ensures
        multiple.image(input)[row] == coefficient.product(matrix.image(input)[row]),
{
    let columns = matrix.columns() as nat;
    exactness::rows_sum_up(matrix, row, input);
    exactness::rows_sum_up(multiple, row, input);
    let terms = exactness::row_terms(matrix, row, input);
    composition::lemma_scaled(terms, coefficient, columns);
    let scaled = |c: int| terms(c).product(coefficient);
    let own = exactness::row_terms(multiple, row, input);
    assert forall|c: int| 0 <= c < columns implies #[trigger] own(c) == scaled(c) by {
        assert(multiple.inside(row, c));
        let e = matrix.entry(row, c);
        lemma_rewritten(matrix.format, algebra::Change::Scale(coefficient), e);
        assert(exactness::factors_regroup(coefficient, e, input[c]));
        assert(exactness::factors_commute(coefficient, e.product(input[c])));
    }
    exactness::lemma_total_same(own, scaled, columns);
    assert(exactness::factors_commute(exactness::total(terms, columns), coefficient));
}

/// A sum maps a vector to the sum of its images, and a difference to what the second image is
/// added to for the first.
pub proof fn sums_and_differences_act<V: Scalar>(
    left: &Operator<V>,
    right: &Operator<V>,
    sum: &Operator<V>,
    difference: &Operator<V>,
    input: Seq<V>,
    row: int,
)
    requires
        grids::faithful::<V>(),
        left.wf(),
        right.wf(),
        algebra::is_plus(left, right, sum),
        algebra::is_minus(left, right, difference),
        0 <= row < left.rows(),
    ensures
        sum.image(input)[row] == left.image(input)[row].sum(right.image(input)[row]),
        difference.image(input)[row].sum(right.image(input)[row]) == left.image(input)[row],
{
    composition::sums_act(left, right, V::one_value(), sum, input, row);
    composition::sums_act(left, right, V::minus_one_value(), difference, input, row);
    let a = left.image(input)[row];
    let b = right.image(input)[row];
    assert(V::one_value().product(b) == b);
    assert(exactness::factors_commute(V::minus_one_value(), b));
    grids::lemma_cancel(a, b);
}

/// The cells of a product.
proof fn lemma_times<V: Scalar>(left: Matrix<V>, right: Matrix<V>, row: int, column: int)
    requires
        exactness::exact::<V>(),
        0 <= row < left.rows,
        0 <= column < right.columns,
        left.columns >= 0,
    ensures
        (left.times(right).cells)(row, column) == grids::times(
            left.cells,
            right.cells,
            left.columns as nat,
        )(row, column),
{
    let middle = left.columns as nat;
    lemma_fold(left, right, row, column, middle);
    let terms = grids::line(left.cells, right.cells, row, column);
    let sum = left.cell_product(right, row, column);
    assert(V::zero_value().sum(sum) == sum);
    if !left.meets(right, row, column) {
        assert forall|m: int| 0 <= m < middle implies #[trigger] terms(m) == V::zero_value() by {
            let a = (left.cells)(row, m);
            let b = (right.cells)(m, column);
            assert(a.tiny() || b.tiny());
            assert(exactness::factors_commute(a, b));
            assert(V::zero_value().product(a) == V::zero_value());
            assert(V::zero_value().product(b) == V::zero_value());
        }
        exactness::lemma_total_zero(terms, middle);
    }
}

proof fn lemma_fold<V: Scalar>(
    left: Matrix<V>,
    right: Matrix<V>,
    row: int,
    column: int,
    upto: nat,
)
    requires
        exactness::exact::<V>(),
    ensures
        folds::ascending_fold(
            false,
            |middle: int| (left.cells)(row, middle),
            |middle: int, value: V|
                if (right.cells)(middle, column).tiny() {
                    None
                } else {
                    Some(value.product((right.cells)(middle, column)))
                },
            upto,
        ) == exactness::total(grids::line(left.cells, right.cells, row, column), upto),
    decreases upto,
{
    if upto > 0 {
        let shorter = (upto - 1) as nat;
        lemma_fold(left, right, row, column, shorter);
        let rest = exactness::total(
            grids::line(left.cells, right.cells, row, column),
            shorter,
        );
        let a = (left.cells)(row, upto - 1);
        let b = (right.cells)(upto - 1, column);
        assert(exactness::commutes(rest, V::zero_value()));
        assert(exactness::factors_commute(a, b));
        assert(V::zero_value().product(a) == V::zero_value());
        assert(V::zero_value().product(b) == V::zero_value());
    }
}

proof fn lemma_combined<V: Scalar>(format: MatrixFormat, left: V, right: V, scale: V)
    requires
        exactness::exact::<V>(),
    ensures
        operator::settled(format, algebra::combined(left, right, scale)) == left.sum(
            scale.product(right),
        ),
{
    let z = V::zero_value();
    assert(z.sum(left) == left);
    assert(exactness::factors_commute(scale, z));
    assert(z.product(scale) == z);
    assert(exactness::commutes(left, z));
}

/// Every cell of a commutator, together with the cell of the product in the other order, is the
/// cell of the product in the given order; every cell of an anticommutator is the sum of both.
pub proof fn brackets_join_both_orders<V: Scalar>(
    left: &Operator<V>,
    right: &Operator<V>,
    commutator: &Operator<V>,
    anticommutator: &Operator<V>,
    row: int,
    column: int,
)
    requires
        grids::faithful::<V>(),
        matrix::is_commutator(left, right, commutator),
        matrix::is_anticommutator(left, right, anticommutator),
        left.inside(row, column),
    ensures
        ({
            let size = left.rows() as nat;
            let forth = grids::times(cells(left), cells(right), size)(row, column);
            let back = grids::times(cells(right), cells(left), size)(row, column);
            &&& commutator.entry(row, column).sum(back) == forth
            &&& anticommutator.entry(row, column) == forth.sum(back)
        }),
{
    let size = left.rows() as nat;
    let a = left.matrix();
    let b = right.matrix();
    lemma_times(a, b, row, column);
    lemma_times(b, a, row, column);
    lemma_cells(left);
    lemma_cells(right);
    grids::lemma_times_alike(a.cells, b.cells, cells(left), cells(right), size);
    grids::lemma_times_alike(b.cells, a.cells, cells(right), cells(left), size);
    let forth = grids::times(cells(left), cells(right), size)(row, column);
    let back = grids::times(cells(right), cells(left), size)(row, column);
    assert(grids::times(a.cells, b.cells, size)(row, column) == forth);
    assert(grids::times(b.cells, a.cells, size)(row, column) == back);
    lemma_combined(left.format, forth, back, V::minus_one_value());
    lemma_combined(left.format, forth, back, V::one_value());
    assert((commutator.matrix().cells)(row, column) == commutator.entry(row, column));
    assert((anticommutator.matrix().cells)(row, column) == anticommutator.entry(row, column));
    assert(exactness::factors_commute(V::minus_one_value(), back));
    assert(V::one_value().product(back) == back);
    grids::lemma_cancel(forth, back);
}

proof fn lemma_cells<V: Scalar>(matrix: &Operator<V>)
    requires
        matrix.shape.0 == matrix.shape.1,
    ensures
        grids::alike(matrix.matrix().cells, cells(matrix), matrix.rows() as nat),
{
    let one = matrix.matrix().cells;
    let two = cells(matrix);
    assert forall|row: int, column: int|
        0 <= row < matrix.rows() && 0 <= column < matrix.rows() implies #[trigger] one(
        row,
        column,
    ) == two(row, column) by {}
}

/// The matrix with ones on the diagonal.
pub open spec fn one_grid<V: Scalar>() -> spec_fn(int, int) -> V {
    |row: int, column: int|
        if row == column {
            V::one_value()
        } else {
            V::zero_value()
        }
}

/// A matrix multiplied by itself again and again.
pub open spec fn repeated<V: Scalar>(
    matrix: spec_fn(int, int) -> V,
    count: nat,
    size: nat,
) -> spec_fn(int, int) -> V
    decreases count,
{
    if count == 0 {
        one_grid()
    } else {
        grids::times(repeated(matrix, (count - 1) as nat, size), matrix, size)
    }
}

proof fn lemma_one_right<V: Scalar>(
    matrix: spec_fn(int, int) -> V,
    size: nat,
    row: int,
    column: int,
)
    requires
        grids::faithful::<V>(),
        0 <= column < size,
    ensures
        grids::times(matrix, one_grid(), size)(row, column) == matrix(row, column),
{
    let terms = grids::line(matrix, one_grid(), row, column);
    let none = |m: int| V::zero_value();
    let e = matrix(row, column);
    assert forall|m: int| 0 <= m < size && m != column implies #[trigger] terms(m) == none(
        m,
    ) by {
        assert(exactness::factors_commute(matrix(row, m), V::zero_value()));
        assert(V::zero_value().product(matrix(row, m)) == V::zero_value());
    }
    exactness::lemma_total_zero(none, size);
    exactness::lemma_total_replaced(none, terms, column, size);
    assert(exactness::factors_commute(e, V::one_value()));
    assert(V::one_value().product(e) == e);
    assert(V::zero_value().sum(e) == e);
}

proof fn lemma_one_left<V: Scalar>(
    matrix: spec_fn(int, int) -> V,
    size: nat,
    row: int,
    column: int,
)
    requires
        grids::faithful::<V>(),
        0 <= row < size,
    ensures
        grids::times(one_grid(), matrix, size)(row, column) == matrix(row, column),
{
    let terms = grids::line(one_grid(), matrix, row, column);
    let none = |m: int| V::zero_value();
    let e = matrix(row, column);
    assert forall|m: int| 0 <= m < size && m != row implies #[trigger] terms(m) == none(m) by {
        assert(V::zero_value().product(matrix(m, column)) == V::zero_value());
    }
    exactness::lemma_total_zero(none, size);
    exactness::lemma_total_replaced(none, terms, row, size);
    assert(V::one_value().product(e) == e);
    assert(V::zero_value().sum(e) == e);
}

/// Repeating a square is repeating twice as often.
proof fn lemma_repeated_square<V: Scalar>(
    matrix: spec_fn(int, int) -> V,
    square: spec_fn(int, int) -> V,
    count: nat,
    size: nat,
)
    requires
        grids::faithful::<V>(),
        grids::alike(square, grids::times(matrix, matrix, size), size),
    ensures
        grids::alike(
            repeated(square, count, size),
            repeated(matrix, 2 * count, size),
            size,
        ),
    decreases count,
{
    if count > 0 {
        let shorter = (count - 1) as nat;
        lemma_repeated_square(matrix, square, shorter, size);
        let left = repeated(square, shorter, size);
        let right = repeated(matrix, 2 * shorter, size);
        let once = grids::times(right, matrix, size);
        grids::lemma_times_alike(
            left,
            square,
            right,
            grids::times(matrix, matrix, size),
            size,
        );
        let one = repeated(square, count, size);
        let two = repeated(matrix, 2 * count, size);
        assert(repeated(matrix, (2 * count - 1) as nat, size) == once);
        assert forall|row: int, column: int| 0 <= row < size && 0 <= column < size implies
            #[trigger] one(row, column) == two(row, column) by {
            grids::lemma_times_regroup(right, matrix, matrix, size, row, column);
            assert(grids::times(left, square, size)(row, column) == grids::times(
                right,
                grids::times(matrix, matrix, size),
                size,
            )(row, column));
        }
    }
}

proof fn lemma_raised<V: Scalar>(start: Matrix<V>, base: Matrix<V>, exponent: nat, size: nat)
    requires
        grids::faithful::<V>(),
        start.rows == size,
        start.columns == size,
        base.rows == size,
        base.columns == size,
        start.raised(base, exponent) is Some,
    ensures
        grids::alike(
            start.raised(base, exponent)->0.cells,
            grids::times(start.cells, repeated(base.cells, exponent, size), size),
            size,
        ),
    decreases exponent,
{
    let result = start.raised(base, exponent)->0.cells;
    let wanted = grids::times(start.cells, repeated(base.cells, exponent, size), size);
    if exponent == 0 {
        assert forall|row: int, column: int| 0 <= row < size && 0 <= column < size implies
            #[trigger] result(row, column) == wanted(row, column) by {
            lemma_one_right(start.cells, size, row, column);
        }
    } else {
        let half = exponent / 2;
        let odd = exponent % 2 == 1;
        let next = if odd {
            start.times(base)
        } else {
            start
        };
        let square = base.times(base);
        assert forall|row: int, column: int| 0 <= row < size && 0 <= column < size implies
            #[trigger] (square.cells)(row, column) == grids::times(
            base.cells,
            base.cells,
            size,
        )(row, column) by {
            lemma_times(base, base, row, column);
        }
        assert(grids::alike(
            square.cells,
            grids::times(base.cells, base.cells, size),
            size,
        ));
        lemma_repeated_square(base.cells, square.cells, half, size);
        let twice = repeated(base.cells, 2 * half, size);
        let after = grids::times(next.cells, twice, size);
        if half == 0 {
            assert(exponent == 1);
            assert forall|row: int, column: int| 0 <= row < size && 0 <= column < size implies
                #[trigger] result(row, column) == after(row, column) by {
                lemma_one_right(next.cells, size, row, column);
            }
        } else {
            lemma_raised(next, square, half, size);
            grids::lemma_times_alike(
                next.cells,
                repeated(square.cells, half, size),
                next.cells,
                twice,
                size,
            );
            let middle = grids::times(next.cells, repeated(square.cells, half, size), size);
            assert forall|row: int, column: int| 0 <= row < size && 0 <= column < size implies
                #[trigger] result(row, column) == after(row, column) by {
                assert(result(row, column) == middle(row, column));
            }
        }
        if odd {
            lemma_repeated_front(base.cells, 2 * half, size);
            let product = grids::times(start.cells, base.cells, size);
            assert forall|row: int, column: int| 0 <= row < size && 0 <= column < size implies
                #[trigger] (next.cells)(row, column) == product(row, column) by {
                lemma_times(start, base, row, column);
            }
            grids::lemma_times_alike(next.cells, twice, product, twice, size);
            let front = grids::times(base.cells, twice, size);
            grids::lemma_times_alike(
                start.cells,
                front,
                start.cells,
                repeated(base.cells, exponent, size),
                size,
            );
            assert forall|row: int, column: int| 0 <= row < size && 0 <= column < size implies
                #[trigger] result(row, column) == wanted(row, column) by {
                grids::lemma_times_regroup(start.cells, base.cells, twice, size, row, column);
                assert(after(row, column) == grids::times(product, twice, size)(row, column));
                assert(grids::times(start.cells, front, size)(row, column) == wanted(
                    row,
                    column,
                ));
            }
        } else {
            assert(2 * half == exponent);
        }
    }
}

/// One factor more in front is one factor more.
proof fn lemma_repeated_front<V: Scalar>(
    matrix: spec_fn(int, int) -> V,
    count: nat,
    size: nat,
)
    requires
        grids::faithful::<V>(),
    ensures
        grids::alike(
            grids::times(matrix, repeated(matrix, count, size), size),
            repeated(matrix, count + 1, size),
            size,
        ),
    decreases count,
{
    let one = grids::times(matrix, repeated(matrix, count, size), size);
    let two = repeated(matrix, count + 1, size);
    if count == 0 {
        assert forall|row: int, column: int| 0 <= row < size && 0 <= column < size implies
            #[trigger] one(row, column) == two(row, column) by {
            lemma_one_right(matrix, size, row, column);
            lemma_one_left(matrix, size, row, column);
        }
    } else {
        let shorter = (count - 1) as nat;
        lemma_repeated_front(matrix, shorter, size);
        let inner = repeated(matrix, shorter, size);
        let front = grids::times(matrix, inner, size);
        grids::lemma_times_alike(front, matrix, repeated(matrix, count, size), matrix, size);
        assert forall|row: int, column: int| 0 <= row < size && 0 <= column < size implies
            #[trigger] one(row, column) == two(row, column) by {
            grids::lemma_times_regroup(matrix, inner, matrix, size, row, column);
            assert(grids::times(front, matrix, size)(row, column) == two(row, column));
        }
    }
}

/// A power of a matrix is the matrix multiplied by itself as often as the exponent says.
pub proof fn powers_are_repeated_products<V: Scalar>(
    matrix: &Operator<V>,
    exponent: nat,
    power: &Operator<V>,
    row: int,
    column: int,
)
    requires
        grids::faithful::<V>(),
        matrix::is_power(matrix, exponent, power),
        matrix.inside(row, column),
    ensures
        power.shape == matrix.shape,
        power.entry(row, column) == repeated(cells(matrix), exponent, matrix.rows() as nat)(
            row,
            column,
        ),
{
    let size = matrix.rows() as nat;
    let start = Matrix::<V>::identity(matrix.format, matrix.rows());
    let base = matrix.matrix();
    lemma_raised(start, base, exponent, size);
    lemma_raised_shape(start, base, exponent, size);
    let one = one_grid::<V>();
    assert forall|i: int, j: int| 0 <= i < size && 0 <= j < size implies #[trigger] (start.cells)(
        i,
        j,
    ) == one(i, j) by {
        assert(V::zero_value().sum(V::one_value()) == V::one_value());
    }
    let times_base = repeated(base.cells, exponent, size);
    grids::lemma_times_alike(start.cells, times_base, one, times_base, size);
    lemma_one_left(times_base, size, row, column);
    lemma_cells(matrix);
    lemma_repeated_alike(base.cells, cells(matrix), exponent, size);
    let image = start.raised(base, exponent)->0;
    assert(image == power.matrix());
    assert((image.cells)(row, column) == grids::times(start.cells, times_base, size)(
        row,
        column,
    ));
    assert(grids::times(start.cells, times_base, size)(row, column) == grids::times(
        one,
        times_base,
        size,
    )(row, column));
    assert(times_base(row, column) == repeated(cells(matrix), exponent, size)(row, column));
}

proof fn lemma_raised_shape<V: Scalar>(
    start: Matrix<V>,
    base: Matrix<V>,
    exponent: nat,
    size: nat,
)
    requires
        start.rows == size,
        start.columns == size,
        base.rows == size,
        base.columns == size,
        start.raised(base, exponent) is Some,
    ensures
        start.raised(base, exponent)->0.rows == size,
        start.raised(base, exponent)->0.columns == size,
    decreases exponent,
{
    if exponent > 0 && exponent / 2 > 0 {
        let next = if exponent % 2 == 1 {
            start.times(base)
        } else {
            start
        };
        lemma_raised_shape(next, base.times(base), exponent / 2, size);
    }
}

proof fn lemma_repeated_alike<V: Scalar>(
    first: spec_fn(int, int) -> V,
    second: spec_fn(int, int) -> V,
    count: nat,
    size: nat,
)
    requires
        grids::alike(first, second, size),
    ensures
        grids::alike(repeated(first, count, size), repeated(second, count, size), size),
    decreases count,
{
    if count > 0 {
        let shorter = (count - 1) as nat;
        lemma_repeated_alike(first, second, shorter, size);
        grids::lemma_times_alike(
            repeated(first, shorter, size),
            first,
            repeated(second, shorter, size),
            second,
            size,
        );
    }
}

/// Every cell of a rotated matrix is the matrix element between two columns of the unitary
/// matrix.
pub proof fn rotations_measure_columns<V: Scalar>(
    matrix: &Operator<V>,
    unitary: &Operator<V>,
    rotated: &Operator<V>,
    row: int,
    column: int,
)
    requires
        grids::faithful::<V>(),
        matrix::is_rotated(matrix, unitary, rotated),
        matrix.inside(row, column),
    ensures
        rotated.shape == matrix.shape,
        rotated.entry(row, column) == grids::times(
            grids::times(grids::adjoint(cells(unitary)), cells(matrix), matrix.rows() as nat),
            cells(unitary),
            matrix.rows() as nat,
        )(row, column),
{
    let size = matrix.rows() as nat;
    let u = unitary.matrix();
    let mirrored = u.rewritten(true, algebra::Change::Conjugate);
    let a = matrix.matrix();
    let turned = grids::adjoint(cells(unitary));
    assert forall|i: int, j: int| 0 <= i < size && 0 <= j < size implies #[trigger] (
    mirrored.cells)(i, j) == turned(i, j) by {
        lemma_rewritten(u.format, algebra::Change::Conjugate, unitary.entry(j, i));
    }
    lemma_cells(matrix);
    lemma_cells(unitary);
    let first = mirrored.times(a);
    let inner = grids::times(turned, cells(matrix), size);
    grids::lemma_times_alike(mirrored.cells, a.cells, turned, cells(matrix), size);
    assert forall|i: int, j: int| 0 <= i < size && 0 <= j < size implies #[trigger] (
    first.cells)(i, j) == inner(i, j) by {
        lemma_times(mirrored, a, i, j);
        assert(grids::times(mirrored.cells, a.cells, size)(i, j) == inner(i, j));
    }
    grids::lemma_times_alike(first.cells, u.cells, inner, cells(unitary), size);
    lemma_times(first, u, row, column);
    assert(grids::times(first.cells, u.cells, size)(row, column) == grids::times(
        inner,
        cells(unitary),
        size,
    )(row, column));
    assert((rotated.matrix().cells)(row, column) == rotated.entry(row, column));
}

pub proof fn lemma_inner<V: Scalar>(left: Seq<V>, right: Seq<V>, upto: nat)
    ensures
        measurement::inner_product(left, right, upto) == bracketed(left, right, upto),
    decreases upto,
{
    if upto > 0 {
        lemma_inner(left, right, (upto - 1) as nat);
    }
}

/// The inner product of vectors in the other order is the conjugate.
pub proof fn inner_products_are_conjugate_symmetric<V: Scalar>(left: Seq<V>, right: Seq<V>)
    requires
        grids::faithful::<V>(),
        left.len() == right.len(),
    ensures
        measurement::inner_product(right, left, right.len()) == measurement::inner_product(
            left,
            right,
            left.len(),
        ).mirror(),
{
    let n = left.len();
    lemma_inner(left, right, n);
    lemma_inner(right, left, n);
    let terms = |i: int| left[i].mirror().product(right[i]);
    lemma_mirrored_total(terms, n);
    let turned = |i: int| terms(i).mirror();
    let other = |i: int| right[i].mirror().product(left[i]);
    assert forall|i: int| 0 <= i < n implies #[trigger] turned(i) == other(i) by {
        assert(grids::mirrors_product(left[i].mirror(), right[i]));
        assert(left[i].mirror().mirror() == left[i]);
        assert(exactness::factors_commute(left[i], right[i].mirror()));
    }
    exactness::lemma_total_same(turned, other, n);
}

/// The inner product is linear in the vector on the right: the product with a multiple is the
/// multiple, and that with a sum is the sum.
pub proof fn inner_products_are_linear<V: Scalar>(
    left: Seq<V>,
    first: Seq<V>,
    second: Seq<V>,
    coefficient: V,
    blend: Seq<V>,
)
    requires
        grids::faithful::<V>(),
        left.len() == first.len(),
        left.len() == second.len(),
        left.len() == blend.len(),
        forall|i: int|
            0 <= i < blend.len() ==> #[trigger] blend[i] == first[i].sum(
                coefficient.product(second[i]),
            ),
    ensures
        measurement::inner_product(left, blend, left.len()) == measurement::inner_product(
            left,
            first,
            left.len(),
        ).sum(coefficient.product(measurement::inner_product(left, second, left.len()))),
{
    let n = left.len();
    lemma_inner(left, blend, n);
    lemma_inner(left, first, n);
    lemma_inner(left, second, n);
    let one = |i: int| left[i].mirror().product(first[i]);
    let two = |i: int| left[i].mirror().product(second[i]);
    composition::lemma_scaled(two, coefficient, n);
    let scaled = |i: int| two(i).product(coefficient);
    composition::lemma_added(one, scaled, n);
    let both = |i: int| one(i).sum(scaled(i));
    let whole = |i: int| left[i].mirror().product(blend[i]);
    assert forall|i: int| 0 <= i < n implies #[trigger] whole(i) == both(i) by {
        let l = left[i].mirror();
        let a = first[i];
        let b = coefficient.product(second[i]);
        assert(blend[i] == a.sum(b));
        assert(exactness::factors_commute(l, a.sum(b)));
        assert(exactness::distributes(a, b, l));
        assert(exactness::factors_commute(a, l));
        assert(exactness::factors_commute(coefficient, second[i]));
        assert(exactness::factors_commute(b, l));
        assert(exactness::factors_regroup(l, second[i], coefficient));
    }
    exactness::lemma_total_same(whole, both, n);
    assert(exactness::factors_commute(coefficient, exactness::total(two, n)));
}

/// Two unit vectors have the inner product one where they are the same and zero elsewhere.
pub proof fn unit_vectors_are_orthonormal<V: Scalar>(left: Seq<V>, right: Seq<V>, at: int, on: int)
    requires
        grids::faithful::<V>(),
        V::one_value().mirror() == V::one_value(),
        left.len() == right.len(),
        0 <= at < left.len(),
        0 <= on < left.len(),
        forall|i: int|
            0 <= i < left.len() ==> #[trigger] left[i] == (if i == at {
                V::one_value()
            } else {
                V::zero_value()
            }),
        forall|i: int|
            0 <= i < left.len() ==> #[trigger] right[i] == (if i == on {
                V::one_value()
            } else {
                V::zero_value()
            }),
    ensures
        measurement::inner_product(left, right, left.len()) == (if at == on {
            V::one_value()
        } else {
            V::zero_value()
        }),
{
    let n = left.len();
    let z = V::zero_value();
    lemma_inner(left, right, n);
    let terms = |i: int| left[i].mirror().product(right[i]);
    let none = |i: int| V::zero_value();
    assert forall|i: int| 0 <= i < n && i != at implies #[trigger] terms(i) == none(i) by {
        assert(left[i] == z);
        assert(z.product(right[i]) == z);
    }
    exactness::lemma_total_zero(none, n);
    exactness::lemma_total_replaced(none, terms, at, n);
    assert(left[at] == V::one_value());
    assert(V::one_value().product(right[at]) == right[at]);
    assert(z.sum(terms(at)) == terms(at));
}

/// A corrected operator maps a vector as the matrix does that holds the operator and its
/// correction.
pub proof fn corrections_materialize<V: Scalar>(
    whole: &QuantumLinearOperator<V>,
    format: MatrixFormat,
    matrix: &Operator<V>,
    input: Seq<V>,
)
    requires
        grids::faithful::<V>(),
        whole.wf(),
        whole.totals(matrix, format),
    ensures
        whole.maps(input) == Some(matrix.image(input)),
{
    let plain = whole.matrix();
    let size = plain.rows() as nat;
    let image = whole.maps(input)->0;
    let z = V::zero_value();
    assert forall|row: int| 0 <= row < size implies image[row] == matrix.image(input)[row] by {
        exactness::rows_sum_up(&plain, row, input);
        exactness::rows_sum_up(matrix, row, input);
        let terms = exactness::row_terms(&plain, row, input);
        let all = exactness::row_terms(matrix, row, input);
        let d = whole.correction()[row];
        let extra = |c: int|
            if c == row {
                d.product(input[row])
            } else {
                V::zero_value()
            };
        composition::lemma_added(terms, extra, size);
        let both = |c: int| terms(c).sum(extra(c));
        assert forall|c: int| 0 <= c < size implies #[trigger] all(c) == both(c) by {
            assert(matrix.inside(row, c));
            lemma_place(&plain, whole.correction(), row, c);
            let e = plain.entry(row, c);
            assert(exactness::distributes(e, d, input[c]));
            assert(exactness::commutes(terms(c), z));
            assert(z.sum(terms(c)) == terms(c));
            assert(exactness::commutes(e, z));
            assert(z.sum(e) == e);
        }
        exactness::lemma_total_same(all, both, size);
        let none = |c: int| V::zero_value();
        exactness::lemma_total_zero(none, size);
        exactness::lemma_total_replaced(none, extra, row, size);
        assert(z.sum(extra(row)) == extra(row));
    }
    assert(image =~= matrix.image(input));
}

proof fn lemma_place<V: Scalar>(
    matrix: &Operator<V>,
    diagonal: Seq<V>,
    row: int,
    column: int,
)
    requires
        grids::faithful::<V>(),
    ensures
        triplets::summed(corrected::place_values(matrix, diagonal, row, column)) == (if row
            == column {
            matrix.entry(row, column).sum(diagonal[row])
        } else {
            matrix.entry(row, column)
        }),
{
    let e = matrix.entry(row, column);
    let d = diagonal[row];
    let z = V::zero_value();
    let list = corrected::place_values(matrix, diagonal, row, column);
    reveal_with_fuel(triplets::summed, 3);
    assert(z.sum(e) == e);
    assert(z.sum(d) == d);
    assert(exactness::commutes(e, z));
    if e.tiny() {
        if row == column && !d.tiny() {
            assert(list =~= seq![d]);
            assert(list.drop_last() =~= Seq::<V>::empty());
        }
    } else if row == column && !d.tiny() {
        assert(list =~= seq![e, d]);
        assert(list.drop_last() =~= seq![e]);
        assert(seq![e].drop_last() =~= Seq::<V>::empty());
    } else {
        assert(list =~= seq![e]);
        assert(list.drop_last() =~= Seq::<V>::empty());
    }
}

} // verus!
