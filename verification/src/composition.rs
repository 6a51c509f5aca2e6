//! Products and sums of matrices act as products and sums of maps, for numbers that add
//! and multiply without rounding.

use vstd::prelude::*;
use crate::action;
use crate::algebra;
use crate::exactness;
use crate::folds;
use crate::operator::Operator;
use crate::operator;
use crate::product;
use crate::scalar::Scalar;

verus! {

pub proof fn lemma_scaled<V: Scalar>(value: spec_fn(int) -> V, factor: V, upto: nat)
    requires
        exactness::exact::<V>(),
    ensures
        exactness::total(value, upto).product(factor) == exactness::total(
            |i: int| value(i).product(factor),
            upto,
        ),
    decreases upto,
{
    if upto > 0 {
        let shorter = (upto - 1) as nat;
        lemma_scaled(value, factor, shorter);
        assert(exactness::distributes(
            exactness::total(value, shorter),
            value(upto - 1),
            factor,
        ));
    }
}

pub proof fn lemma_added<V: Scalar>(first: spec_fn(int) -> V, second: spec_fn(int) -> V, upto: nat)
    requires
        exactness::exact::<V>(),
    ensures
        exactness::total(first, upto).sum(exactness::total(second, upto)) == exactness::total(
            |i: int| first(i).sum(second(i)),
            upto,
        ),
    decreases upto,
{
    if upto > 0 {
        let shorter = (upto - 1) as nat;
        lemma_added(first, second, shorter);
        let a = exactness::total(first, shorter);
        let b = first(upto - 1);
        let c = exactness::total(second, shorter);
        let d = second(upto - 1);
        assert(exactness::regroups(a, b, c.sum(d)));
        assert(exactness::regroups(b, c, d));
        assert(exactness::commutes(b, c));
        assert(exactness::regroups(c, b, d));
        assert(exactness::regroups(a, c, b.sum(d)));
    }
}

/// A sum over two indices can be taken in either order.
pub proof fn lemma_exchanged<V: Scalar>(value: spec_fn(int, int) -> V, rows: nat, columns: nat)
    requires
        exactness::exact::<V>(),
    ensures
        exactness::total(|i: int| exactness::total(|j: int| value(i, j), columns), rows)
            == exactness::total(|j: int| exactness::total(|i: int| value(i, j), rows), columns),
    decreases rows,
{
    let by_rows = |i: int| exactness::total(|j: int| value(i, j), columns);
    let by_columns = |j: int| exactness::total(|i: int| value(i, j), rows);
    if rows == 0 {
        assert forall|j: int| 0 <= j < columns implies #[trigger] by_columns(j)
            == V::zero_value() by {}
        exactness::lemma_total_zero(by_columns, columns);
    } else {
        let shorter = (rows - 1) as nat;
        lemma_exchanged(value, shorter, columns);
        let before = |j: int| exactness::total(|i: int| value(i, j), shorter);
        let last = |j: int| value(rows - 1, j);
        lemma_added(before, last, columns);
        let both = |j: int| before(j).sum(last(j));
        assert forall|j: int| 0 <= j < columns implies #[trigger] both(j) == by_columns(j) by {}
        exactness::lemma_total_same(both, by_columns, columns);
        assert(by_rows(rows - 1) == exactness::total(last, columns));
    }
}

/// The products that add up to a cell of a matrix product.
pub open spec fn cell_terms<V: Scalar>(
    left: &Operator<V>,
    right: &Operator<V>,
    row: int,
    column: int,
) -> spec_fn(int) -> V {
    |middle: int| left.entry(row, middle).product(right.entry(middle, column))
}

proof fn lemma_cell<V: Scalar>(
    left: &Operator<V>,
    right: &Operator<V>,
    row: int,
    column: int,
    upto: nat,
)
    requires
        exactness::exact::<V>(),
    ensures
        folds::ascending_fold(
            false,
            |middle: int| left.entry(row, middle),
            product::product_term(right, column),
            upto,
        ) == exactness::total(cell_terms(left, right, row, column), upto),
    decreases upto,
{
    if upto > 0 {
        let shorter = (upto - 1) as nat;
        lemma_cell(left, right, row, column, shorter);
        let rest = exactness::total(cell_terms(left, right, row, column), shorter);
        let a = left.entry(row, upto - 1);
        let b = right.entry(upto - 1, column);
        assert(exactness::commutes(rest, V::zero_value()));
        assert(exactness::factors_commute(a, b));
        assert(V::zero_value().product(a) == V::zero_value());
        assert(V::zero_value().product(b) == V::zero_value());
    }
}

/// The matrix holds the product of two others.
pub open spec fn is_product<V: Scalar>(
    left: &Operator<V>,
    right: &Operator<V>,
    result: &Operator<V>,
) -> bool {
    &&& left.shape.1 == right.shape.0
    &&& result.shape == (left.shape.0, right.shape.1)
    &&& result.format == left.format
    &&& forall|row: int, column: int|
        result.inside(row, column) ==> #[trigger] result.entry(row, column)
            == product::product_entry(left, right, row, column)
}

/// A cell of a product is the sum of all products along the row and the column.
pub proof fn cells_sum_up<V: Scalar>(
    left: &Operator<V>,
    right: &Operator<V>,
    result: &Operator<V>,
    row: int,
    column: int,
)
    requires
        exactness::exact::<V>(),
        is_product(left, right, result),
        result.inside(row, column),
    ensures
        result.entry(row, column) == exactness::total(
            cell_terms(left, right, row, column),
            left.columns() as nat,
        ),
{
    let terms = cell_terms(left, right, row, column);
    let middle = left.columns() as nat;
    lemma_cell(left, right, row, column, middle);
    let sum = product::cell_product(left, right, row, column);
    assert(V::zero_value().sum(sum) == sum);
    if !product::meets(left, right, row, column) {
        assert forall|m: int| 0 <= m < middle implies #[trigger] terms(m) == V::zero_value() by {
            let a = left.entry(row, m);
            let b = right.entry(m, column);
            assert(a.tiny() || b.tiny());
            assert(exactness::factors_commute(a, b));
            assert(V::zero_value().product(a) == V::zero_value());
            assert(V::zero_value().product(b) == V::zero_value());
        }
        exactness::lemma_total_zero(terms, middle);
    }
}

/// The product of two matrices maps a vector to what the left one makes of its image
/// under the right one.
pub proof fn products_compose<V: Scalar>(
    left: &Operator<V>,
    right: &Operator<V>,
    result: &Operator<V>,
    input: Seq<V>,
)
    requires
        exactness::exact::<V>(),
        left.wf(),
        right.wf(),
        result.wf(),
        is_product(left, right, result),
    ensures
        result.image(input) == left.image(right.image(input)),
{
    let columns = right.columns() as nat;
    let middles = left.columns() as nat;
    let between = right.image(input);
    assert forall|row: int| 0 <= row < left.rows() implies result.image(input)[row] == left.image(
        between,
    )[row] by {
        exactness::rows_sum_up(result, row, input);
        exactness::rows_sum_up(left, row, between);
        let whole = exactness::row_terms(result, row, input);
        let value = |m: int, c: int|
            left.entry(row, m).product(right.entry(m, c)).product(input[c]);
        let by_columns = |c: int| exactness::total(|m: int| value(m, c), middles);
        assert forall|c: int| 0 <= c < columns implies #[trigger] whole(c) == by_columns(c) by {
            assert(result.inside(row, c));
            cells_sum_up(left, right, result, row, c);
            lemma_scaled(cell_terms(left, right, row, c), input[c], middles);
            let scaled = |m: int| cell_terms(left, right, row, c)(m).product(input[c]);
            let inner = |m: int| value(m, c);
            assert forall|m: int| 0 <= m < middles implies #[trigger] scaled(m) == inner(m) by {}
            exactness::lemma_total_same(scaled, inner, middles);
        }
        exactness::lemma_total_same(whole, by_columns, columns);
        lemma_exchanged(value, middles, columns);
        let by_middles = |m: int| exactness::total(|c: int| value(m, c), columns);
        let outer = exactness::row_terms(left, row, between);
        assert forall|m: int| 0 <= m < middles implies #[trigger] by_middles(m) == outer(m) by {
            exactness::rows_sum_up(right, m, input);
            let a = left.entry(row, m);
            let line = exactness::row_terms(right, m, input);
            lemma_scaled(line, a, columns);
            let scaled = |c: int| line(c).product(a);
            let inner = |c: int| value(m, c);
            assert forall|c: int| 0 <= c < columns implies #[trigger] scaled(c) == inner(c) by {
                let b = right.entry(m, c);
                assert(exactness::factors_commute(b.product(input[c]), a));
                assert(exactness::factors_regroup(a, b, input[c]));
            }
            exactness::lemma_total_same(scaled, inner, columns);
            assert(exactness::factors_commute(exactness::total(line, columns), a));
            assert(between[m] == right.row_action(m, input));
        }
        exactness::lemma_total_same(by_middles, outer, middles);
    }
    assert(result.image(input) =~= left.image(between));
}

/// The matrix holds the sum of one matrix and a multiple of another.
pub open spec fn is_sum<V: Scalar>(
    left: &Operator<V>,
    right: &Operator<V>,
    scale: V,
    result: &Operator<V>,
) -> bool {
    &&& left.shape == right.shape
    &&& result.shape == left.shape
    &&& result.format == left.format
    &&& forall|row: int, column: int|
        result.inside(row, column) ==> #[trigger] result.entry(row, column) == operator::settled(
            left.format,
            algebra::combined(left.entry(row, column), right.entry(row, column), scale),
        )
}

/// The sum of a matrix and a multiple of another maps a vector to the sum of its image
/// and the multiple of its other image.
pub proof fn sums_act<V: Scalar>(
    left: &Operator<V>,
    right: &Operator<V>,
    scale: V,
    result: &Operator<V>,
    input: Seq<V>,
    row: int,
)
    requires
        exactness::exact::<V>(),
        left.wf(),
        right.wf(),
        result.wf(),
        is_sum(left, right, scale, result),
        0 <= row < left.rows(),
    ensures
        result.image(input)[row] == left.image(input)[row].sum(
            scale.product(right.image(input)[row]),
        ),
{
    let columns = left.columns() as nat;
    exactness::rows_sum_up(result, row, input);
    exactness::rows_sum_up(left, row, input);
    exactness::rows_sum_up(right, row, input);
    let whole = exactness::row_terms(result, row, input);
    let first = exactness::row_terms(left, row, input);
    let second = exactness::row_terms(right, row, input);
    lemma_scaled(second, scale, columns);
    let scaled = |c: int| second(c).product(scale);
    lemma_added(first, scaled, columns);
    let both = |c: int| first(c).sum(scaled(c));
    assert forall|c: int| 0 <= c < columns implies #[trigger] whole(c) == both(c) by {
        assert(result.inside(row, c));
        let a = left.entry(row, c);
        let b = right.entry(row, c);
        let x = input[c];
        let z = V::zero_value();
        assert(z.sum(a) == a);
        assert(exactness::commutes(a, z));
        assert(exactness::factors_commute(scale, b));
        assert(z.product(scale) == z);
        assert(result.entry(row, c) == a.sum(scale.product(b)));
        assert(exactness::distributes(a, scale.product(b), x));
        assert(exactness::factors_regroup(scale, b, x));
        assert(exactness::factors_commute(scale, b.product(x)));
    }
    exactness::lemma_total_same(whole, both, columns);
    assert(exactness::factors_commute(exactness::total(second, columns), scale));
}

proof fn lemma_column<V: Scalar>(matrix: &Operator<V>, column: int, input: Seq<V>, upto: nat)
    requires
        exactness::exact::<V>(),
    ensures
        folds::ascending_fold(
            matrix.listed(),
            |row: int| matrix.entry(row, column),
            action::action_term(input),
            upto,
        ) == exactness::total(|row: int| matrix.entry(row, column).product(input[row]), upto),
    decreases upto,
{
    if upto > 0 {
        lemma_column(matrix, column, input, (upto - 1) as nat);
        let rest = exactness::total(
            |row: int| matrix.entry(row, column).product(input[row]),
            (upto - 1) as nat,
        );
        assert(exactness::commutes(rest, V::zero_value()));
    }
}

/// Pairing a vector with an image gives the same as pairing its image under the
/// transpose with the other vector.
pub proof fn transposes_pair<V: Scalar>(matrix: &Operator<V>, left: Seq<V>, right: Seq<V>)
    requires
        exactness::exact::<V>(),
        matrix.wf(),
    ensures
        exactness::total(
            |row: int| left[row].product(matrix.image(right)[row]),
            matrix.rows() as nat,
        ) == exactness::total(
            |column: int| matrix.transposed_image(left)[column].product(right[column]),
            matrix.columns() as nat,
        ),
{
    let rows = matrix.rows() as nat;
    let columns = matrix.columns() as nat;
    let value = |r: int, c: int| left[r].product(matrix.entry(r, c)).product(right[c]);
    let by_rows = |r: int| exactness::total(|c: int| value(r, c), columns);
    let by_columns = |c: int| exactness::total(|r: int| value(r, c), rows);
    let first = |row: int| left[row].product(matrix.image(right)[row]);
    let second = |column: int| matrix.transposed_image(left)[column].product(right[column]);
    assert forall|r: int| 0 <= r < rows implies #[trigger] first(r) == by_rows(r) by {
        exactness::rows_sum_up(matrix, r, right);
        let line = exactness::row_terms(matrix, r, right);
        lemma_scaled(line, left[r], columns);
        let scaled = |c: int| line(c).product(left[r]);
        let inner = |c: int| value(r, c);
        assert forall|c: int| 0 <= c < columns implies #[trigger] scaled(c) == inner(c) by {
            let b = matrix.entry(r, c);
            assert(exactness::factors_commute(b.product(right[c]), left[r]));
            assert(exactness::factors_regroup(left[r], b, right[c]));
        }
        exactness::lemma_total_same(scaled, inner, columns);
        assert(exactness::factors_commute(exactness::total(line, columns), left[r]));
    }
    exactness::lemma_total_same(first, by_rows, rows);
    lemma_exchanged(value, rows, columns);
    assert forall|c: int| 0 <= c < columns implies #[trigger] by_columns(c) == second(c) by {
        lemma_column(matrix, c, left, rows);
        let line = |r: int| matrix.entry(r, c).product(left[r]);
        lemma_scaled(line, right[c], rows);
        let scaled = |r: int| line(r).product(right[c]);
        let inner = |r: int| value(r, c);
        assert forall|r: int| 0 <= r < rows implies #[trigger] scaled(r) == inner(r) by {
            assert(exactness::factors_commute(matrix.entry(r, c), left[r]));
        }
        exactness::lemma_total_same(scaled, inner, rows);
    }
    exactness::lemma_total_same(by_columns, second, columns);
}

} // verus!
