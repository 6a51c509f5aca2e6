//! What matrices promise for numbers that add and multiply without rounding.

use vstd::prelude::*;
use vstd::arithmetic::div_mod::*;
use vstd::arithmetic::mul::*;
use crate::action;
use crate::algebra::Change;
use crate::algebra;
use crate::bands::Bands;
use crate::bands;
use crate::folds;
use crate::hamiltonian;
use crate::operator::{Operator, Storage};
use crate::operator;
use crate::scalar::{Multiplicity, Scalar};

verus! {

pub open spec fn commutes<V: Scalar>(a: V, b: V) -> bool {
    a.sum(b) == b.sum(a)
}

pub open spec fn regroups<V: Scalar>(a: V, b: V, c: V) -> bool {
    a.sum(b).sum(c) == a.sum(b.sum(c))
}

pub open spec fn distributes<V: Scalar>(a: V, b: V, c: V) -> bool {
    a.sum(b).product(c) == a.product(c).sum(b.product(c))
}

pub open spec fn factors_regroup<V: Scalar>(a: V, b: V, c: V) -> bool {
    a.product(b).product(c) == a.product(b.product(c))
}

pub open spec fn factors_commute<V: Scalar>(a: V, b: V) -> bool {
    a.product(b) == b.product(a)
}

/// The numbers form a commutative ring in which only zero counts as zero, with a
/// conjugation that undoes itself.
pub open spec fn exact<V: Scalar>() -> bool {
    &&& forall|a: V, b: V| #[trigger] commutes(a, b)
    &&& forall|a: V, b: V, c: V| #[trigger] regroups(a, b, c)
    &&& forall|a: V, b: V, c: V| #[trigger] distributes(a, b, c)
    &&& forall|a: V, b: V, c: V| #[trigger] factors_regroup(a, b, c)
    &&& forall|a: V, b: V| #[trigger] factors_commute(a, b)
    &&& forall|a: V| #[trigger] V::zero_value().sum(a) == a
    &&& forall|a: V| #[trigger] V::zero_value().product(a) == V::zero_value()
    &&& forall|a: V| #[trigger] a.tiny() ==> a == V::zero_value()
    &&& forall|a: V| (#[trigger] a.mirror()).mirror() == a
    &&& V::zero_value().mirror() == V::zero_value()
}

/// Multiplicities are exact.
pub proof fn multiplicities_are_exact()
    ensures
        exact::<Multiplicity>(),
{
    let m = 0x1_0000_0000_0000_0000int;
    assert forall|a: Multiplicity, b: Multiplicity, c: Multiplicity| #[trigger]
        regroups(a, b, c) by {
        lemma_add_mod_noop_right(c.ways as int, a.ways + b.ways, m);
        lemma_add_mod_noop_right(a.ways as int, b.ways + c.ways, m);
    }
    assert forall|a: Multiplicity, b: Multiplicity, c: Multiplicity| #[trigger]
        distributes(a, b, c) by {
        let (x, y, z) = (a.ways as int, b.ways as int, c.ways as int);
        lemma_mul_mod_noop_left(x + y, z, m);
        lemma_mul_is_distributive_add_other_way(z, x, y);
        lemma_add_mod_noop(x * z, y * z, m);
    }
    assert forall|a: Multiplicity, b: Multiplicity, c: Multiplicity| #[trigger]
        factors_regroup(a, b, c) by {
        let (x, y, z) = (a.ways as int, b.ways as int, c.ways as int);
        lemma_mul_mod_noop_left(x * y, z, m);
        lemma_mul_mod_noop_right(x, y * z, m);
        lemma_mul_is_associative(x, y, z);
    }
    assert forall|a: Multiplicity, b: Multiplicity| #[trigger] factors_commute(a, b) by {
        lemma_mul_is_commutative(a.ways as int, b.ways as int);
    }
    assert forall|a: Multiplicity|
        #[trigger] Multiplicity::zero_value().sum(a) == a by {
        lemma_small_mod(a.ways as nat, m as nat);
    }
    assert forall|a: Multiplicity| #[trigger] Multiplicity::zero_value().product(a)
        == Multiplicity::zero_value() by {
        lemma_mul_basics(a.ways as int);
        lemma_small_mod(0, m as nat);
    }
}

/// The sum of the first values.
pub open spec fn total<V: Scalar>(value: spec_fn(int) -> V, upto: nat) -> V
    decreases upto,
{
    if upto == 0 {
        V::zero_value()
    } else {
        total(value, (upto - 1) as nat).sum(value(upto - 1))
    }
}

pub proof fn lemma_total_same<V: Scalar>(
    first: spec_fn(int) -> V,
    second: spec_fn(int) -> V,
    upto: nat,
)
    requires
        forall|i: int| 0 <= i < upto ==> #[trigger] first(i) == second(i),
    ensures
        total(first, upto) == total(second, upto),
    decreases upto,
{
    if upto > 0 {
        lemma_total_same(first, second, (upto - 1) as nat);
        assert(first(upto - 1) == second(upto - 1));
    }
}

pub proof fn lemma_total_zero<V: Scalar>(value: spec_fn(int) -> V, upto: nat)
    requires
        exact::<V>(),
        forall|i: int| 0 <= i < upto ==> #[trigger] value(i) == V::zero_value(),
    ensures
        total(value, upto) == V::zero_value(),
    decreases upto,
{
    if upto > 0 {
        lemma_total_zero(value, (upto - 1) as nat);
        assert(value(upto - 1) == V::zero_value());
    }
}

/// Replacing one zero by a value adds the value to the sum.
pub proof fn lemma_total_replaced<V: Scalar>(
    before: spec_fn(int) -> V,
    after: spec_fn(int) -> V,
    at: int,
    upto: nat,
)
    requires
        exact::<V>(),
        0 <= at < upto,
        before(at) == V::zero_value(),
        forall|i: int| 0 <= i < upto && i != at ==> #[trigger] after(i) == before(i),
    ensures
        total(after, upto) == total(before, upto).sum(after(at)),
    decreases upto,
{
    let shorter = (upto - 1) as nat;
    let rest = total(before, shorter);
    if at == upto - 1 {
        lemma_total_same(after, before, shorter);
        assert(commutes(rest, V::zero_value()));
    } else {
        lemma_total_replaced(before, after, at, shorter);
        let last = before(upto - 1);
        let new = after(at);
        assert(after(upto - 1) == last);
        assert(regroups(rest, new, last));
        assert(commutes(new, last));
        assert(regroups(rest, last, new));
    }
}

/// What a row makes of a vector, cell by cell.
pub open spec fn row_terms<V: Scalar>(
    matrix: &Operator<V>,
    row: int,
    input: Seq<V>,
) -> spec_fn(int) -> V {
    |column: int| matrix.entry(row, column).product(input[column])
}

proof fn lemma_full<V: Scalar>(matrix: &Operator<V>, row: int, input: Seq<V>, upto: nat)
    ensures
        action::full_fold(matrix, row, input, upto) == total(row_terms(matrix, row, input), upto),
    decreases upto,
{
    if upto > 0 {
        lemma_full(matrix, row, input, (upto - 1) as nat);
    }
}

proof fn lemma_ascending<V: Scalar>(matrix: &Operator<V>, row: int, input: Seq<V>, upto: nat)
    requires
        exact::<V>(),
    ensures
        folds::ascending_fold(
            true,
            |column: int| matrix.entry(row, column),
            action::action_term(input),
            upto,
        ) == total(row_terms(matrix, row, input), upto),
    decreases upto,
{
    if upto > 0 {
        lemma_ascending(matrix, row, input, (upto - 1) as nat);
        let rest = total(row_terms(matrix, row, input), (upto - 1) as nat);
        assert(commutes(rest, V::zero_value()));
    }
}

/// The cell where the row meets one of the first diagonals.
spec fn met_cell<V: Scalar>(
    diagonals: &Bands<V>,
    matrix: &Operator<V>,
    row: int,
    column: int,
    upto: int,
) -> V {
    if exists|b: int| 0 <= b < upto && #[trigger] diagonals.offsets@[b] == row - column {
        matrix.entry(row, column)
    } else {
        V::zero_value()
    }
}

spec fn met_terms<V: Scalar>(
    diagonals: &Bands<V>,
    matrix: &Operator<V>,
    row: int,
    input: Seq<V>,
    upto: int,
) -> spec_fn(int) -> V {
    |column: int| met_cell(diagonals, matrix, row, column, upto).product(input[column])
}

proof fn lemma_bands<V: Scalar>(
    diagonals: &Bands<V>,
    matrix: &Operator<V>,
    row: int,
    input: Seq<V>,
    upto: nat,
)
    requires
        exact::<V>(),
        matrix.wf(),
        matrix.storage matches Storage::Dia(held) && held == *diagonals,
        0 <= row < matrix.rows(),
        upto <= diagonals.offsets@.len(),
    ensures
        action::band_fold(diagonals, matrix.rows(), matrix.columns(), row, input, upto) == total(
            met_terms(diagonals, matrix, row, input, upto as int),
            matrix.columns() as nat,
        ),
    decreases upto,
{
    let rows = matrix.rows();
    let columns = matrix.columns();
    let now = met_terms(diagonals, matrix, row, input, upto as int);
    if upto == 0 {
        assert forall|c: int| 0 <= c < columns implies #[trigger] now(c) == V::zero_value() by {}
        lemma_total_zero(now, columns as nat);
    } else {
        let shorter = (upto - 1) as nat;
        lemma_bands(diagonals, matrix, row, input, shorter);
        let before = met_terms(diagonals, matrix, row, input, shorter as int);
        let column = row - diagonals.offsets@[upto - 1];
        assert forall|c: int| 0 <= c < columns && c != column implies #[trigger] now(c) == before(
            c,
        ) by {
            if exists|b: int| 0 <= b < upto && #[trigger] diagonals.offsets@[b] == row - c {
                let b = choose|b: int| 0 <= b < upto && #[trigger] diagonals.offsets@[b] == row - c;
                assert(b != upto - 1);
                assert(0 <= b < shorter && diagonals.offsets@[b] == row - c);
            }
        }
        if 0 <= column < columns {
            assert(before(column) == V::zero_value()) by {
                if exists|b: int|
                    0 <= b < shorter && #[trigger] diagonals.offsets@[b] == row - column {
                    let b = choose|b: int|
                        0 <= b < shorter && #[trigger] diagonals.offsets@[b] == row - column;
                    assert(diagonals.offsets@[b] < diagonals.offsets@[upto - 1]);
                }
            }
            diagonals.lemma_cell_at(rows, columns, upto - 1, row, column);
            assert(diagonals.offsets@[upto - 1] == row - column);
            assert(now(column) == diagonals.values@[bands::slot(upto - 1, rows, row)].product(
                input[column],
            ));
            lemma_total_replaced(before, now, column, columns as nat);
        } else {
            lemma_total_same(before, now, columns as nat);
        }
    }
}

/// A component of the image of a vector is the sum over all cells of the row, however
/// the matrix is stored.
pub proof fn rows_sum_up<V: Scalar>(matrix: &Operator<V>, row: int, input: Seq<V>)
    requires
        exact::<V>(),
        matrix.wf(),
        0 <= row < matrix.rows(),
    ensures
        matrix.row_action(row, input) == total(
            row_terms(matrix, row, input),
            matrix.columns() as nat,
        ),
{
    match &matrix.storage {
        Storage::Dense(_) => {
            lemma_full(matrix, row, input, matrix.columns() as nat);
        },
        Storage::Dia(diagonals) => {
            let bands = diagonals.offsets@.len();
            lemma_bands(diagonals, matrix, row, input, bands);
            let met = met_terms(diagonals, matrix, row, input, bands as int);
            let all = row_terms(matrix, row, input);
            assert forall|c: int| 0 <= c < matrix.columns() implies #[trigger] met(c) == all(c) by {
                reveal(Bands::cell);
            }
            lemma_total_same(met, all, matrix.columns() as nat);
        },
        _ => {
            lemma_ascending(matrix, row, input, matrix.columns() as nat);
        },
    }
}

/// Equal matrices act equally, however they are stored.
pub proof fn storage_does_not_matter<V: Scalar>(
    first: &Operator<V>,
    second: &Operator<V>,
    input: Seq<V>,
)
    requires
        exact::<V>(),
        first.wf(),
        second.wf(),
        first.shape == second.shape,
        forall|row: int, column: int|
            first.inside(row, column) ==> #[trigger] first.entry(row, column) == second.entry(
                row,
                column,
            ),
    ensures
        first.image(input) == second.image(input),
{
    assert forall|row: int| 0 <= row < first.rows() implies first.image(input)[row]
        == second.image(input)[row] by {
        rows_sum_up(first, row, input);
        rows_sum_up(second, row, input);
        lemma_total_same(
            row_terms(first, row, input),
            row_terms(second, row, input),
            first.columns() as nat,
        );
    }
    assert(first.image(input) =~= second.image(input));
}

/// Writing a matrix in another format changes no entry, and so nothing that the matrix
/// does.
pub proof fn conversion_keeps_action<V: Scalar>(
    matrix: &Operator<V>,
    image: &Operator<V>,
    input: Seq<V>,
)
    requires
        exact::<V>(),
        matrix.wf(),
        image.wf(),
        image.shape == matrix.shape,
        forall|row: int, column: int|
            image.inside(row, column) ==> #[trigger] image.entry(row, column) == matrix.entry(
                row,
                column,
            ),
    ensures
        image.image(input) == matrix.image(input),
{
    storage_does_not_matter(image, matrix, input);
}

/// Transposing twice, or taking the adjoint twice, gives every entry back.
pub proof fn mirroring_twice<V: Scalar>(
    matrix: Operator<V>,
    once: Operator<V>,
    twice: Operator<V>,
    change: Change<V>,
    row: int,
    column: int,
)
    requires
        exact::<V>(),
        matrix.wf(),
        change is Keep || change is Conjugate,
        hamiltonian::rewritten_as(matrix, true, change, once),
        hamiltonian::rewritten_as(once, true, change, twice),
        matrix.inside(row, column),
    ensures
        twice.shape == matrix.shape,
        twice.format == matrix.format,
        twice.entry(row, column) == matrix.entry(row, column),
{
    let value = matrix.entry(row, column);
    assert(once.inside(column, row));
    assert(once.entry(column, row) == operator::settled(
        matrix.format,
        algebra::rewritten(change, value),
    ));
    assert(twice.inside(row, column));
    assert(twice.entry(row, column) == operator::settled(
        matrix.format,
        algebra::rewritten(change, once.entry(column, row)),
    ));
    assert(value.mirror().mirror() == value);
}

} // verus!
