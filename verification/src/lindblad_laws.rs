//! What the generators of open dynamics keep and where they come to rest, for exact
//! numbers.

use vstd::prelude::*;
use crate::composition;
use crate::exactness;
use crate::grids;
use crate::lindblad::LindbladGenerator;
use crate::lindblad;
use crate::linear::LinearOperator;
use crate::operator;
use crate::scalar::{Amplitude, Scalar};

verus! {

/// The cells of a matrix that is stored row after row.
pub open spec fn by_rows<V>(values: Seq<V>, size: nat) -> spec_fn(int, int) -> V {
    |row: int, column: int| values[row * size + column]
}

/// The cells of a matrix that is stored column after column.
pub open spec fn by_columns<V>(values: Seq<V>, size: nat) -> spec_fn(int, int) -> V {
    |row: int, column: int| values[column * size + row]
}

/// The derivative of a density matrix, cell by cell.
pub open spec fn driven<V: Amplitude>(
    generator: &LindbladGenerator<V>,
    density: Seq<V>,
) -> spec_fn(int, int) -> V {
    by_columns(generator.maps(density)->0, generator.size() as nat)
}

pub open spec fn energy<V: Amplitude>(generator: &LindbladGenerator<V>) -> spec_fn(
    int,
    int,
) -> V {
    by_rows(generator.still(), generator.size() as nat)
}

pub open spec fn leap<V: Amplitude>(generator: &LindbladGenerator<V>, k: int) -> spec_fn(
    int,
    int,
) -> V {
    by_rows(generator.leaps()[k], generator.size() as nat)
}

proof fn lemma_cell_place(size: nat, row: int, column: int)
    requires
        0 <= row < size,
        0 <= column < size,
    ensures
        0 <= row * size + column < size * size,
        (row * size + column) / (size as int) == row,
        (row * size + column) % (size as int) == column,
{
    operator::lemma_cell_index(size as int, size as int, row, column);
    vstd::arithmetic::div_mod::lemma_fundamental_div_mod_converse(
        row * size + column,
        size as int,
        row,
        column,
    );
}

proof fn lemma_product_total<V: Scalar>(
    left: Seq<V>,
    right: Seq<V>,
    size: nat,
    row: int,
    column: int,
    upto: nat,
)
    ensures
        lindblad::product_cell(left, right, size as int, row, column, upto) == exactness::total(
            grids::line(by_rows(left, size), by_rows(right, size), row, column),
            upto,
        ),
    decreases upto,
{
    if upto > 0 {
        lemma_product_total(left, right, size, row, column, (upto - 1) as nat);
    }
}

proof fn lemma_dense_product<V: Scalar>(left: Seq<V>, right: Seq<V>, size: nat)
    ensures
        grids::alike(
            by_rows(lindblad::dense_product(left, right, size as int), size),
            grids::times(by_rows(left, size), by_rows(right, size), size),
            size,
        ),
{
    let one = by_rows(lindblad::dense_product(left, right, size as int), size);
    let two = grids::times(by_rows(left, size), by_rows(right, size), size);
    assert forall|row: int, column: int| 0 <= row < size && 0 <= column < size implies
        #[trigger] one(row, column) == two(row, column) by {
        lemma_cell_place(size, row, column);
        lemma_product_total(left, right, size, row, column, size);
    }
}

proof fn lemma_dense_adjoint<V: Scalar>(matrix: Seq<V>, size: nat)
    ensures
        grids::alike(
            by_rows(lindblad::dense_adjoint(matrix, size as int), size),
            grids::adjoint(by_rows(matrix, size)),
            size,
        ),
{
    let one = by_rows(lindblad::dense_adjoint(matrix, size as int), size);
    let two = grids::adjoint(by_rows(matrix, size));
    assert forall|row: int, column: int| 0 <= row < size && 0 <= column < size implies
        #[trigger] one(row, column) == two(row, column) by {
        lemma_cell_place(size, row, column);
    }
}

proof fn lemma_dense_turned<V: Scalar>(matrix: Seq<V>, size: nat)
    ensures
        grids::alike(
            by_rows(lindblad::dense_turned(matrix, size as int), size),
            by_columns(matrix, size),
            size,
        ),
        grids::alike(
            by_columns(lindblad::dense_turned(matrix, size as int), size),
            by_rows(matrix, size),
            size,
        ),
{
    let turned = lindblad::dense_turned(matrix, size as int);
    let one = by_rows(turned, size);
    let two = by_columns(matrix, size);
    assert forall|row: int, column: int| 0 <= row < size && 0 <= column < size implies
        #[trigger] one(row, column) == two(row, column) by {
        lemma_cell_place(size, row, column);
    }
    let three = by_columns(turned, size);
    let four = by_rows(matrix, size);
    assert forall|row: int, column: int| 0 <= row < size && 0 <= column < size implies
        #[trigger] three(row, column) == four(row, column) by {
        lemma_cell_place(size, column, row);
    }
}

/// What a jump adds to a cell.
spec fn added<V: Amplitude>(
    jump: spec_fn(int, int) -> V,
    density: spec_fn(int, int) -> V,
    size: nat,
    row: int,
    column: int,
) -> V {
    let mirrored = grids::adjoint(jump);
    let both = grids::times(mirrored, jump, size);
    grids::times(grids::times(jump, density, size), mirrored, size)(row, column).sum(
        grids::half::<V>().product(
            grids::times(both, density, size)(row, column).sum(
                grids::times(density, both, size)(row, column),
            ),
        ).product(V::minus_one_value()),
    )
}

proof fn lemma_jump<V: Amplitude>(
    jump: Seq<V>,
    values: Seq<V>,
    density: spec_fn(int, int) -> V,
    size: nat,
    row: int,
    column: int,
)
    requires
        0 <= row < size,
        0 <= column < size,
        grids::alike(by_rows(values, size), density, size),
    ensures
        lindblad::jump_part(jump, values, size as int, row * size + column) == added(
            by_rows(jump, size),
            density,
            size,
            row,
            column,
        ),
{
    let n = size as int;
    let l = by_rows(jump, size);
    let r = by_rows(values, size);
    let mirrored = lindblad::dense_adjoint(jump, n);
    let a = grids::adjoint(l);
    lemma_dense_adjoint(jump, size);
    let both = lindblad::dense_product(mirrored, jump, n);
    lemma_dense_product(mirrored, jump, size);
    grids::lemma_times_alike(by_rows(mirrored, size), l, a, l, size);
    let k = grids::times(a, l, size);
    assert(grids::alike(by_rows(both, size), k, size)) by {
        assert forall|i: int, j: int| 0 <= i < size && 0 <= j < size implies #[trigger] by_rows(
            both,
            size,
        )(i, j) == k(i, j) by {
            assert(grids::times(by_rows(mirrored, size), l, size)(i, j) == k(i, j));
        }
    }
    let once = lindblad::dense_product(jump, values, n);
    lemma_dense_product(jump, values, size);
    grids::lemma_times_alike(l, r, l, density, size);
    let front = grids::times(l, density, size);
    assert(grids::alike(by_rows(once, size), front, size)) by {
        assert forall|i: int, j: int| 0 <= i < size && 0 <= j < size implies #[trigger] by_rows(
            once,
            size,
        )(i, j) == front(i, j) by {
            assert(grids::times(l, r, size)(i, j) == front(i, j));
        }
    }
    lemma_dense_product(once, mirrored, size);
    grids::lemma_times_alike(by_rows(once, size), by_rows(mirrored, size), front, a, size);
    lemma_dense_product(both, values, size);
    grids::lemma_times_alike(by_rows(both, size), r, k, density, size);
    lemma_dense_product(values, both, size);
    grids::lemma_times_alike(r, by_rows(both, size), density, k, size);
    let gain = lindblad::dense_product(once, mirrored, n);
    let left = lindblad::dense_product(both, values, n);
    let right = lindblad::dense_product(values, both, n);
    assert(by_rows(gain, size)(row, column) == grids::times(
        by_rows(once, size),
        by_rows(mirrored, size),
        size,
    )(row, column));
    assert(by_rows(left, size)(row, column) == grids::times(by_rows(both, size), r, size)(
        row,
        column,
    ));
    assert(by_rows(right, size)(row, column) == grids::times(r, by_rows(both, size), size)(
        row,
        column,
    ));
    assert(grids::times(by_rows(once, size), by_rows(mirrored, size), size)(row, column)
        == grids::times(front, a, size)(row, column));
    assert(grids::times(by_rows(both, size), r, size)(row, column) == grids::times(
        k,
        density,
        size,
    )(row, column));
    assert(grids::times(r, by_rows(both, size), size)(row, column) == grids::times(
        density,
        k,
        size,
    )(row, column));
}

/// The derivative after the first jumps.
spec fn partly<V: Amplitude>(
    generator: &LindbladGenerator<V>,
    density: Seq<V>,
    row: int,
    column: int,
    upto: nat,
) -> V {
    let size = generator.size() as nat;
    lindblad::derivative(
        generator.still(),
        generator.leaps(),
        lindblad::dense_turned(density, size as int),
        size as int,
        row * size + column,
        upto,
    )
}

proof fn lemma_driven<V: Amplitude>(
    generator: &LindbladGenerator<V>,
    density: Seq<V>,
    row: int,
    column: int,
)
    requires
        0 <= row < generator.size(),
        0 <= column < generator.size(),
    ensures
        driven(generator, density)(row, column) == partly(
            generator,
            density,
            row,
            column,
            generator.leaps().len(),
        ),
{
    let size = generator.size() as nat;
    let n = size as int;
    let inner = lindblad::dense_turned(density, n);
    let whole = Seq::new(
        (n * n) as nat,
        |at: int|
            lindblad::derivative(
                generator.still(),
                generator.leaps(),
                inner,
                n,
                at,
                generator.leaps().len(),
            ),
    );
    lemma_dense_turned(whole, size);
    lemma_cell_place(size, row, column);
    assert(by_columns(lindblad::dense_turned(whole, n), size)(row, column) == by_rows(
        whole,
        size,
    )(row, column));
}

proof fn lemma_still<V: Amplitude>(
    generator: &LindbladGenerator<V>,
    density: Seq<V>,
    row: int,
    column: int,
)
    requires
        0 <= row < generator.size(),
        0 <= column < generator.size(),
    ensures
        ({
            let size = generator.size() as nat;
            let rho = by_columns(density, size);
            partly(generator, density, row, column, 0) == grids::unit::<V>(3).product(
                grids::times(energy(generator), rho, size)(row, column).sum(
                    grids::times(rho, energy(generator), size)(row, column).product(
                        V::minus_one_value(),
                    ),
                ),
            )
        }),
{
    let size = generator.size() as nat;
    let rho = by_columns(density, size);
    let inner = lindblad::dense_turned(density, size as int);
    let r = by_rows(inner, size);
    let h = energy(generator);
    lemma_dense_turned(density, size);
    lemma_dense_product(generator.still(), inner, size);
    lemma_dense_product(inner, generator.still(), size);
    grids::lemma_times_alike(h, r, h, rho, size);
    grids::lemma_times_alike(r, h, rho, h, size);
    let first = lindblad::dense_product(generator.still(), inner, size as int);
    let second = lindblad::dense_product(inner, generator.still(), size as int);
    assert(by_rows(first, size)(row, column) == grids::times(h, r, size)(row, column));
    assert(by_rows(second, size)(row, column) == grids::times(r, h, size)(row, column));
    assert(grids::times(h, r, size)(row, column) == grids::times(h, rho, size)(row, column));
    assert(grids::times(r, h, size)(row, column) == grids::times(rho, h, size)(row, column));
}

proof fn lemma_next<V: Amplitude>(
    generator: &LindbladGenerator<V>,
    density: Seq<V>,
    row: int,
    column: int,
    upto: nat,
)
    requires
        0 <= row < generator.size(),
        0 <= column < generator.size(),
        upto > 0,
    ensures
        partly(generator, density, row, column, upto) == partly(
            generator,
            density,
            row,
            column,
            (upto - 1) as nat,
        ).sum(
            added(
                leap(generator, upto - 1),
                by_columns(density, generator.size() as nat),
                generator.size() as nat,
                row,
                column,
            ),
        ),
{
    let size = generator.size() as nat;
    let inner = lindblad::dense_turned(density, size as int);
    lemma_dense_turned(density, size);
    lemma_jump(
        generator.leaps()[upto - 1],
        inner,
        by_columns(density, size),
        size,
        row,
        column,
    );
}

/// Without jumps the imaginary unit times the derivative is the commutator of the
/// Hamiltonian and the density matrix.
pub proof fn closed_systems_follow_the_commutator<V: Amplitude>(
    generator: &LindbladGenerator<V>,
    density: Seq<V>,
    row: int,
    column: int,
)
    requires
        grids::complete::<V>(),
        generator.leaps().len() == 0,
        0 <= row < generator.size(),
        0 <= column < generator.size(),
    ensures
        ({
            let size = generator.size() as nat;
            let rho = by_columns(density, size);
            grids::unit::<V>(1).product(driven(generator, density)(row, column)).sum(
                grids::times(rho, energy(generator), size)(row, column),
            ) == grids::times(energy(generator), rho, size)(row, column)
        }),
{
    let size = generator.size() as nat;
    let rho = by_columns(density, size);
    lemma_driven(generator, density, row, column);
    lemma_still(generator, density, row, column);
    let x = grids::times(energy(generator), rho, size)(row, column);
    let y = grids::times(rho, energy(generator), size)(row, column);
    let d = x.sum(y.product(V::minus_one_value()));
    assert(exactness::factors_regroup(grids::unit::<V>(1), grids::unit::<V>(3), d));
    assert(V::one_value().product(d) == d);
    grids::lemma_cancel(x, y);
}

/// Without jumps a matrix that commutes with the Hamiltonian stays as it is.
pub proof fn commuting_matrices_rest<V: Amplitude>(
    generator: &LindbladGenerator<V>,
    density: Seq<V>,
    row: int,
    column: int,
)
    requires
        grids::complete::<V>(),
        generator.leaps().len() == 0,
        grids::alike(
            grids::times(
                energy(generator),
                by_columns(density, generator.size() as nat),
                generator.size() as nat,
            ),
            grids::times(
                by_columns(density, generator.size() as nat),
                energy(generator),
                generator.size() as nat,
            ),
            generator.size() as nat,
        ),
        0 <= row < generator.size(),
        0 <= column < generator.size(),
    ensures
        driven(generator, density)(row, column) == V::zero_value(),
{
    let size = generator.size() as nat;
    let rho = by_columns(density, size);
    lemma_driven(generator, density, row, column);
    lemma_still(generator, density, row, column);
    let x = grids::times(energy(generator), rho, size)(row, column);
    assert(x == grids::times(rho, energy(generator), size)(row, column));
    assert(grids::cancels(x));
    assert(exactness::factors_commute(grids::unit::<V>(3), V::zero_value()));
    assert(V::zero_value().product(grids::unit::<V>(3)) == V::zero_value());
}

/// One more jump adds its dissipator: twice the change, together with the product of the
/// adjoint and the jump from both sides of the density matrix, is twice the density matrix
/// between the jump and its adjoint.
pub proof fn jumps_add_their_dissipators<V: Amplitude>(
    fewer: &LindbladGenerator<V>,
    more: &LindbladGenerator<V>,
    density: Seq<V>,
    row: int,
    column: int,
)
    requires
        grids::complete::<V>(),
        more.size() == fewer.size(),
        more.still() == fewer.still(),
        more.leaps().len() > 0,
        fewer.leaps() == more.leaps().drop_last(),
        0 <= row < fewer.size(),
        0 <= column < fewer.size(),
    ensures
        ({
            let size = fewer.size() as nat;
            let rho = by_columns(density, size);
            let jump = by_rows(more.leaps().last(), size);
            let both = grids::times(grids::adjoint(jump), jump, size);
            let gain = grids::times(
                grids::times(jump, rho, size),
                grids::adjoint(jump),
                size,
            )(row, column);
            let loss = grids::times(both, rho, size)(row, column).sum(
                grids::times(rho, both, size)(row, column),
            );
            let after = driven(more, density)(row, column);
            let before = driven(fewer, density)(row, column);
            after.sum(after).sum(loss) == before.sum(before).sum(gain.sum(gain))
        }),
{
    let size = fewer.size() as nat;
    let rho = by_columns(density, size);
    let count = more.leaps().len();
    let jump = by_rows(more.leaps().last(), size);
    let both = grids::times(grids::adjoint(jump), jump, size);
    let gain = grids::times(grids::times(jump, rho, size), grids::adjoint(jump), size)(
        row,
        column,
    );
    let loss = grids::times(both, rho, size)(row, column).sum(
        grids::times(rho, both, size)(row, column),
    );
    lemma_driven(more, density, row, column);
    lemma_driven(fewer, density, row, column);
    lemma_next(more, density, row, column, count);
    lemma_prefix(fewer, more, density, row, column, (count - 1) as nat);
    let before = driven(fewer, density)(row, column);
    let h = grids::half::<V>().product(loss);
    let n = h.product(V::minus_one_value());
    let d = gain.sum(n);
    grids::lemma_pairs(before, d, before, d);
    grids::lemma_pairs(gain, n, gain, n);
    grids::lemma_halves(loss);
    assert(exactness::distributes(h, h, V::minus_one_value()));
    assert(n.sum(n) == loss.product(V::minus_one_value()));
    grids::lemma_cancel(gain.sum(gain), loss);
    assert(exactness::regroups(before.sum(before), d.sum(d), loss));
}

proof fn lemma_prefix<V: Amplitude>(
    fewer: &LindbladGenerator<V>,
    more: &LindbladGenerator<V>,
    density: Seq<V>,
    row: int,
    column: int,
    upto: nat,
)
    requires
        more.size() == fewer.size(),
        more.still() == fewer.still(),
        more.leaps().len() > 0,
        fewer.leaps() == more.leaps().drop_last(),
        upto <= fewer.leaps().len(),
    ensures
        partly(fewer, density, row, column, upto) == partly(more, density, row, column, upto),
    decreases upto,
{
    if upto > 0 {
        lemma_prefix(fewer, more, density, row, column, (upto - 1) as nat);
        assert(fewer.leaps()[upto - 1] == more.leaps()[upto - 1]);
    }
}

/// The trace of what a jump adds.
proof fn lemma_jump_traceless<V: Amplitude>(
    jump: spec_fn(int, int) -> V,
    density: spec_fn(int, int) -> V,
    size: nat,
)
    requires
        grids::complete::<V>(),
    ensures
        exactness::total(|row: int| added(jump, density, size, row, row), size)
            == V::zero_value(),
{
    let m = V::minus_one_value();
    let h = grids::half::<V>();
    let mirrored = grids::adjoint(jump);
    let both = grids::times(mirrored, jump, size);
    let front = grids::times(jump, density, size);
    let gain = grids::times(front, mirrored, size);
    let left = grids::times(both, density, size);
    let right = grids::times(density, both, size);
    let t = grids::trace(left, size);
    grids::lemma_trace_cyclic(front, mirrored, size);
    let moved = grids::times(mirrored, front, size);
    let diagonal_left = |row: int| left(row, row);
    let diagonal_right = |row: int| right(row, row);
    let diagonal_moved = |row: int| moved(row, row);
    let diagonal_gain = |row: int| gain(row, row);
    assert forall|row: int| 0 <= row < size implies #[trigger] diagonal_moved(row)
        == diagonal_left(row) by {
        grids::lemma_times_regroup(mirrored, jump, density, size, row, row);
    }
    exactness::lemma_total_same(diagonal_moved, diagonal_left, size);
    grids::lemma_trace_cyclic(density, both, size);
    assert(exactness::total(diagonal_gain, size) == t);
    assert(exactness::total(diagonal_right, size) == t);
    let sum = |row: int| diagonal_left(row).sum(diagonal_right(row));
    composition::lemma_added(diagonal_left, diagonal_right, size);
    let halved = |row: int| sum(row).product(h);
    composition::lemma_scaled(sum, h, size);
    let turned = |row: int| halved(row).product(m);
    composition::lemma_scaled(halved, m, size);
    composition::lemma_added(diagonal_gain, turned, size);
    let all = |row: int| diagonal_gain(row).sum(turned(row));
    let whole = |row: int| added(jump, density, size, row, row);
    assert forall|row: int| 0 <= row < size implies #[trigger] whole(row) == all(row) by {
        assert(exactness::factors_commute(h, sum(row)));
    }
    exactness::lemma_total_same(whole, all, size);
    assert(exactness::factors_commute(h, t.sum(t)));
    grids::lemma_halves(t);
    assert(grids::cancels(t));
}

proof fn lemma_trace_partly<V: Amplitude>(
    generator: &LindbladGenerator<V>,
    density: Seq<V>,
    upto: nat,
)
    requires
        grids::complete::<V>(),
    ensures
        exactness::total(
            |row: int| partly(generator, density, row, row, upto),
            generator.size() as nat,
        ) == V::zero_value(),
    decreases upto,
{
    let size = generator.size() as nat;
    let rho = by_columns(density, size);
    let here = |row: int| partly(generator, density, row, row, upto);
    if upto == 0 {
        let h = energy(generator);
        let first = |row: int| grids::times(h, rho, size)(row, row);
        let second = |row: int| grids::times(rho, h, size)(row, row);
        let m = V::minus_one_value();
        let i = grids::unit::<V>(3);
        grids::lemma_trace_cyclic(h, rho, size);
        let turned = |row: int| second(row).product(m);
        composition::lemma_scaled(second, m, size);
        let both = |row: int| first(row).sum(turned(row));
        composition::lemma_added(first, turned, size);
        let scaled = |row: int| both(row).product(i);
        composition::lemma_scaled(both, i, size);
        assert forall|row: int| 0 <= row < size implies #[trigger] here(row) == scaled(row) by {
            lemma_still(generator, density, row, row);
            assert(exactness::factors_commute(i, both(row)));
        }
        exactness::lemma_total_same(here, scaled, size);
        let t = exactness::total(first, size);
        assert(t == grids::trace(grids::times(h, rho, size), size));
        assert(exactness::total(second, size) == grids::trace(grids::times(rho, h, size), size));
        assert(grids::cancels(t));
        assert(V::zero_value().product(i) == V::zero_value());
    } else {
        let shorter = (upto - 1) as nat;
        lemma_trace_partly(generator, density, shorter);
        let before = |row: int| partly(generator, density, row, row, shorter);
        let jump = leap(generator, upto - 1);
        let more = |row: int| added(jump, rho, size, row, row);
        lemma_jump_traceless(jump, rho, size);
        composition::lemma_added(before, more, size);
        let both = |row: int| before(row).sum(more(row));
        assert forall|row: int| 0 <= row < size implies #[trigger] here(row) == both(row) by {
            lemma_next(generator, density, row, row, upto);
        }
        exactness::lemma_total_same(here, both, size);
        assert(V::zero_value().sum(V::zero_value()) == V::zero_value());
    }
}

/// The trace of a density matrix does not change: the diagonal cells of its derivative sum
/// to zero for every Hamiltonian, all jumps and every matrix.
pub proof fn the_trace_is_kept<V: Amplitude>(generator: &LindbladGenerator<V>, density: Seq<V>)
    requires
        grids::complete::<V>(),
    ensures
        grids::trace(driven(generator, density), generator.size() as nat) == V::zero_value(),
{
    let size = generator.size() as nat;
    lemma_trace_partly(generator, density, generator.leaps().len());
    let first = |row: int| driven(generator, density)(row, row);
    let second = |row: int|
        partly(generator, density, row, row, generator.leaps().len());
    assert forall|row: int| 0 <= row < size implies #[trigger] first(row) == second(row) by {
        lemma_driven(generator, density, row, row);
    }
    exactness::lemma_total_same(first, second, size);
}

} // verus!
