//! What maps between bases, measurements and the flow of density matrices mean, for exact
//! numbers.

use vstd::prelude::*;
use crate::action;
use crate::dynamics;
use crate::exactness;
use crate::folds;
use crate::grids;
use crate::lindblad_laws;
use crate::linear::LinearOperator;
use crate::measurement;
use crate::observables;
use crate::operator::Operator;
use crate::operator_laws;
use crate::projector::BasisProjector;
use crate::projector;
use crate::reduction_laws;
use crate::scalar::{Amplitude, Normed, Scalar};
use crate::solve;
use crate::triplets::Triplet;
use crate::triplets;

verus! {

/// Adding to one value adds to the sum.
proof fn lemma_total_added<V: Scalar>(
    before: spec_fn(int) -> V,
    after: spec_fn(int) -> V,
    at: int,
    more: V,
    upto: nat,
)
    requires
        exactness::exact::<V>(),
        0 <= at < upto,
        after(at) == before(at).sum(more),
        forall|i: int| 0 <= i < upto && i != at ==> #[trigger] after(i) == before(i),
    ensures
        exactness::total(after, upto) == exactness::total(before, upto).sum(more),
    decreases upto,
{
    let shorter = (upto - 1) as nat;
    let rest = exactness::total(before, shorter);
    if at == upto - 1 {
        exactness::lemma_total_same(after, before, shorter);
        assert(exactness::regroups(rest, before(at), more));
    } else {
        lemma_total_added(before, after, at, more, shorter);
        let last = before(upto - 1);
        assert(after(upto - 1) == last);
        assert(exactness::regroups(rest, more, last));
        assert(exactness::commutes(more, last));
        assert(exactness::regroups(rest, last, more));
    }
}

/// What an entry of a projector adds to a component of a lifted state.
pub open spec fn lifted_terms<V: Scalar>(
    entries: Seq<Triplet<V>>,
    row: int,
    reduced: Seq<V>,
) -> spec_fn(int) -> V {
    |k: int|
        if entries[k].row == row {
            entries[k].value.product(reduced[entries[k].column as int])
        } else {
            V::zero_value()
        }
}

proof fn lemma_lifted<V: Scalar>(entries: Seq<Triplet<V>>, row: int, reduced: Seq<V>)
    requires
        exactness::exact::<V>(),
    ensures
        folds::line_fold(entries, row, false, action::action_term(reduced)) == exactness::total(
            lifted_terms(entries, row, reduced),
            entries.len(),
        ),
    decreases entries.len(),
{
    if entries.len() > 0 {
        let front = entries.drop_last();
        lemma_lifted(front, row, reduced);
        let one = lifted_terms(front, row, reduced);
        let two = lifted_terms(entries, row, reduced);
        assert forall|k: int| 0 <= k < front.len() implies #[trigger] one(k) == two(k) by {}
        exactness::lemma_total_same(one, two, front.len());
        let sum = exactness::total(one, front.len());
        assert(exactness::commutes(sum, V::zero_value()));
        assert(V::zero_value().sum(sum) == sum);
    }
}

/// A component of a lifted state is the sum, over the entries of its row, of the entry times
/// the component of the reduced state in the column of the entry.
pub proof fn lifted_states_sum_over_entries<V: Scalar>(
    projector: &BasisProjector<V>,
    reduced: Seq<V>,
    row: int,
)
    requires
        exactness::exact::<V>(),
        0 <= row < projector.rows(),
    ensures
        projector.lift(reduced)[row] == exactness::total(
            lifted_terms(projector.entries(), row, reduced),
            projector.entries().len(),
        ),
{
    lemma_lifted(projector.entries(), row, reduced);
}

spec fn lifted_side<V: Scalar>(
    entries: Seq<Triplet<V>>,
    reduced: Seq<V>,
    parent: Seq<V>,
) -> spec_fn(int) -> V {
    |row: int|
        folds::line_fold(entries, row, false, action::action_term(reduced)).mirror().product(
            parent[row],
        )
}

spec fn projected_side<V: Scalar>(
    entries: Seq<Triplet<V>>,
    reduced: Seq<V>,
    parent: Seq<V>,
) -> spec_fn(int) -> V {
    |column: int|
        reduced[column].mirror().product(
            folds::line_fold(
                entries,
                column,
                true,
                |row: int, value: V| Some(value.mirror().product(parent[row])),
            ),
        )
}

proof fn lemma_sides<V: Scalar>(
    entries: Seq<Triplet<V>>,
    reduced: Seq<V>,
    parent: Seq<V>,
    rows: nat,
    columns: nat,
)
    requires
        grids::faithful::<V>(),
        triplets::fits(entries, rows as int, columns as int),
    ensures
        exactness::total(lifted_side(entries, reduced, parent), rows) == exactness::total(
            projected_side(entries, reduced, parent),
            columns,
        ),
    decreases entries.len(),
{
    let z = V::zero_value();
    let left = lifted_side(entries, reduced, parent);
    let right = projected_side(entries, reduced, parent);
    if entries.len() == 0 {
        assert forall|row: int| 0 <= row < rows implies #[trigger] left(row) == z by {
            assert(z.product(parent[row]) == z);
        }
        exactness::lemma_total_zero(left, rows);
        assert forall|c: int| 0 <= c < columns implies #[trigger] right(c) == z by {
            assert(exactness::factors_commute(reduced[c].mirror(), z));
            assert(z.product(reduced[c].mirror()) == z);
        }
        exactness::lemma_total_zero(right, columns);
    } else {
        let front = entries.drop_last();
        let last = entries.last();
        assert(triplets::fits(front, rows as int, columns as int)) by {
            assert forall|i: int| 0 <= i < front.len() implies (#[trigger] front[i]).row < rows
                && front[i].column < columns by {
                assert(front[i] == entries[i]);
            }
        }
        lemma_sides(front, reduced, parent, rows, columns);
        assert(entries[entries.len() - 1] == last);
        let i = last.row as int;
        let j = last.column as int;
        let v = last.value;
        let r = reduced[j].mirror();
        let p = parent[i];
        let more = r.product(v.mirror().product(p));
        let left_before = lifted_side(front, reduced, parent);
        let right_before = projected_side(front, reduced, parent);
        let old_left = folds::line_fold(front, i, false, action::action_term(reduced));
        let old_right = folds::line_fold(
            front,
            j,
            true,
            |row: int, value: V| Some(value.mirror().product(parent[row])),
        );
        assert(left(i) == left_before(i).sum(more)) by {
            assert(grids::mirrors_sum(old_left, v.product(reduced[j])));
            assert(grids::mirrors_product(v, reduced[j]));
            assert(exactness::distributes(old_left.mirror(), v.mirror().product(r), p));
            assert(exactness::factors_commute(v.mirror(), r));
            assert(exactness::factors_regroup(r, v.mirror(), p));
        }
        lemma_total_added(left_before, left, i, more, rows);
        assert(right(j) == right_before(j).sum(more)) by {
            let q = v.mirror().product(p);
            assert(exactness::factors_commute(r, old_right.sum(q)));
            assert(exactness::distributes(old_right, q, r));
            assert(exactness::factors_commute(r, old_right));
            assert(exactness::factors_commute(r, q));
        }
        lemma_total_added(right_before, right, j, more, columns);
    }
}

/// The inner product of a lifted state with a state of the parent basis is that of the state of
/// the reduced basis with the projected one.
pub proof fn projections_are_adjoint_to_lifts<V: Scalar>(
    projector: &BasisProjector<V>,
    reduced: Seq<V>,
    parent: Seq<V>,
)
    requires
        grids::faithful::<V>(),
        projector.wf(),
    ensures
        operator_laws::bracketed(projector.lift(reduced), parent, projector.rows() as nat)
            == operator_laws::bracketed(
            reduced,
            projector.projection(parent),
            projector.columns() as nat,
        ),
{
    let rows = projector.rows() as nat;
    let columns = projector.columns() as nat;
    lemma_sides(projector.entries(), reduced, parent, rows, columns);
    let one = lifted_side(projector.entries(), reduced, parent);
    let two = |i: int| projector.lift(reduced)[i].mirror().product(parent[i]);
    assert forall|i: int| 0 <= i < rows implies #[trigger] one(i) == two(i) by {}
    exactness::lemma_total_same(one, two, rows);
    let three = projected_side(projector.entries(), reduced, parent);
    let four = |i: int| reduced[i].mirror().product(projector.projection(parent)[i]);
    assert forall|i: int| 0 <= i < columns implies #[trigger] three(i) == four(i) by {}
    exactness::lemma_total_same(three, four, columns);
}

/// The transpose of a projector moves to the other side of a pairing as the projector.
pub proof fn projector_transposes_move_to_the_other_side<V: Scalar>(
    projector: &BasisProjector<V>,
    reduced: Seq<V>,
    parent: Seq<V>,
)
    requires
        grids::faithful::<V>(),
        projector.wf(),
        reduced.len() == projector.columns(),
    ensures
        operator_laws::paired(
            projector.lift(reduced),
            parent,
            projector.rows() as nat,
        ) == operator_laws::paired(
            reduced,
            projector.transposed(parent),
            projector.columns() as nat,
        ),
{
    let rows = projector.rows() as nat;
    let columns = projector.columns() as nat;
    lemma_plain_sides(projector.entries(), reduced, parent, rows, columns);
    let one = plain_left(projector.entries(), reduced, parent);
    let two = |i: int| projector.lift(reduced)[i].product(parent[i]);
    assert forall|i: int| 0 <= i < rows implies #[trigger] one(i) == two(i) by {}
    exactness::lemma_total_same(one, two, rows);
    let three = plain_right(projector.entries(), reduced, parent);
    let four = |i: int| reduced[i].product(projector.transposed(parent)[i]);
    assert forall|i: int| 0 <= i < columns implies #[trigger] three(i) == four(i) by {}
    exactness::lemma_total_same(three, four, columns);
}

spec fn plain_left<V: Scalar>(
    entries: Seq<Triplet<V>>,
    reduced: Seq<V>,
    parent: Seq<V>,
) -> spec_fn(int) -> V {
    |row: int|
        folds::line_fold(entries, row, false, action::action_term(reduced)).product(parent[row])
}

spec fn plain_right<V: Scalar>(
    entries: Seq<Triplet<V>>,
    reduced: Seq<V>,
    parent: Seq<V>,
) -> spec_fn(int) -> V {
    |column: int|
        reduced[column].product(
            folds::line_fold(entries, column, true, action::action_term(parent)),
        )
}

proof fn lemma_plain_sides<V: Scalar>(
    entries: Seq<Triplet<V>>,
    reduced: Seq<V>,
    parent: Seq<V>,
    rows: nat,
    columns: nat,
)
    requires
        grids::faithful::<V>(),
        triplets::fits(entries, rows as int, columns as int),
    ensures
        exactness::total(plain_left(entries, reduced, parent), rows) == exactness::total(
            plain_right(entries, reduced, parent),
            columns,
        ),
    decreases entries.len(),
{
    let z = V::zero_value();
    let left = plain_left(entries, reduced, parent);
    let right = plain_right(entries, reduced, parent);
    if entries.len() == 0 {
        assert forall|row: int| 0 <= row < rows implies #[trigger] left(row) == z by {
            assert(z.product(parent[row]) == z);
        }
        exactness::lemma_total_zero(left, rows);
        assert forall|c: int| 0 <= c < columns implies #[trigger] right(c) == z by {
            assert(exactness::factors_commute(reduced[c], z));
            assert(z.product(reduced[c]) == z);
        }
        exactness::lemma_total_zero(right, columns);
    } else {
        let front = entries.drop_last();
        let last = entries.last();
        assert(triplets::fits(front, rows as int, columns as int)) by {
            assert forall|i: int| 0 <= i < front.len() implies (#[trigger] front[i]).row < rows
                && front[i].column < columns by {
                assert(front[i] == entries[i]);
            }
        }
        lemma_plain_sides(front, reduced, parent, rows, columns);
        assert(entries[entries.len() - 1] == last);
        let i = last.row as int;
        let j = last.column as int;
        let v = last.value;
        let r = reduced[j];
        let p = parent[i];
        let more = r.product(v.product(p));
        let left_before = plain_left(front, reduced, parent);
        let right_before = plain_right(front, reduced, parent);
        let old_left = folds::line_fold(front, i, false, action::action_term(reduced));
        let old_right = folds::line_fold(front, j, true, action::action_term(parent));
        assert(left(i) == left_before(i).sum(more)) by {
            assert(exactness::distributes(old_left, v.product(r), p));
            assert(exactness::factors_commute(v, r));
            assert(exactness::factors_regroup(r, v, p));
        }
        lemma_total_added(left_before, left, i, more, rows);
        assert(right(j) == right_before(j).sum(more)) by {
            let q = v.product(p);
            assert(exactness::factors_commute(r, old_right.sum(q)));
            assert(exactness::distributes(old_right, q, r));
            assert(exactness::factors_commute(r, old_right));
            assert(exactness::factors_commute(r, q));
        }
        lemma_total_added(right_before, right, j, more, columns);
    }
}

/// What leaves the reduced space, together with what stays in it, is the image.
pub proof fn leaks_and_remainders_add_up<V: Scalar, O: LinearOperator<V>>(
    projector: &BasisProjector<V>,
    map: &O,
    column: int,
    row: int,
)
    requires
        grids::faithful::<V>(),
        projector.carried(map, column) is Some,
        projector.carried(map, column)->0.len() == projector.rows(),
        0 <= row < projector.rows(),
    ensures
        ({
            let image = map.maps(
                projector.lift(projector::unit(projector.columns() as nat, column)),
            )->0;
            projector.leak(map, column)[row].sum(
                projector.lift(projector.projection(image))[row],
            ) == image[row]
        }),
{
    let image = projector.carried(map, column)->0;
    grids::lemma_cancel(image[row], projector.lift(projector.projection(image))[row]);
}

/// A linear combination of vectors adds every vector times its own coefficient.
pub proof fn combinations_weigh_their_own_vectors<V: Scalar>(
    basis: Seq<Vec<V>>,
    coefficients: Seq<V>,
    at: int,
    upto: nat,
)
    ensures
        solve::blended_component(basis, coefficients, at, upto) == exactness::total(
            |k: int| coefficients[k].product(basis[k]@[at]),
            upto,
        ),
    decreases upto,
{
    if upto > 0 {
        combinations_weigh_their_own_vectors(basis, coefficients, at, (upto - 1) as nat);
    }
}

/// The cells of the matrix are those of a Hermitian matrix.
pub open spec fn hermitian<V: Scalar>(matrix: &Operator<V>) -> bool {
    forall|row: int, column: int|
        matrix.inside(row, column) ==> #[trigger] matrix.entry(row, column) == matrix.entry(
            column,
            row,
        ).mirror()
}

/// The flow of a density matrix under a Hermitian matrix follows the commutator: the imaginary
/// unit times a cell of it, together with the cell of the density matrix times the Hamiltonian,
/// is the cell of the Hamiltonian times the density matrix.
pub proof fn flows_follow_the_commutator<V: Amplitude>(
    matrix: &Operator<V>,
    density: Seq<V>,
    row: int,
    column: int,
)
    requires
        grids::complete::<V>(),
        matrix.wf(),
        matrix.shape.0 == matrix.shape.1,
        hermitian(matrix),
        matrix.inside(row, column),
    ensures
        ({
            let size = matrix.rows() as nat;
            let rho = lindblad_laws::by_rows(density, size);
            grids::unit::<V>(1).product(
                dynamics::flow_cell(matrix, density, size as int, row, column),
            ).sum(grids::times(rho, operator_laws::cells(matrix), size)(row, column))
                == grids::times(operator_laws::cells(matrix), rho, size)(row, column)
        }),
{
    let size = matrix.rows() as nat;
    let n = size as int;
    let rho = lindblad_laws::by_rows(density, size);
    let h = operator_laws::cells(matrix);
    let column_input = dynamics::column_of(density, n, column);
    let row_input = dynamics::mirrored_row(density, n, row);
    exactness::rows_sum_up(matrix, row, column_input);
    exactness::rows_sum_up(matrix, column, row_input);
    let x = grids::times(h, rho, size)(row, column);
    let y = grids::times(rho, h, size)(row, column);
    let first = exactness::row_terms(matrix, row, column_input);
    let line = grids::line(h, rho, row, column);
    assert forall|m: int| 0 <= m < size implies #[trigger] first(m) == line(m) by {}
    exactness::lemma_total_same(first, line, size);
    let second = exactness::row_terms(matrix, column, row_input);
    operator_laws::lemma_mirrored_total(second, size);
    let turned = |m: int| second(m).mirror();
    let other = grids::line(rho, h, row, column);
    assert forall|m: int| 0 <= m < size implies #[trigger] turned(m) == other(m) by {
        let e = matrix.entry(column, m);
        let d = rho(row, m);
        assert(row_input[m] == d.mirror());
        assert(grids::mirrors_product(e, d.mirror()));
        assert(d.mirror().mirror() == d);
        assert(matrix.inside(m, column));
        assert(matrix.entry(m, column) == e.mirror());
        assert(exactness::factors_commute(e.mirror(), d));
    }
    exactness::lemma_total_same(turned, other, size);
    let d = x.sum(y.product(V::minus_one_value()));
    assert(exactness::factors_regroup(grids::unit::<V>(1), grids::unit::<V>(3), d));
    assert(V::one_value().product(d) == d);
    grids::lemma_cancel(x, y);
    assert(matrix.maps(column_input) == Some(matrix.image(column_input)));
    assert(matrix.maps(row_input) == Some(matrix.image(row_input)));
}

/// The places in a window are those of the energies that lie in it, in increasing order.
pub proof fn windows_hold_exactly_their_energies<V: Normed>(
    energies: Seq<V::Magnitude>,
    center: V::Magnitude,
    half_width: V::Magnitude,
    upto: nat,
    place: usize,
)
    requires
        upto <= energies.len(),
        upto <= usize::MAX,
    ensures
        measurement::window_places::<V>(energies, center, half_width, upto).contains(place)
            <==> place < upto && measurement::in_window::<V>(
            energies[place as int],
            center,
            half_width,
        ),
        forall|i: int, j: int|
            0 <= i < j < measurement::window_places::<V>(
                energies,
                center,
                half_width,
                upto,
            ).len() ==> measurement::window_places::<V>(energies, center, half_width, upto)[i]
                < measurement::window_places::<V>(energies, center, half_width, upto)[j],
        forall|i: int|
            0 <= i < measurement::window_places::<V>(energies, center, half_width, upto).len()
                ==> #[trigger] measurement::window_places::<V>(
                energies,
                center,
                half_width,
                upto,
            )[i] < upto,
    decreases upto,
{
    if upto > 0 {
        let shorter = (upto - 1) as nat;
        windows_hold_exactly_their_energies::<V>(energies, center, half_width, shorter, place);
        let front = measurement::window_places::<V>(energies, center, half_width, shorter);
        let list = measurement::window_places::<V>(energies, center, half_width, upto);
        let last = shorter as usize;
        if measurement::in_window::<V>(energies[shorter as int], center, half_width) {
            assert(list[list.len() - 1] == last);
            if front.contains(place) {
                let i = choose|i: int| 0 <= i < front.len() && front[i] == place;
                assert(list[i] == place);
            }
            if list.contains(place) {
                let i = choose|i: int| 0 <= i < list.len() && list[i] == place;
                if i < front.len() {
                    assert(front[i] == place);
                }
            }
        }
    }
}

/// Magnitudes are compared and added as the levels that they stand for.
pub open spec fn levelled<V: Normed>(
    level: spec_fn(V::Magnitude) -> int,
    first: V::Magnitude,
    second: V::Magnitude,
) -> bool {
    &&& V::at_most(first, second) <==> level(first) <= level(second)
    &&& level(V::joined(first, second)) == level(first) + level(second)
}

/// An energy lies in a window where its distance from the center is at most half the width.
pub proof fn windows_are_centered<V: Normed>(
    level: spec_fn(V::Magnitude) -> int,
    energy: V::Magnitude,
    center: V::Magnitude,
    half_width: V::Magnitude,
)
    requires
        forall|a: V::Magnitude, b: V::Magnitude| #[trigger] levelled::<V>(level, a, b),
    ensures
        measurement::in_window::<V>(energy, center, half_width) <==> -level(half_width) <= level(
            energy,
        ) - level(center) <= level(half_width),
{
    assert(levelled::<V>(level, center, half_width));
    assert(levelled::<V>(level, energy, half_width));
    assert(levelled::<V>(level, energy, V::joined(center, half_width)));
    assert(levelled::<V>(level, center, V::joined(energy, half_width)));
}

/// Magnitudes divide and subtract as numbers.
pub open spec fn compares<V: Normed>(
    value: spec_fn(V::Magnitude) -> V,
    first: V::Magnitude,
    second: V::Magnitude,
    total: V::Magnitude,
) -> bool {
    &&& value(V::portion(first, total)).product(value(total)) == value(first)
    &&& value(V::surplus(V::portion(first, total), second)).sum(value(second)) == value(
        V::portion(first, total),
    )
}

/// The variance, together with the squared magnitude of the expectation value over the squared
/// length of the state, is the squared length of the image over that of the state.
pub proof fn variances_complete_expectations<V: Normed>(
    value: spec_fn(V::Magnitude) -> V,
    state: Seq<V>,
    image: Seq<V>,
)
    requires
        reduction_laws::measures::<V>(value),
        reduction_laws::length_squared(state) != V::zero_value(),
        compares(
            value,
            measurement::norm_total(image, image.len()),
            measurement::inner_product(state, image, state.len()).ratio(
                measurement::norm_total(state, state.len()),
            ).squared(),
            measurement::norm_total(state, state.len()),
        ),
    ensures
        ({
            let norm = reduction_laws::length_squared(state);
            let mean = measurement::inner_product(state, image, state.len()).ratio(
                measurement::norm_total(state, state.len()),
            );
            &&& mean.product(norm) == operator_laws::bracketed(state, image, state.len())
            &&& value(observables::variance(state, image)).sum(
                mean.product(mean.mirror()),
            ).product(norm) == reduction_laws::length_squared(image)
        }),
{
    let total = measurement::norm_total(state, state.len());
    reduction_laws::lemma_norm(value, state, state.len());
    reduction_laws::lemma_norm(value, image, image.len());
    let product = measurement::inner_product(state, image, state.len());
    operator_laws::lemma_inner(state, image, state.len());
    reduction_laws::lemma_ratio(value, product, total);
    let mean = product.ratio(total);
    assert(value(mean.squared()) == mean.product(mean.mirror()));
}

} // verus!
