//! Operations on combinations of named components, on corrected operators and on operators
//! between bases act as they do on the matrices themselves, for exact numbers.

use vstd::prelude::*;
use crate::action;
use crate::algebra;
use crate::composition;
use crate::corrected::QuantumLinearOperator;
use crate::exactness;
use crate::grids;
use crate::interop::OperatorAction;
use crate::linear::LinearOperator;
use crate::measurement;
use crate::model;
use crate::operator::Operator;
use crate::operator_laws;
use crate::projector::BasisProjector;
use crate::projector;
use crate::quantum::{QuantumComponent, QuantumOperator};
use crate::quantum;
use crate::scalar::Scalar;
use crate::state_laws;

verus! {

/// The adjoint of a combination has the adjoints of the components under their names, with the
/// coefficients of their own conjugated.
pub proof fn adjoints_are_taken_by_component<V: Scalar>(
    whole: &QuantumOperator<V>,
    image: &QuantumOperator<V>,
    at: int,
)
    requires
        whole.adjoint_into(image.list()),
        0 <= at < whole.list().len(),
    ensures
        image.list().len() == whole.list().len(),
        image.list()[at].title() == whole.list()[at].title(),
        algebra::is_adjoint(&whole.list()[at].matrix(), &image.list()[at].matrix()),
        image.list()[at].fallback() is Some == whole.list()[at].fallback() is Some,
        whole.list()[at].fallback() is Some ==> image.list()[at].fallback()->0
            == whole.list()[at].fallback()->0.mirror(),
{
    assert(quantum::component_changed(
        whole.list()[at],
        true,
        algebra::Change::Conjugate,
        image.list()[at],
    ));
}

/// The conjugate of a combination has the conjugates of the components under their names, with
/// the coefficients of their own conjugated.
pub proof fn conjugates_are_taken_by_component<V: Scalar>(
    whole: &QuantumOperator<V>,
    image: &QuantumOperator<V>,
    at: int,
)
    requires
        whole.conjugated_into(image.list()),
        0 <= at < whole.list().len(),
    ensures
        image.list().len() == whole.list().len(),
        image.list()[at].title() == whole.list()[at].title(),
        algebra::is_conjugate(&whole.list()[at].matrix(), &image.list()[at].matrix()),
        image.list()[at].fallback() is Some == whole.list()[at].fallback() is Some,
        whole.list()[at].fallback() is Some ==> image.list()[at].fallback()->0
            == whole.list()[at].fallback()->0.mirror(),
{
    assert(quantum::component_changed(
        whole.list()[at],
        false,
        algebra::Change::Conjugate,
        image.list()[at],
    ));
}

/// The transpose of a combination has the transposes of the components under their names.
pub proof fn transposes_are_taken_by_component<V: Scalar>(
    whole: &QuantumOperator<V>,
    image: &QuantumOperator<V>,
    at: int,
)
    requires
        whole.transposed_into(image.list()),
        0 <= at < whole.list().len(),
    ensures
        image.list().len() == whole.list().len(),
        image.list()[at].title() == whole.list()[at].title(),
        algebra::is_transpose(&whole.list()[at].matrix(), &image.list()[at].matrix()),
        image.list()[at].fallback() == whole.list()[at].fallback(),
{
    assert(quantum::component_changed(
        whole.list()[at],
        true,
        algebra::Change::Keep,
        image.list()[at],
    ));
}

/// A multiple of a combination has the multiples of the components under their names.
pub proof fn multiples_are_taken_by_component<V: Scalar>(
    whole: &QuantumOperator<V>,
    coefficient: V,
    image: &QuantumOperator<V>,
    at: int,
)
    requires
        whole.scaled_into(coefficient, image.list()),
        0 <= at < whole.list().len(),
    ensures
        image.list().len() == whole.list().len(),
        image.list()[at].title() == whole.list()[at].title(),
        algebra::is_multiple(
            &whole.list()[at].matrix(),
            coefficient,
            &image.list()[at].matrix(),
        ),
        image.list()[at].fallback() == whole.list()[at].fallback(),
{
    assert(quantum::component_changed(
        whole.list()[at],
        false,
        algebra::Change::Scale(coefficient),
        image.list()[at],
    ));
}

/// Two components of one name merge to the sum of their matrices.
pub proof fn merged_components_add<V: Scalar>(
    left: QuantumComponent<V>,
    right: QuantumComponent<V>,
    sum: QuantumComponent<V>,
    input: Seq<V>,
    row: int,
)
    requires
        grids::faithful::<V>(),
        left.matrix().wf(),
        right.matrix().wf(),
        left.matrix().shape == right.matrix().shape,
        quantum::merged(left, right, sum),
        0 <= row < left.matrix().rows(),
    ensures
        sum.title() == left.title(),
        sum.matrix().image(input)[row] == left.matrix().image(input)[row].sum(
            right.matrix().image(input)[row],
        ),
{
    composition::sums_act(
        &left.matrix(),
        &right.matrix(),
        V::one_value(),
        &sum.matrix(),
        input,
        row,
    );
    let b = right.matrix().image(input)[row];
    assert(V::one_value().product(b) == b);
}

/// A corrected operator and its transpose pair a vector with another alike.
pub proof fn corrected_transposes_pair<V: Scalar>(
    whole: &QuantumLinearOperator<V>,
    left: Seq<V>,
    right: Seq<V>,
)
    requires
        exactness::exact::<V>(),
        whole.wf(),
    ensures
        operator_laws::paired(left, whole.maps(right)->0, whole.matrix().rows() as nat)
            == operator_laws::paired(
            whole.maps_back(left)->0,
            right,
            whole.matrix().rows() as nat,
        ),
{
    let matrix = whole.matrix();
    let size = matrix.rows() as nat;
    let d = whole.correction();
    composition::transposes_pair(&matrix, left, right);
    let a = |row: int| left[row].product(matrix.image(right)[row]);
    let b = |column: int| matrix.transposed_image(left)[column].product(right[column]);
    let extra = |i: int| left[i].product(d[i].product(right[i]));
    composition::lemma_added(a, extra, size);
    composition::lemma_added(b, extra, size);
    let first = |i: int| a(i).sum(extra(i));
    let second = |i: int| b(i).sum(extra(i));
    let one = |i: int| left[i].product(whole.maps(right)->0[i]);
    let two = |i: int| whole.maps_back(left)->0[i].product(right[i]);
    assert forall|i: int| 0 <= i < size implies #[trigger] one(i) == first(i) by {
        let x = matrix.image(right)[i];
        let y = d[i].product(right[i]);
        assert(exactness::factors_commute(left[i], x.sum(y)));
        assert(exactness::distributes(x, y, left[i]));
        assert(exactness::factors_commute(x, left[i]));
        assert(exactness::factors_commute(y, left[i]));
    }
    exactness::lemma_total_same(one, first, size);
    assert forall|i: int| 0 <= i < size implies #[trigger] two(i) == second(i) by {
        let x = matrix.transposed_image(left)[i];
        let y = d[i].product(left[i]);
        assert(exactness::distributes(x, y, right[i]));
        assert(exactness::factors_commute(d[i], left[i]));
        assert(exactness::factors_regroup(left[i], d[i], right[i]));
    }
    exactness::lemma_total_same(two, second, size);
}

/// A column of an operator that is projected into the reduced space measures lifted states: its
/// inner product with a state of the reduced space is the matrix element of the operator between
/// the two lifted states.
pub proof fn projected_operators_measure_lifted_states<V: Scalar, O: LinearOperator<V>>(
    map: &O,
    projector: &BasisProjector<V>,
    column: int,
    image: Seq<V>,
    state: Seq<V>,
)
    requires
        grids::faithful::<V>(),
        projector.wf(),
        !measurement::lifts(map, projector),
        measurement::column_projected(map, projector, column, image),
    ensures
        ({
            let start = projector.lift(projector::unit(projector.columns() as nat, column));
            &&& map.maps(start) is Some
            &&& operator_laws::bracketed(state, image, projector.columns() as nat)
                == operator_laws::bracketed(
                projector.lift(state),
                map.maps(start)->0,
                projector.rows() as nat,
            )
        }),
{
    let start = projector.lift(projector::unit(projector.columns() as nat, column));
    state_laws::projections_are_adjoint_to_lifts(projector, state, map.maps(start)->0);
}

/// A column of an operator that is lifted into the parent space measures projected states.
pub proof fn lifted_operators_measure_projected_states<V: Scalar, O: LinearOperator<V>>(
    map: &O,
    projector: &BasisProjector<V>,
    column: int,
    image: Seq<V>,
    state: Seq<V>,
)
    requires
        grids::faithful::<V>(),
        projector.wf(),
        measurement::lifts(map, projector),
        measurement::column_projected(map, projector, column, image),
    ensures
        ({
            let start = projector.projection(
                projector::unit(projector.rows() as nat, column),
            );
            &&& map.maps(start) is Some
            &&& operator_laws::bracketed(image, state, projector.rows() as nat)
                == operator_laws::bracketed(
                map.maps(start)->0,
                projector.projection(state),
                projector.columns() as nat,
            )
        }),
{
    let start = projector.projection(projector::unit(projector.rows() as nat, column));
    state_laws::projections_are_adjoint_to_lifts(projector, map.maps(start)->0, state);
}

/// The views of an operator are what their names say: the transposed view pairs vectors as the
/// operator does from the other side, the adjoint view does so for inner products, and the
/// conjugated view maps conjugates to conjugates.
pub proof fn views_pair_as_named<V: Scalar>(
    matrix: &Operator<V>,
    left: Seq<V>,
    right: Seq<V>,
    row: int,
)
    requires
        grids::faithful::<V>(),
        matrix.wf(),
        left.len() == matrix.rows(),
        right.len() == matrix.columns(),
        0 <= row < matrix.rows(),
    ensures
        operator_laws::paired(
            left,
            model::acted(matrix, OperatorAction::Normal, right),
            matrix.rows() as nat,
        ) == operator_laws::paired(
            model::acted(matrix, OperatorAction::Transpose, left),
            right,
            matrix.columns() as nat,
        ),
        operator_laws::bracketed(
            left,
            model::acted(matrix, OperatorAction::Normal, right),
            matrix.rows() as nat,
        ) == operator_laws::bracketed(
            model::acted(matrix, OperatorAction::Adjoint, left),
            right,
            matrix.columns() as nat,
        ),
        model::acted(matrix, OperatorAction::Conjugate, action::mirrored(right))[row]
            == model::acted(matrix, OperatorAction::Normal, right)[row].mirror(),
        model::acted(matrix, OperatorAction::Normal, right)[row] == exactness::total(
            |column: int| matrix.entry(row, column).product(right[column]),
            matrix.columns() as nat,
        ),
{
    exactness::rows_sum_up(matrix, row, right);
    let terms = exactness::row_terms(matrix, row, right);
    let plain = |column: int| matrix.entry(row, column).product(right[column]);
    assert forall|c: int| 0 <= c < matrix.columns() implies #[trigger] terms(c) == plain(c) by {}
    exactness::lemma_total_same(terms, plain, matrix.columns() as nat);
    composition::transposes_pair(matrix, left, right);
    let one = |i: int| left[i].product(matrix.image(right)[i]);
    let two = |r: int| left[r].product(matrix.image(right)[r]);
    assert forall|i: int| 0 <= i < matrix.rows() implies #[trigger] one(i) == two(i) by {}
    exactness::lemma_total_same(one, two, matrix.rows() as nat);
    let three = |i: int| matrix.transposed_image(left)[i].product(right[i]);
    let four = |c: int| matrix.transposed_image(left)[c].product(right[c]);
    assert forall|i: int| 0 <= i < matrix.columns() implies #[trigger] three(i) == four(i) by {}
    exactness::lemma_total_same(three, four, matrix.columns() as nat);
    operator_laws::adjoint_actions_move_to_the_other_side(matrix, left, right);
    let twice = action::mirrored(action::mirrored(right));
    assert forall|i: int| 0 <= i < right.len() implies twice[i] == right[i] by {
        assert(right[i].mirror().mirror() == right[i]);
    }
    assert(twice =~= right);
}

/// Numbers are near each other only where they are equal.
pub open spec fn discerns<V: Scalar>(tolerance: V::Tolerance) -> bool {
    forall|a: V, b: V| #[trigger] a.near(b, tolerance) ==> a == b
}

/// A matrix that is found Hermitian moves to the other side of an inner product unchanged.
pub proof fn hermitian_matrices_move_unchanged<V: Scalar>(
    matrix: &Operator<V>,
    tolerance: V::Tolerance,
    left: Seq<V>,
    right: Seq<V>,
)
    requires
        grids::faithful::<V>(),
        discerns::<V>(tolerance),
        matrix.wf(),
        matrix.hermitian(tolerance),
    ensures
        operator_laws::bracketed(left, matrix.image(right), matrix.rows() as nat)
            == operator_laws::bracketed(matrix.image(left), right, matrix.rows() as nat),
{
    assert forall|row: int, column: int| matrix.inside(row, column) implies
        #[trigger] matrix.entry(row, column) == algebra::changed(
        algebra::Change::Conjugate,
        matrix.entry(column, row),
    ) by {
        let a = matrix.entry(row, column);
        let b = matrix.entry(column, row);
        assert(matrix.inside(column, row));
        if matrix.compared(row, column) {
            assert(a.near(b.mirror(), tolerance));
        } else if matrix.compared(column, row) {
            assert(b.near(a.mirror(), tolerance));
            assert(a.mirror().mirror() == a);
        }
    }
    assert(algebra::is_adjoint(matrix, matrix)) by {
        assert forall|row: int, column: int| matrix.inside(row, column) implies
            #[trigger] matrix.entry(row, column) == crate::operator::settled(
            matrix.format,
            algebra::rewritten(algebra::Change::Conjugate, matrix.entry(column, row)),
        ) by {
            operator_laws::lemma_rewritten(
                matrix.format,
                algebra::Change::Conjugate,
                matrix.entry(column, row),
            );
        }
    }
    operator_laws::adjoints_move_to_the_other_side(matrix, matrix, left, right);
}

} // verus!
