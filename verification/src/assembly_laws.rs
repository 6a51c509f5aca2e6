//! Assembled matrices hold the matrix elements of their terms, for exact numbers.

use vstd::prelude::*;
use crate::assembly::OperatorBuilder;
use crate::assembly;
use crate::basis::Basis;
use crate::exactness;
use crate::grids;
use crate::local::Factor;
use crate::operator::{MatrixFormat, Operator};
use crate::operator_laws;
use crate::product_laws;
use crate::projector;
use crate::scalar::{Amplitude, Scalar};
use crate::terms::OperatorTerm;
use crate::terms;
use crate::triplets::Triplet;
use crate::triplets;
use crate::weights;

verus! {

/// The part of the outcomes that arrives in a row: each with its weight and the factor of its
/// reduction.
pub open spec fn arriving<B: Basis, V: Amplitude>(
    target: &B,
    list: Seq<(B::State, Seq<Factor>)>,
    source_orbit: usize,
    row: int,
) -> V {
    exactness::total(
        |i: int|
            match target.landing(list[i].0, source_orbit) {
                Some(landing) => if landing.index == row {
                    weights::weight::<V>(list[i].1).product(V::of_reduction(landing.reduction))
                } else {
                    V::zero_value()
                },
                None => V::zero_value(),
            },
        list.len(),
    )
}

/// What a coupling of a term contributes to a cell: its coefficient times what the product on
/// its sites makes of the state of the column, as it arrives in the row.
pub open spec fn share<S: Basis, T: Basis<State = S::State>, V: Amplitude>(
    source: &S,
    target: &T,
    term: OperatorTerm<V>,
    coupling: int,
    row: int,
    column: int,
) -> V {
    let state = source.listed()[column];
    term.terms()[coupling].coefficient.product(
        arriving::<T, V>(
            target,
            source.action(
                state,
                terms::letters(term.factors().operators()),
                term.factors().boundary(),
                term.terms()[coupling].sites@,
            )->Ok_0,
            source.orbit_weight(state) as usize,
            row,
        ),
    )
}

/// What all couplings of a term contribute to a cell.
pub open spec fn term_share<S: Basis, T: Basis<State = S::State>, V: Amplitude>(
    source: &S,
    target: &T,
    term: OperatorTerm<V>,
    row: int,
    column: int,
) -> V {
    exactness::total(
        |c: int| share(source, target, term, c, row, column),
        term.terms().len(),
    )
}

proof fn lemma_summed_concat<V: Scalar>(first: Seq<V>, second: Seq<V>)
    requires
        exactness::exact::<V>(),
    ensures
        triplets::summed(first + second) == triplets::summed(first).sum(
            triplets::summed(second),
        ),
    decreases second.len(),
{
    let a = triplets::summed(first);
    if second.len() == 0 {
        assert(first + second =~= first);
        assert(exactness::commutes(a, V::zero_value()));
        assert(V::zero_value().sum(a) == a);
    } else {
        lemma_summed_concat(first, second.drop_last());
        assert((first + second).drop_last() =~= first + second.drop_last());
        assert((first + second).last() == second.last());
        assert(exactness::regroups(a, triplets::summed(second.drop_last()), second.last()));
    }
}

pub proof fn lemma_cell_concat<V: Scalar>(
    first: Seq<Triplet<V>>,
    second: Seq<Triplet<V>>,
    row: int,
    column: int,
)
    requires
        exactness::exact::<V>(),
    ensures
        triplets::cell_sum(first + second, row, column) == triplets::cell_sum(
            first,
            row,
            column,
        ).sum(triplets::cell_sum(second, row, column)),
{
    triplets::lemma_values_concat(first, second, row, column);
    lemma_summed_concat(
        triplets::values_at(first, row, column),
        triplets::values_at(second, row, column),
    );
}

pub proof fn lemma_outcomes<B: Basis, V: Amplitude>(
    target: &B,
    list: Seq<(B::State, Seq<Factor>)>,
    source_orbit: usize,
    at: usize,
    coefficient: V,
    row: int,
    column: int,
)
    requires
        exactness::exact::<V>(),
    ensures
        triplets::cell_sum(
            assembly::outcome_entries(target, list, source_orbit, at, coefficient),
            row,
            column,
        ) == (if column == at {
            coefficient.product(arriving::<B, V>(target, list, source_orbit, row))
        } else {
            V::zero_value()
        }),
    decreases list.len(),
{
    let z = V::zero_value();
    if list.len() == 0 {
        assert(exactness::factors_commute(coefficient, z));
        assert(z.product(coefficient) == z);
    } else {
        let front = list.drop_last();
        lemma_outcomes(target, front, source_orbit, at, coefficient, row, column);
        let before = assembly::outcome_entries(target, front, source_orbit, at, coefficient);
        let after = assembly::outcome_entries(target, list, source_orbit, at, coefficient);
        let (state, factors) = list.last();
        let one = |i: int|
            match target.landing(front[i].0, source_orbit) {
                Some(landing) => if landing.index == row {
                    weights::weight::<V>(front[i].1).product(
                        V::of_reduction(landing.reduction),
                    )
                } else {
                    V::zero_value()
                },
                None => V::zero_value(),
            };
        let two = |i: int|
            match target.landing(list[i].0, source_orbit) {
                Some(landing) => if landing.index == row {
                    weights::weight::<V>(list[i].1).product(V::of_reduction(landing.reduction))
                } else {
                    V::zero_value()
                },
                None => V::zero_value(),
            };
        exactness::lemma_total_same(one, two, front.len());
        let rest = exactness::total(one, front.len());
        let last = two(list.len() - 1);
        assert(exactness::commutes(rest, z));
        assert(z.sum(rest) == rest);
        assert(exactness::factors_commute(coefficient, rest.sum(last)));
        assert(exactness::distributes(rest, last, coefficient));
        assert(exactness::factors_commute(rest, coefficient));
        assert(exactness::factors_commute(last, coefficient));
        if let Some(landing) = target.landing(state, source_orbit) {
            assert(after.drop_last() =~= before);
            let w = weights::weight::<V>(factors);
            let r = V::of_reduction(landing.reduction);
            assert(exactness::factors_regroup(coefficient, w, r));
            if triplets::stands_at(after.last(), row, column) {
                let values = triplets::values_at(before, row, column);
                assert(triplets::values_at(after, row, column) =~= values.push(
                    after.last().value,
                ));
                assert(values.push(after.last().value).drop_last() =~= values);
            }
        }
    }
}

proof fn lemma_term<S: Basis, T: Basis<State = S::State>, V: Amplitude>(
    source: &S,
    target: &T,
    at: usize,
    term: &OperatorTerm<V>,
    upto: nat,
    row: int,
    column: int,
)
    requires
        exactness::exact::<V>(),
        assembly::term_entries(source, target, at, term, upto) is Ok,
    ensures
        triplets::cell_sum(
            assembly::term_entries(source, target, at, term, upto)->Ok_0,
            row,
            column,
        ) == (if column == at {
            exactness::total(|c: int| share(source, target, *term, c, row, column), upto)
        } else {
            V::zero_value()
        }),
    decreases upto,
{
    let z = V::zero_value();
    if upto > 0 {
        let shorter = (upto - 1) as nat;
        lemma_term(source, target, at, term, shorter, row, column);
        let front = assembly::term_entries(source, target, at, term, shorter)->Ok_0;
        let coupling = term.terms()[upto - 1];
        let more = assembly::coupling_entries(source, target, at, term, coupling)->Ok_0;
        lemma_cell_concat(front, more, row, column);
        let state = source.listed()[at as int];
        let outcome = source.action(
            state,
            terms::letters(term.factors().operators()),
            term.factors().boundary(),
            coupling.sites@,
        )->Ok_0;
        lemma_outcomes(
            target,
            outcome,
            source.orbit_weight(state) as usize,
            at,
            coupling.coefficient,
            row,
            column,
        );
        assert(z.sum(z) == z);
    }
}

proof fn lemma_column<S: Basis, T: Basis<State = S::State>, V: Amplitude>(
    source: &S,
    target: &T,
    at: usize,
    list: Seq<OperatorTerm<V>>,
    upto: nat,
    row: int,
    column: int,
)
    requires
        exactness::exact::<V>(),
        assembly::column_entries(source, target, at, list, upto) is Ok,
    ensures
        triplets::cell_sum(
            assembly::column_entries(source, target, at, list, upto)->Ok_0,
            row,
            column,
        ) == (if column == at {
            exactness::total(|t: int| term_share(source, target, list[t], row, column), upto)
        } else {
            V::zero_value()
        }),
    decreases upto,
{
    let z = V::zero_value();
    if upto > 0 {
        let shorter = (upto - 1) as nat;
        lemma_column(source, target, at, list, shorter, row, column);
        let term = list[upto - 1];
        let front = assembly::column_entries(source, target, at, list, shorter)->Ok_0;
        let more = assembly::term_entries(
            source,
            target,
            at,
            &term,
            term.terms().len(),
        )->Ok_0;
        lemma_cell_concat(front, more, row, column);
        lemma_term(source, target, at, &term, term.terms().len(), row, column);
        assert(z.sum(z) == z);
    }
}

proof fn lemma_matrix<S: Basis, T: Basis<State = S::State>, V: Amplitude>(
    source: &S,
    target: &T,
    list: Seq<OperatorTerm<V>>,
    columns: nat,
    row: int,
    column: int,
)
    requires
        exactness::exact::<V>(),
        columns <= usize::MAX,
        0 <= column,
        assembly::matrix_entries(source, target, list, columns) is Ok,
    ensures
        triplets::cell_sum(
            assembly::matrix_entries(source, target, list, columns)->Ok_0,
            row,
            column,
        ) == (if column < columns {
            exactness::total(
                |t: int| term_share(source, target, list[t], row, column),
                list.len(),
            )
        } else {
            V::zero_value()
        }),
    decreases columns,
{
    let z = V::zero_value();
    if columns > 0 {
        let shorter = (columns - 1) as nat;
        lemma_matrix(source, target, list, shorter, row, column);
        let front = assembly::matrix_entries(source, target, list, shorter)->Ok_0;
        let more = assembly::column_entries(
            source,
            target,
            shorter as usize,
            list,
            list.len(),
        )->Ok_0;
        lemma_cell_concat(front, more, row, column);
        lemma_column(source, target, shorter as usize, list, list.len(), row, column);
        let sum = exactness::total(
            |t: int| term_share(source, target, list[t], row, column),
            list.len(),
        );
        assert(z.sum(sum) == sum);
        assert(exactness::commutes(sum, z));
        assert(z.sum(z) == z);
    }
}

/// A cell of an assembled matrix is the sum, over all couplings of all terms, of the coefficient
/// times what the operator product makes of the state of the column, as it arrives in the row.
pub proof fn cells_sum_over_couplings<S: Basis, T: Basis<State = S::State>, V: Amplitude>(
    builder: &OperatorBuilder<V, S, T>,
    format: MatrixFormat,
    matrix: &Operator<V>,
    row: int,
    column: int,
)
    requires
        exactness::exact::<V>(),
        builder.entries() is Ok,
        builder.assembles(matrix, format),
        matrix.inside(row, column),
    ensures
        matrix.entry(row, column) == exactness::total(
            |t: int| term_share(builder.source, builder.target, builder.terms@[t], row, column),
            builder.terms@.len(),
        ),
{
    lemma_matrix(
        builder.source,
        builder.target,
        builder.terms@,
        builder.source.listed().len(),
        row,
        column,
    );
}

/// In a basis in which every state stands for itself, what arrives in a row is the matrix
/// element that leads to the state of the row.
pub proof fn plain_states_arrive_in_their_rows<B: Basis, V: Amplitude>(
    target: &B,
    list: Seq<(B::State, Seq<Factor>)>,
    source_orbit: usize,
    row: int,
)
    requires
        grids::faithful::<V>(),
        0 <= row < target.listed().len(),
        forall|i: int|
            #![trigger list[i]]
            0 <= i < list.len() ==> match target.landing(list[i].0, source_orbit) {
                Some(landing) => (landing.index == row <==> list[i].0 == target.listed()[row])
                    && V::of_reduction(landing.reduction) == V::one_value(),
                None => list[i].0 != target.listed()[row],
            },
    ensures
        arriving::<B, V>(target, list, source_orbit, row) == product_laws::element::<
            B::State,
            V,
        >(list, target.listed()[row]),
{
    let one = |i: int|
        match target.landing(list[i].0, source_orbit) {
            Some(landing) => if landing.index == row {
                weights::weight::<V>(list[i].1).product(V::of_reduction(landing.reduction))
            } else {
                V::zero_value()
            },
            None => V::zero_value(),
        };
    let two = |i: int|
        if list[i].0 == target.listed()[row] {
            weights::weight::<V>(list[i].1)
        } else {
            V::zero_value()
        };
    assert forall|i: int| 0 <= i < list.len() implies #[trigger] one(i) == two(i) by {
        assert(list[i] == list[i]);
        let w = weights::weight::<V>(list[i].1);
        assert(exactness::factors_commute(w, V::one_value()));
        assert(V::one_value().product(w) == w);
    }
    exactness::lemma_total_same(one, two, list.len());
}

proof fn lemma_share<V: Amplitude, R: Basis, P: Basis<State = R::State>>(
    reduced: &R,
    parent: &P,
    upto: nat,
    row: int,
    column: int,
)
    requires
        upto <= usize::MAX,
        0 <= row,
    ensures
        triplets::values_at(projector::shares::<V, R, P>(reduced, parent, upto), row, column) == (
        if row < upto {
            match reduced.landing(parent.listed()[row], 1) {
                Some(landing) => if landing.index == column {
                    seq![V::of_reduction(landing.reduction).mirror()]
                } else {
                    Seq::<V>::empty()
                },
                None => Seq::<V>::empty(),
            }
        } else {
            Seq::<V>::empty()
        }),
    decreases upto,
{
    if upto > 0 {
        let shorter = (upto - 1) as nat;
        lemma_share::<V, R, P>(reduced, parent, shorter, row, column);
        let list = projector::shares::<V, R, P>(reduced, parent, upto);
        let front = projector::shares::<V, R, P>(reduced, parent, shorter);
        if let Some(landing) = reduced.landing(parent.listed()[upto - 1], 1) {
            assert(list.drop_last() =~= front);
            if row == upto - 1 && landing.index == column {
                assert(triplets::values_at(list, row, column) =~= seq![
                    V::of_reduction(landing.reduction).mirror(),
                ]);
            }
        }
    }
}

/// The component of a reduced state in a parent state is the conjugate of the amplitude with
/// which the parent state arrives in the reduced state.
pub proof fn embeddings_are_adjoint_to_arrivals<V: Amplitude, R: Basis, P: Basis<State = R::State>>(
    reduced: &R,
    parent: &P,
    row: int,
    column: int,
)
    requires
        grids::faithful::<V>(),
        parent.listed().len() <= usize::MAX,
        0 <= row < parent.listed().len(),
    ensures
        triplets::cell_sum(
            projector::shares::<V, R, P>(reduced, parent, parent.listed().len()),
            row,
            column,
        ) == arriving::<R, V>(
            reduced,
            seq![(parent.listed()[row], Seq::<Factor>::empty())],
            1,
            column,
        ).mirror(),
{
    let z = V::zero_value();
    let state = parent.listed()[row];
    let list = seq![(state, Seq::<Factor>::empty())];
    lemma_share::<V, R, P>(reduced, parent, parent.listed().len(), row, column);
    reveal_with_fuel(triplets::summed, 2);
    reveal_with_fuel(exactness::total, 2);
    assert(weights::weight::<V>(list[0].1) == V::one_value());
    assert(grids::mirrors_sum(z, z));
    assert(z.sum(z) == z);
    operator_laws::lemma_mirrored_total(|i: int| z, 0);
    if let Some(landing) = reduced.landing(state, 1) {
        let value = V::of_reduction(landing.reduction);
        assert(V::one_value().product(value) == value);
        assert(z.sum(value) == value);
        assert(z.sum(value.mirror()) == value.mirror());
        assert(seq![value.mirror()].drop_last() =~= Seq::<V>::empty());
    }
}

} // verus!
