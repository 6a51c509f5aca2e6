//! Operators applied on the fly do what their matrices do.

use vstd::prelude::*;
use crate::assembly::OperatorBuilder;
use crate::assembly;
use crate::basis::Basis;
use crate::exactness;
use crate::local::Factor;
use crate::operator::{MatrixFormat, Operator};
use crate::scalar::{Amplitude, Scalar};
use crate::sector_shift;
use crate::terms::{Coupling, OperatorTerm};
use crate::terms;
use crate::triplets::Triplet;
use crate::triplets;
use crate::weights;

verus! {

proof fn lemma_neutral<V: Scalar>(a: V)
    requires
        exactness::exact::<V>(),
    ensures
        a.sum(V::zero_value()) == a,
        a.product(V::zero_value()) == V::zero_value(),
{
    assert(exactness::commutes(a, V::zero_value()));
    assert(exactness::factors_commute(a, V::zero_value()));
    assert(V::zero_value().sum(a) == a);
    assert(V::zero_value().product(a) == V::zero_value());
}

/// Sums over joined lists add up.
proof fn lemma_joined_sum<V: Scalar>(
    first: Seq<Triplet<V>>,
    second: Seq<Triplet<V>>,
    row: int,
    column: int,
)
    requires
        exactness::exact::<V>(),
    ensures
        triplets::cell_sum(first + second, row, column) == triplets::cell_sum(
            first,
            row,
            column,
        ).sum(triplets::cell_sum(second, row, column)),
    decreases second.len(),
{
    let a = triplets::cell_sum(first, row, column);
    if second.len() == 0 {
        assert(first + second =~= first);
        lemma_neutral(a);
    } else {
        let front = second.drop_last();
        assert((first + second).drop_last() =~= first + front);
        assert((first + second).last() == second.last());
        lemma_joined_sum(first, front, row, column);
        let values = triplets::values_at(first + front, row, column);
        let later = triplets::values_at(front, row, column);
        let value = second.last().value;
        if triplets::stands_at(second.last(), row, column) {
            assert(values.push(value).drop_last() =~= values);
            assert(later.push(value).drop_last() =~= later);
            assert(exactness::regroups(a, triplets::cell_sum(front, row, column), value));
        }
    }
}

/// All entries stand in a column.
spec fn in_column<V>(list: Seq<Triplet<V>>, column: usize) -> bool {
    forall|i: int| 0 <= i < list.len() ==> (#[trigger] list[i]).column == column
}

proof fn lemma_other_column<V: Scalar>(
    list: Seq<Triplet<V>>,
    own: usize,
    row: int,
    column: int,
)
    requires
        in_column(list, own),
        own != column,
    ensures
        triplets::cell_sum(list, row, column) == V::zero_value(),
        triplets::values_at(list, row, column).len() == 0,
    decreases list.len(),
{
    if list.len() > 0 {
        let front = list.drop_last();
        assert forall|i: int| 0 <= i < front.len() implies (#[trigger] front[i]).column == own by {
            assert(front[i] == list[i]);
        }
        lemma_other_column(front, own, row, column);
        assert(list[list.len() - 1].column == own);
    }
}

/// The outcomes of a product, with the component as a part of the coefficient, and with the
/// component as a factor of the sum.
proof fn lemma_outcomes<B: Basis, V: Amplitude>(
    target: &B,
    list: Seq<(B::State, Seq<Factor>)>,
    orbit: usize,
    column: usize,
    component: V,
    coefficient: V,
    row: int,
)
    requires
        exactness::exact::<V>(),
    ensures
        triplets::cell_sum(
            assembly::outcome_entries(target, list, orbit, 0, component.product(coefficient)),
            row,
            0,
        ) == triplets::cell_sum(
            assembly::outcome_entries(target, list, orbit, column, coefficient),
            row,
            column as int,
        ).product(component),
    decreases list.len(),
{
    let streamed = assembly::outcome_entries(target, list, orbit, 0, component.product(coefficient));
    let stored = assembly::outcome_entries(target, list, orbit, column, coefficient);
    if list.len() > 0 {
        lemma_outcomes(target, list.drop_last(), orbit, column, component, coefficient, row);
        let (state, factors) = list.last();
        if let Some(landing) = target.landing(state, orbit) {
            let w = weights::weight::<V>(factors);
            let r = V::of_reduction(landing.reduction);
            let value = coefficient.product(w).product(r);
            assert(component.product(coefficient).product(w).product(r) == value.product(
                component,
            )) by {
                assert(exactness::factors_regroup(component, coefficient, w));
                assert(exactness::factors_regroup(component, coefficient.product(w), r));
                assert(exactness::factors_commute(component, value));
            }
            let before = stored.drop_last();
            assert(streamed.drop_last() =~= assembly::outcome_entries(
                target,
                list.drop_last(),
                orbit,
                0,
                component.product(coefficient),
            ));
            assert(before =~= assembly::outcome_entries(
                target,
                list.drop_last(),
                orbit,
                column,
                coefficient,
            ));
            let old_values = triplets::values_at(before, row, column as int);
            let old_streamed = triplets::values_at(streamed.drop_last(), row, 0);
            if landing.index == row {
                assert(old_values.push(value).drop_last() =~= old_values);
                assert(old_streamed.push(value.product(component)).drop_last() =~= old_streamed);
                assert(exactness::distributes(
                    triplets::cell_sum(before, row, column as int),
                    value,
                    component,
                ));
            }
        }
    } else {
        assert(V::zero_value().product(component) == V::zero_value());
    }
}

proof fn lemma_coupling<S: Basis, T: Basis<State = S::State>, V: Amplitude>(
    source: &S,
    target: &T,
    column: usize,
    component: V,
    term: &OperatorTerm<V>,
    coupling: Coupling<V>,
    row: int,
)
    requires
        exactness::exact::<V>(),
        term.wf(),
        assembly::coupling_entries(source, target, column, term, coupling) is Ok,
        sector_shift::coupling_shift(
            source,
            target,
            column as int,
            component,
            sector_shift::term_label(term),
            coupling,
        ) is Ok,
    ensures
        triplets::cell_sum(
            sector_shift::coupling_shift(
                source,
                target,
                column as int,
                component,
                sector_shift::term_label(term),
                coupling,
            )->Ok_0,
            row,
            0,
        ) == triplets::cell_sum(
            assembly::coupling_entries(source, target, column, term, coupling)->Ok_0,
            row,
            column as int,
        ).product(component),
{
    let product = term.factors();
    product.lemma_wf();
    terms::labels_spell_products(product.operators(), product.boundary());
    let state = source.listed()[column as int];
    let list = source.action(
        state,
        terms::letters(product.operators()),
        product.boundary(),
        coupling.sites@,
    )->Ok_0;
    lemma_outcomes(
        target,
        list,
        source.orbit_weight(state) as usize,
        column,
        component,
        coupling.coefficient,
        row,
    );
}

/// Sums over the first couplings and over the rest make up the whole sum.
proof fn lemma_couplings<S: Basis, T: Basis<State = S::State>, V: Amplitude>(
    source: &S,
    target: &T,
    column: usize,
    component: V,
    term: &OperatorTerm<V>,
    at: nat,
    row: int,
)
    requires
        exactness::exact::<V>(),
        term.wf(),
        at <= term.terms().len(),
        assembly::term_entries(source, target, column, term, term.terms().len()) is Ok,
        sector_shift::couplings_shift(
            source,
            target,
            column as int,
            component,
            term,
            at as int,
        ) is Ok,
    ensures
        triplets::cell_sum(
            assembly::term_entries(source, target, column, term, term.terms().len())->Ok_0,
            row,
            column as int,
        ).product(component) == triplets::cell_sum(
            assembly::term_entries(source, target, column, term, at)->Ok_0,
            row,
            column as int,
        ).product(component).sum(
            triplets::cell_sum(
                sector_shift::couplings_shift(
                    source,
                    target,
                    column as int,
                    component,
                    term,
                    at as int,
                )->Ok_0,
                row,
                0,
            ),
        ),
    decreases term.terms().len() - at,
{
    let size = term.terms().len();
    lemma_term_ok(source, target, column, term, at);
    if at == size {
        lemma_neutral(
            triplets::cell_sum(
                assembly::term_entries(source, target, column, term, at)->Ok_0,
                row,
                column as int,
            ).product(component),
        );
    } else {
        lemma_term_ok(source, target, column, term, at + 1);
        lemma_couplings(source, target, column, component, term, at + 1, row);
        let coupling = term.terms()[at as int];
        lemma_coupling(source, target, column, component, term, coupling, row);
        let before = assembly::term_entries(source, target, column, term, at)->Ok_0;
        let stored = assembly::coupling_entries(source, target, column, term, coupling)->Ok_0;
        let streamed = sector_shift::coupling_shift(
            source,
            target,
            column as int,
            component,
            sector_shift::term_label(term),
            coupling,
        )->Ok_0;
        let rest = sector_shift::couplings_shift(
            source,
            target,
            column as int,
            component,
            term,
            at as int + 1,
        )->Ok_0;
        lemma_joined_sum(before, stored, row, column as int);
        lemma_joined_sum(streamed, rest, row, 0);
        let a = triplets::cell_sum(before, row, column as int);
        let b = triplets::cell_sum(stored, row, column as int);
        assert(exactness::distributes(a, b, component));
        assert(exactness::regroups(
            a.product(component),
            b.product(component),
            triplets::cell_sum(rest, row, 0),
        ));
    }
}

proof fn lemma_term_ok<S: Basis, T: Basis<State = S::State>, V: Amplitude>(
    source: &S,
    target: &T,
    column: usize,
    term: &OperatorTerm<V>,
    upto: nat,
)
    requires
        upto <= term.terms().len(),
        assembly::term_entries(source, target, column, term, term.terms().len()) is Ok,
    ensures
        assembly::term_entries(source, target, column, term, upto) is Ok,
    decreases term.terms().len() - upto,
{
    if upto < term.terms().len() {
        lemma_term_ok(source, target, column, term, upto + 1);
    }
}

proof fn lemma_outcome_column<B: Basis, V: Amplitude>(
    target: &B,
    list: Seq<(B::State, Seq<Factor>)>,
    orbit: usize,
    column: usize,
    coefficient: V,
)
    ensures
        in_column(
            assembly::outcome_entries(target, list, orbit, column, coefficient),
            column,
        ),
    decreases list.len(),
{
    if list.len() > 0 {
        lemma_outcome_column(target, list.drop_last(), orbit, column, coefficient);
    }
}

proof fn lemma_term_column<S: Basis, T: Basis<State = S::State>, V: Amplitude>(
    source: &S,
    target: &T,
    column: usize,
    term: &OperatorTerm<V>,
    upto: nat,
)
    requires
        assembly::term_entries(source, target, column, term, upto) is Ok,
    ensures
        in_column(assembly::term_entries(source, target, column, term, upto)->Ok_0, column),
    decreases upto,
{
    if upto > 0 {
        lemma_term_column(source, target, column, term, (upto - 1) as nat);
        let coupling = term.terms()[upto - 1];
        let state = source.listed()[column as int];
        lemma_outcome_column(
            target,
            source.action(
                state,
                terms::letters(term.factors().operators()),
                term.factors().boundary(),
                coupling.sites@,
            )->Ok_0,
            source.orbit_weight(state) as usize,
            column,
            coupling.coefficient,
        );
    }
}

proof fn lemma_column_ok<S: Basis, T: Basis<State = S::State>, V: Amplitude>(
    source: &S,
    target: &T,
    column: usize,
    list: Seq<OperatorTerm<V>>,
    upto: nat,
)
    requires
        upto <= list.len(),
        assembly::column_entries(source, target, column, list, list.len()) is Ok,
    ensures
        assembly::column_entries(source, target, column, list, upto) is Ok,
    decreases list.len() - upto,
{
    if upto < list.len() {
        lemma_column_ok(source, target, column, list, upto + 1);
    }
}

proof fn lemma_column_column<S: Basis, T: Basis<State = S::State>, V: Amplitude>(
    source: &S,
    target: &T,
    column: usize,
    list: Seq<OperatorTerm<V>>,
    upto: nat,
)
    requires
        assembly::column_entries(source, target, column, list, upto) is Ok,
    ensures
        in_column(assembly::column_entries(source, target, column, list, upto)->Ok_0, column),
    decreases upto,
{
    if upto > 0 {
        lemma_column_column(source, target, column, list, (upto - 1) as nat);
        lemma_term_column(source, target, column, &list[upto - 1], list[upto - 1].terms().len());
    }
}

/// Sums over the first terms and over the rest make up the whole sum.
proof fn lemma_terms<S: Basis, T: Basis<State = S::State>, V: Amplitude>(
    source: &S,
    target: &T,
    column: usize,
    component: V,
    list: Seq<OperatorTerm<V>>,
    at: nat,
    row: int,
)
    requires
        exactness::exact::<V>(),
        forall|i: int| 0 <= i < list.len() ==> (#[trigger] list[i]).wf(),
        at <= list.len(),
        assembly::column_entries(source, target, column, list, list.len()) is Ok,
        sector_shift::terms_shift(source, target, column as int, component, list, at as int) is Ok,
    ensures
        triplets::cell_sum(
            assembly::column_entries(source, target, column, list, list.len())->Ok_0,
            row,
            column as int,
        ).product(component) == triplets::cell_sum(
            assembly::column_entries(source, target, column, list, at)->Ok_0,
            row,
            column as int,
        ).product(component).sum(
            triplets::cell_sum(
                sector_shift::terms_shift(
                    source,
                    target,
                    column as int,
                    component,
                    list,
                    at as int,
                )->Ok_0,
                row,
                0,
            ),
        ),
    decreases list.len() - at,
{
    lemma_column_ok(source, target, column, list, at);
    let before = assembly::column_entries(source, target, column, list, at)->Ok_0;
    let a = triplets::cell_sum(before, row, column as int);
    if at == list.len() {
        lemma_neutral(a.product(component));
    } else {
        lemma_column_ok(source, target, column, list, at + 1);
        lemma_terms(source, target, column, component, list, at + 1, row);
        let term = &list[at as int];
        let stored = assembly::term_entries(
            source,
            target,
            column,
            term,
            term.terms().len(),
        )->Ok_0;
        let streamed = sector_shift::couplings_shift(
            source,
            target,
            column as int,
            component,
            term,
            0,
        )->Ok_0;
        let rest = sector_shift::terms_shift(
            source,
            target,
            column as int,
            component,
            list,
            at as int + 1,
        )->Ok_0;
        lemma_couplings(source, target, column, component, term, 0, row);
        let b = triplets::cell_sum(stored, row, column as int);
        assert(b.product(component) == triplets::cell_sum(streamed, row, 0)) by {
            assert(V::zero_value().product(component) == V::zero_value());
            assert(V::zero_value().sum(triplets::cell_sum(streamed, row, 0))
                == triplets::cell_sum(streamed, row, 0));
        }
        lemma_joined_sum(before, stored, row, column as int);
        lemma_joined_sum(streamed, rest, row, 0);
        assert(exactness::distributes(a, b, component));
        assert(exactness::regroups(
            a.product(component),
            b.product(component),
            triplets::cell_sum(rest, row, 0),
        ));
    }
}

/// The sums in a column are those over the entries of the column.
proof fn lemma_matrix_cell<S: Basis, T: Basis<State = S::State>, V: Amplitude>(
    source: &S,
    target: &T,
    list: Seq<OperatorTerm<V>>,
    columns: nat,
    row: int,
    column: int,
)
    requires
        exactness::exact::<V>(),
        columns <= usize::MAX,
        assembly::matrix_entries(source, target, list, columns) is Ok,
        0 <= column,
    ensures
        column >= columns ==> triplets::cell_sum(
            assembly::matrix_entries(source, target, list, columns)->Ok_0,
            row,
            column,
        ) == V::zero_value(),
        column < columns ==> assembly::column_entries(
            source,
            target,
            column as usize,
            list,
            list.len(),
        ) is Ok && triplets::cell_sum(
            assembly::matrix_entries(source, target, list, columns)->Ok_0,
            row,
            column,
        ) == triplets::cell_sum(
            assembly::column_entries(source, target, column as usize, list, list.len())->Ok_0,
            row,
            column,
        ),
    decreases columns,
{
    if columns > 0 {
        let own = (columns - 1) as usize;
        let front = assembly::matrix_entries(source, target, list, (columns - 1) as nat)->Ok_0;
        let last = assembly::column_entries(source, target, own, list, list.len())->Ok_0;
        lemma_matrix_cell(source, target, list, (columns - 1) as nat, row, column);
        lemma_joined_sum(front, last, row, column);
        lemma_column_column(source, target, own, list, list.len());
        if column != own {
            lemma_other_column(last, own, row, column);
            lemma_neutral(triplets::cell_sum(front, row, column));
        } else {
            assert(V::zero_value().sum(triplets::cell_sum(last, row, column))
                == triplets::cell_sum(last, row, column));
        }
    }
}

/// What the cells of a row contribute.
spec fn contributions<V: Scalar>(
    entries: Seq<Triplet<V>>,
    row: int,
    input: Seq<V>,
) -> spec_fn(int) -> V {
    |column: int| triplets::cell_sum(entries, row, column).product(input[column])
}

proof fn lemma_columns<S: Basis, T: Basis<State = S::State>, V: Amplitude>(
    source: &S,
    target: &T,
    list: Seq<OperatorTerm<V>>,
    input: Seq<V>,
    at: nat,
    row: int,
)
    requires
        exactness::exact::<V>(),
        forall|i: int| 0 <= i < list.len() ==> (#[trigger] list[i]).wf(),
        at <= input.len() <= usize::MAX,
        assembly::matrix_entries(source, target, list, input.len()) is Ok,
        sector_shift::columns_shift(source, target, list, input, at as int) is Ok,
    ensures
        exactness::total(
            contributions(
                assembly::matrix_entries(source, target, list, input.len())->Ok_0,
                row,
                input,
            ),
            input.len(),
        ) == exactness::total(
            contributions(
                assembly::matrix_entries(source, target, list, input.len())->Ok_0,
                row,
                input,
            ),
            at,
        ).sum(
            triplets::cell_sum(
                sector_shift::columns_shift(source, target, list, input, at as int)->Ok_0,
                row,
                0,
            ),
        ),
    decreases input.len() - at,
{
    let entries = assembly::matrix_entries(source, target, list, input.len())->Ok_0;
    let terms_of_row = contributions(entries, row, input);
    let done = exactness::total(terms_of_row, at);
    if at == input.len() {
        lemma_neutral(done);
    } else {
        lemma_columns(source, target, list, input, at + 1, row);
        let rest = sector_shift::columns_shift(source, target, list, input, at as int + 1)->Ok_0;
        let x = input[at as int];
        let step = if x.tiny() {
            Seq::<Triplet<V>>::empty()
        } else {
            sector_shift::terms_shift(source, target, at as int, x, list, 0)->Ok_0
        };
        lemma_matrix_cell(source, target, list, input.len(), row, at as int);
        let cell = triplets::cell_sum(entries, row, at as int);
        assert(triplets::cell_sum(step, row, 0) == cell.product(x)) by {
            if x.tiny() {
                lemma_neutral(cell);
            } else {
                lemma_terms(source, target, at as usize, x, list, 0, row);
                assert(V::zero_value().product(x) == V::zero_value());
                assert(V::zero_value().sum(triplets::cell_sum(step, row, 0))
                    == triplets::cell_sum(step, row, 0));
            }
        }
        lemma_joined_sum(step, rest, row, 0);
        assert(terms_of_row(at as int) == cell.product(x));
        assert(exactness::regroups(done, cell.product(x), triplets::cell_sum(rest, row, 0)));
    }
}

/// Applying terms on the fly, from one basis to another, gives what the assembled matrix
/// makes of the vector.
pub proof fn streaming_applies_the_matrix<S: Basis, T: Basis<State = S::State>, V: Amplitude>(
    builder: &OperatorBuilder<V, S, T>,
    matrix: &Operator<V>,
    format: MatrixFormat,
    input: Seq<V>,
    output: Seq<V>,
)
    requires
        exactness::exact::<V>(),
        builder.ready(),
        builder.entries() is Ok,
        builder.assembles(matrix, format),
        input.len() == builder.source.listed().len(),
        output.len() == builder.target.listed().len(),
        sector_shift::columns_shift(
            builder.source,
            builder.target,
            builder.terms@,
            input,
            0,
        ) is Ok,
        sector_shift::holds(
            output,
            sector_shift::columns_shift(
                builder.source,
                builder.target,
                builder.terms@,
                input,
                0,
            )->Ok_0,
        ),
    ensures
        output == matrix.image(input),
{
    let entries = builder.entries()->Ok_0;
    assert forall|row: int| 0 <= row < output.len() implies output[row] == matrix.image(
        input,
    )[row] by {
        lemma_columns(builder.source, builder.target, builder.terms@, input, 0, row);
        exactness::rows_sum_up(matrix, row, input);
        let stored = exactness::row_terms(matrix, row, input);
        let parts = contributions(entries, row, input);
        assert forall|c: int| 0 <= c < matrix.columns() implies #[trigger] stored(c) == parts(
            c,
        ) by {
            assert(matrix.inside(row, c));
            assert(matrix.entry(row, c) == assembly::kept(
                triplets::cell_sum(entries, row, c),
            ));
        }
        exactness::lemma_total_same(stored, parts, input.len());
        assert(V::zero_value().sum(output[row]) == output[row]);
    }
    assert(output =~= matrix.image(input));
}

} // verus!
