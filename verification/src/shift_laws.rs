//! Operators applied to states without a matrix, and matrices shifted along the diagonal, for
//! exact numbers.

use vstd::prelude::*;
use crate::assembly::Entries;
use crate::assembly;
use crate::assembly_laws;
use crate::basis::Basis;
use crate::composition;
use crate::drive_laws;
use crate::exactness;
use crate::grids;
use crate::local::Factor;
use crate::model;
use crate::photon;
use crate::product_laws;
use crate::scalar::{Amplitude, Scalar};
use crate::sector_shift::{BraKetTransition, Elements};
use crate::sector_shift;
use crate::shifted;
use crate::reduction_laws;
use crate::terms::OperatorTerm;
use crate::terms;
use crate::triplets::Triplet;
use crate::triplets;
use crate::weights;

verus! {

/// What a coupling of a term contributes to a component of the image of a basis state: its
/// coefficient times what the operator string on its sites makes of the state, as it arrives in
/// the row.
pub open spec fn share<S: Basis, T: Basis<State = S::State>, V: Amplitude>(
    source: &S,
    target: &T,
    term: OperatorTerm<V>,
    coupling: int,
    row: int,
    column: int,
) -> V {
    let state = source.listed()[column];
    term.terms()[coupling].coefficient.product(
        assembly_laws::arriving::<T, V>(
            target,
            weights::text_action(
                source,
                state,
                sector_shift::term_label(&term),
                term.terms()[coupling].sites@,
            )->Ok_0,
            source.orbit_weight(state) as usize,
            row,
        ),
    )
}

/// What all couplings of a term contribute.
pub open spec fn term_share<S: Basis, T: Basis<State = S::State>, V: Amplitude>(
    source: &S,
    target: &T,
    term: OperatorTerm<V>,
    row: int,
    column: int,
) -> V {
    exactness::total(
        |c: int| share(source, target, term, c, row, column),
        term.terms().len(),
    )
}

/// What all terms contribute.
pub open spec fn state_share<S: Basis, T: Basis<State = S::State>, V: Amplitude>(
    source: &S,
    target: &T,
    list: Seq<OperatorTerm<V>>,
    row: int,
    column: int,
) -> V {
    exactness::total(|t: int| term_share(source, target, list[t], row, column), list.len())
}

/// The terms of a sum from a place on.
spec fn from_place<V: Scalar>(value: spec_fn(int) -> V, at: int) -> spec_fn(int) -> V {
    |k: int| value(at + k)
}

proof fn lemma_from_place<V: Scalar>(value: spec_fn(int) -> V, at: int, end: int)
    requires
        exactness::exact::<V>(),
        at < end,
    ensures
        exactness::total(from_place(value, at), (end - at) as nat) == value(at).sum(
            exactness::total(from_place(value, at + 1), (end - at - 1) as nat),
        ),
{
    let all = from_place(value, at);
    let rest = from_place(value, at + 1);
    assert forall|k: int| 0 <= k < end - at - 1 implies #[trigger] rest(k) == all(k + 1) by {}
    drive_laws::lemma_first_apart(all, rest, (end - at - 1) as nat);
}

proof fn lemma_scaled_sum<V: Scalar>(factor: V, first: V, second: V)
    requires
        exactness::exact::<V>(),
    ensures
        factor.product(first.sum(second)) == factor.product(first).sum(factor.product(second)),
        factor.product(V::zero_value()) == V::zero_value(),
{
    assert(exactness::factors_commute(factor, first.sum(second)));
    assert(exactness::distributes(first, second, factor));
    assert(exactness::factors_commute(factor, first));
    assert(exactness::factors_commute(factor, second));
    assert(exactness::factors_commute(factor, V::zero_value()));
    assert(V::zero_value().product(factor) == V::zero_value());
}

proof fn lemma_couplings<S: Basis, T: Basis<State = S::State>, V: Amplitude>(
    source: &S,
    target: &T,
    column: int,
    component: V,
    term: &OperatorTerm<V>,
    at: int,
    row: int,
)
    requires
        exactness::exact::<V>(),
        0 <= at <= term.terms().len(),
        sector_shift::couplings_shift(source, target, column, component, term, at) is Ok,
    ensures
        triplets::cell_sum(
            sector_shift::couplings_shift(source, target, column, component, term, at)->Ok_0,
            row,
            0,
        ) == component.product(
            exactness::total(
                from_place(|c: int| share(source, target, *term, c, row, column), at),
                (term.terms().len() - at) as nat,
            ),
        ),
    decreases term.terms().len() - at,
{
    let value = |c: int| share(source, target, *term, c, row, column);
    let end = term.terms().len() as int;
    lemma_scaled_sum(component, V::zero_value(), V::zero_value());
    if at < end {
        let coupling = term.terms()[at];
        let label = sector_shift::term_label(term);
        let first = sector_shift::coupling_shift(
            source,
            target,
            column,
            component,
            label,
            coupling,
        )->Ok_0;
        let rest = sector_shift::couplings_shift(
            source,
            target,
            column,
            component,
            term,
            at + 1,
        )->Ok_0;
        lemma_couplings(source, target, column, component, term, at + 1, row);
        assembly_laws::lemma_cell_concat(first, rest, row, 0);
        let state = source.listed()[column];
        let outcome = weights::text_action(source, state, label, coupling.sites@)->Ok_0;
        assembly_laws::lemma_outcomes(
            target,
            outcome,
            source.orbit_weight(state) as usize,
            0,
            component.product(coupling.coefficient),
            row,
            0,
        );
        let arrived = assembly_laws::arriving::<T, V>(
            target,
            outcome,
            source.orbit_weight(state) as usize,
            row,
        );
        assert(exactness::factors_regroup(component, coupling.coefficient, arrived));
        lemma_from_place(value, at, end);
        lemma_scaled_sum(
            component,
            value(at),
            exactness::total(from_place(value, at + 1), (end - at - 1) as nat),
        );
    }
}

proof fn lemma_whole<V: Scalar>(value: spec_fn(int) -> V, upto: nat)
    ensures
        exactness::total(from_place(value, 0), upto) == exactness::total(value, upto),
{
    let all = from_place(value, 0);
    assert forall|k: int| 0 <= k < upto implies #[trigger] all(k) == value(k) by {}
    exactness::lemma_total_same(all, value, upto);
}

proof fn lemma_terms<S: Basis, T: Basis<State = S::State>, V: Amplitude>(
    source: &S,
    target: &T,
    column: int,
    component: V,
    list: Seq<OperatorTerm<V>>,
    at: int,
    row: int,
)
    requires
        exactness::exact::<V>(),
        0 <= at <= list.len(),
        sector_shift::terms_shift(source, target, column, component, list, at) is Ok,
    ensures
        triplets::cell_sum(
            sector_shift::terms_shift(source, target, column, component, list, at)->Ok_0,
            row,
            0,
        ) == component.product(
            exactness::total(
                from_place(|t: int| term_share(source, target, list[t], row, column), at),
                (list.len() - at) as nat,
            ),
        ),
    decreases list.len() - at,
{
    let value = |t: int| term_share(source, target, list[t], row, column);
    let end = list.len() as int;
    lemma_scaled_sum(component, V::zero_value(), V::zero_value());
    if at < end {
        let term = list[at];
        let first = sector_shift::couplings_shift(
            source,
            target,
            column,
            component,
            &term,
            0,
        )->Ok_0;
        let rest = sector_shift::terms_shift(
            source,
            target,
            column,
            component,
            list,
            at + 1,
        )->Ok_0;
        lemma_terms(source, target, column, component, list, at + 1, row);
        assembly_laws::lemma_cell_concat(first, rest, row, 0);
        lemma_couplings(source, target, column, component, &term, 0, row);
        let own = |c: int| share(source, target, term, c, row, column);
        lemma_whole(own, term.terms().len());
        lemma_from_place(value, at, end);
        lemma_scaled_sum(
            component,
            value(at),
            exactness::total(from_place(value, at + 1), (end - at - 1) as nat),
        );
    }
}

proof fn lemma_columns<S: Basis, T: Basis<State = S::State>, V: Amplitude>(
    source: &S,
    target: &T,
    list: Seq<OperatorTerm<V>>,
    input: Seq<V>,
    at: int,
    row: int,
)
    requires
        exactness::exact::<V>(),
        0 <= at <= input.len(),
        sector_shift::columns_shift(source, target, list, input, at) is Ok,
    ensures
        triplets::cell_sum(
            sector_shift::columns_shift(source, target, list, input, at)->Ok_0,
            row,
            0,
        ) == exactness::total(
            from_place(
                |c: int| input[c].product(state_share(source, target, list, row, c)),
                at,
            ),
            (input.len() - at) as nat,
        ),
    decreases input.len() - at,
{
    let value = |c: int| input[c].product(state_share(source, target, list, row, c));
    let end = input.len() as int;
    let z = V::zero_value();
    if at < end {
        let first = if input[at].tiny() {
            Seq::empty()
        } else {
            sector_shift::terms_shift(source, target, at, input[at], list, 0)->Ok_0
        };
        let rest = sector_shift::columns_shift(source, target, list, input, at + 1)->Ok_0;
        lemma_columns(source, target, list, input, at + 1, row);
        assembly_laws::lemma_cell_concat(first, rest, row, 0);
        if input[at].tiny() {
            assert(z.product(state_share(source, target, list, row, at)) == z);
        } else {
            lemma_terms(source, target, at, input[at], list, 0, row);
            let own = |t: int| term_share(source, target, list[t], row, at);
            lemma_whole(own, list.len());
        }
        lemma_from_place(value, at, end);
    }
}

/// A component of a state after terms have been applied to it is the sum, over the states of the
/// source basis, of the component there times what the terms make of the state, as it arrives in
/// the row: over all couplings of all terms, the coefficient times the matrix element.
pub proof fn shifted_states_sum_over_couplings<S: Basis, T: Basis<State = S::State>, V: Amplitude>(
    source: &S,
    target: &T,
    list: Seq<OperatorTerm<V>>,
    input: Seq<V>,
    output: Seq<V>,
    row: int,
)
    requires
        exactness::exact::<V>(),
        sector_shift::columns_shift(source, target, list, input, 0) is Ok,
        sector_shift::holds(
            output,
            sector_shift::columns_shift(source, target, list, input, 0)->Ok_0,
        ),
        0 <= row < output.len(),
    ensures
        output[row] == exactness::total(
            |c: int| input[c].product(state_share(source, target, list, row, c)),
            input.len(),
        ),
{
    lemma_columns(source, target, list, input, 0, row);
    let value = |c: int| input[c].product(state_share(source, target, list, row, c));
    lemma_whole(value, input.len());
}

/// The stored values of a column from one place on that stand in a row.
pub open spec fn stored_terms<V: Scalar>(
    rows: Seq<usize>,
    values: Seq<V>,
    from: int,
    row: int,
) -> spec_fn(int) -> V {
    |k: int|
        if rows[from + k] == row {
            values[from + k]
        } else {
            V::zero_value()
        }
}

/// How often the diagonal is met among the first stored values of a column.
pub open spec fn diagonal_count(rows: Seq<usize>, column: int, from: int, upto: nat) -> nat
    decreases upto,
{
    if upto == 0 {
        0
    } else {
        diagonal_count(rows, column, from, (upto - 1) as nat) + (if rows[from + upto - 1]
            == column {
            1nat
        } else {
            0
        })
    }
}

/// A number that is added a number of times.
pub open spec fn repeated<V: Scalar>(value: V, count: nat) -> V
    decreases count,
{
    if count == 0 {
        V::zero_value()
    } else {
        repeated(value, (count - 1) as nat).sum(value)
    }
}

proof fn lemma_run<V: Scalar>(
    rows: Seq<usize>,
    values: Seq<V>,
    column: usize,
    negative: V,
    from: int,
    upto: nat,
    row: int,
    at: int,
)
    requires
        exactness::exact::<V>(),
    ensures
        triplets::cell_sum(
            shifted::stored_run(rows, values, column, negative, from, from + upto),
            row,
            at,
        ) == (if at == column {
            exactness::total(stored_terms(rows, values, from, row), upto).sum(
                if row == column {
                    repeated(negative, diagonal_count(rows, column as int, from, upto))
                } else {
                    V::zero_value()
                },
            )
        } else {
            V::zero_value()
        }),
    decreases upto,
{
    let z = V::zero_value();
    let list = shifted::stored_run(rows, values, column, negative, from, from + upto);
    if upto == 0 {
        assert(z.sum(z) == z);
    } else {
        let shorter = (upto - 1) as nat;
        lemma_run(rows, values, column, negative, from, shorter, row, at);
        let front = shifted::stored_run(rows, values, column, negative, from, from + shorter);
        assert(list.drop_last() =~= front);
        let last = list.last();
        let v = values[from + shorter];
        let a = exactness::total(stored_terms(rows, values, from, row), shorter);
        let d = if row == column {
            repeated(negative, diagonal_count(rows, column as int, from, shorter))
        } else {
            z
        };
        assert(exactness::commutes(a, z));
        assert(z.sum(a) == a);
        if triplets::stands_at(last, row, at) {
            let before = triplets::values_at(front, row, at);
            assert(triplets::values_at(list, row, at) =~= before.push(last.value));
            assert(before.push(last.value).drop_last() =~= before);
            if row == column {
                grids::lemma_pairs(a, d, v, negative);
            } else {
                assert(exactness::commutes(a.sum(v), z));
                assert(z.sum(a.sum(v)) == a.sum(v));
            }
        }
    }
}

proof fn lemma_column_elsewhere<V: Scalar>(
    offsets: Seq<usize>,
    rows: Seq<usize>,
    values: Seq<V>,
    negative: V,
    column: int,
    row: int,
    at: int,
)
    requires
        exactness::exact::<V>(),
        0 <= column <= usize::MAX,
        offsets[column] <= offsets[column + 1],
        diagonal_count(
            rows,
            column,
            offsets[column] as int,
            (offsets[column + 1] - offsets[column]) as nat,
        ) <= 1,
    ensures
        triplets::cell_sum(
            shifted::shifted_column(offsets, rows, values, negative, column),
            row,
            at,
        ) == (if at == column {
            exactness::total(
                stored_terms(rows, values, offsets[column] as int, row),
                (offsets[column + 1] - offsets[column]) as nat,
            ).sum(
                if row == column {
                    negative
                } else {
                    V::zero_value()
                },
            )
        } else {
            V::zero_value()
        }),
{
    let z = V::zero_value();
    let from = offsets[column] as int;
    let to = offsets[column + 1] as int;
    let width = (to - from) as nat;
    lemma_run(rows, values, column as usize, negative, from, width, row, at);
    let stored = shifted::stored_run(rows, values, column as usize, negative, from, to);
    let count = diagonal_count(rows, column, from, width);
    lemma_count(rows, column, from, width);
    reveal_with_fuel(repeated, 2);
    assert(z.sum(negative) == negative);
    if !shifted::meets_diagonal(rows, column as usize, from, to) {
        assert(count == 0);
        let last = Triplet { row: column as usize, column: column as usize, value: negative };
        let list = stored.push(last);
        assert(list.drop_last() =~= stored);
        let a = exactness::total(stored_terms(rows, values, from, row), width);
        assert(exactness::commutes(a, z));
        assert(z.sum(a) == a);
        if triplets::stands_at(last, row, at) {
            let before = triplets::values_at(stored, row, at);
            assert(triplets::values_at(list, row, at) =~= before.push(negative));
            assert(before.push(negative).drop_last() =~= before);
        }
    } else {
        assert(count == 1);
    }
}

proof fn lemma_count(rows: Seq<usize>, column: int, from: int, upto: nat)
    requires
        0 <= column <= usize::MAX,
    ensures
        diagonal_count(rows, column, from, upto) > 0 <==> shifted::meets_diagonal(
            rows,
            column as usize,
            from,
            from + upto,
        ),
    decreases upto,
{
    if upto > 0 {
        lemma_count(rows, column, from, (upto - 1) as nat);
        let p = from + upto - 1;
        if rows[p] == column {
            assert(from <= p < from + upto && rows[p] == column as usize);
        } else if shifted::meets_diagonal(rows, column as usize, from, from + upto) {
            let q = choose|q: int| from <= q < from + upto && rows[q] == column as usize;
            assert(from <= q < p);
        } else if shifted::meets_diagonal(rows, column as usize, from, p) {
            let q = choose|q: int| from <= q < p && rows[q] == column as usize;
            assert(from <= q < from + upto);
        }
    }
}

proof fn lemma_shifted<V: Scalar>(
    offsets: Seq<usize>,
    rows: Seq<usize>,
    values: Seq<V>,
    negative: V,
    upto: nat,
    row: int,
    at: int,
)
    requires
        exactness::exact::<V>(),
        upto <= usize::MAX,
        0 <= at,
        forall|c: int| 0 <= c < upto ==> simple_column(offsets, rows, #[trigger] offsets[c], c),
    ensures
        triplets::cell_sum(
            shifted::shifted_columns(offsets, rows, values, negative, upto),
            row,
            at,
        ) == (if at < upto {
            exactness::total(
                stored_terms(rows, values, offsets[at] as int, row),
                (offsets[at + 1] - offsets[at]) as nat,
            ).sum(
                if row == at {
                    negative
                } else {
                    V::zero_value()
                },
            )
        } else {
            V::zero_value()
        }),
    decreases upto,
{
    let z = V::zero_value();
    if upto > 0 {
        let shorter = (upto - 1) as nat;
        lemma_shifted(offsets, rows, values, negative, shorter, row, at);
        let front = shifted::shifted_columns(offsets, rows, values, negative, shorter);
        let more = shifted::shifted_column(offsets, rows, values, negative, shorter as int);
        assembly_laws::lemma_cell_concat(front, more, row, at);
        assert(simple_column(offsets, rows, offsets[shorter as int], shorter as int));
        lemma_column_elsewhere(
            offsets,
            rows,
            values,
            negative,
            shorter as int,
            row,
            at,
        );
        let a = triplets::cell_sum(front, row, at);
        let b = triplets::cell_sum(more, row, at);
        assert(exactness::commutes(a, z));
        assert(z.sum(a) == a);
        assert(z.sum(b) == b);
    }
}

/// The stored values of a column lie in order, and the diagonal is stored once at most.
pub open spec fn simple_column(
    offsets: Seq<usize>,
    rows: Seq<usize>,
    from: usize,
    column: int,
) -> bool {
    &&& from == offsets[column]
    &&& offsets[column] <= offsets[column + 1]
    &&& diagonal_count(
        rows,
        column,
        offsets[column] as int,
        (offsets[column + 1] - offsets[column]) as nat,
    ) <= 1
}

/// A shifted matrix holds in every cell what was stored there, less the shift on the diagonal.
pub proof fn shifts_are_taken_from_the_diagonal<V: Scalar>(
    dimension: usize,
    offsets: Seq<usize>,
    rows: Seq<usize>,
    values: Seq<V>,
    shift: V,
    row: int,
    column: int,
)
    requires
        grids::faithful::<V>(),
        0 <= column < dimension,
        forall|c: int|
            0 <= c < dimension ==> simple_column(offsets, rows, #[trigger] offsets[c], c),
    ensures
        triplets::cell_sum(
            shifted::shifted_entries(dimension, offsets, rows, values, shift),
            row,
            column,
        ).sum(
            if row == column {
                shift
            } else {
                V::zero_value()
            },
        ) == exactness::total(
            stored_terms(rows, values, offsets[column] as int, row),
            (offsets[column + 1] - offsets[column]) as nat,
        ),
{
    let negative = shift.product(V::minus_one_value());
    lemma_shifted(offsets, rows, values, negative, dimension as nat, row, column);
    let stored = exactness::total(
        stored_terms(rows, values, offsets[column] as int, row),
        (offsets[column + 1] - offsets[column]) as nat,
    );
    grids::lemma_cancel(stored, shift);
}

/// The sum of all matrix elements of a table that lead to a state.
pub open spec fn leading_to<S, V: Scalar>(table: Seq<BraKetTransition<S, V>>, bra: S) -> V {
    exactness::total(
        |i: int|
            if table[i].bra == bra {
                table[i].matrix_element
            } else {
                V::zero_value()
            },
        table.len(),
    )
}

proof fn lemma_leading_to<S, V: Scalar>(table: Seq<BraKetTransition<S, V>>, bra: S)
    requires
        table.len() > 0,
    ensures
        leading_to(table, bra) == leading_to(table.drop_last(), bra).sum(
            if table.last().bra == bra {
                table.last().matrix_element
            } else {
                V::zero_value()
            },
        ),
{
    let front = table.drop_last();
    let whole = |i: int|
        if table[i].bra == bra {
            table[i].matrix_element
        } else {
            V::zero_value()
        };
    let part = |i: int|
        if front[i].bra == bra {
            front[i].matrix_element
        } else {
            V::zero_value()
        };
    assert forall|i: int| 0 <= i < front.len() implies #[trigger] whole(i) == part(i) by {}
    exactness::lemma_total_same(whole, part, front.len());
}

proof fn lemma_element_split<S, V: Amplitude>(list: Seq<(S, Seq<Factor>)>, bra: S)
    requires
        list.len() > 0,
    ensures
        product_laws::element::<S, V>(list, bra) == product_laws::element::<S, V>(
            list.drop_last(),
            bra,
        ).sum(
            if list.last().0 == bra {
                weights::weight::<V>(list.last().1)
            } else {
                V::zero_value()
            },
        ),
{
    let front = list.drop_last();
    let whole = |i: int|
        if list[i].0 == bra {
            weights::weight::<V>(list[i].1)
        } else {
            V::zero_value()
        };
    product_laws::lemma_element_terms::<S, V>(list, bra, whole);
    product_laws::lemma_element_terms::<S, V>(front, bra, whole);
}

/// The matrix elements of outcomes belong to the given state, and those that lead to one state
/// add up to the coefficient times the matrix element of the outcomes.
pub proof fn matrix_elements_weigh_outcomes<S, V: Amplitude>(
    list: Seq<(S, Seq<Factor>)>,
    ket: S,
    coefficient: V,
    bra: S,
)
    requires
        exactness::exact::<V>(),
    ensures
        leading_to(sector_shift::elements(list, ket, coefficient), bra) == coefficient.product(
            product_laws::element::<S, V>(list, bra),
        ),
        forall|i: int|
            0 <= i < sector_shift::elements(list, ket, coefficient).len() ==> (
            #[trigger] sector_shift::elements(list, ket, coefficient)[i]).ket == ket,
    decreases list.len(),
{
    let z = V::zero_value();
    let table = sector_shift::elements(list, ket, coefficient);
    assert(exactness::factors_commute(coefficient, z));
    assert(z.product(coefficient) == z);
    if list.len() > 0 {
        let front = list.drop_last();
        matrix_elements_weigh_outcomes(front, ket, coefficient, bra);
        lemma_element_split::<S, V>(list, bra);
        let before = sector_shift::elements(front, ket, coefficient);
        let weight = weights::weight::<V>(list.last().1);
        let value = coefficient.product(weight);
        let rest = product_laws::element::<S, V>(front, bra);
        let share = if list.last().0 == bra {
            weight
        } else {
            z
        };
        assert(exactness::factors_commute(coefficient, rest));
        assert(exactness::factors_commute(coefficient, share));
        assert(exactness::factors_commute(coefficient, rest.sum(share)));
        assert(exactness::distributes(rest, share, coefficient));
        assert(exactness::distributes(coefficient, rest, share));
        let sum = leading_to(before, bra);
        assert(exactness::commutes(sum, z));
        assert(z.sum(sum) == sum);
        if !value.tiny() {
            lemma_leading_to(table, bra);
            assert(table.drop_last() =~= before);
        }
        assert forall|i: int| 0 <= i < table.len() implies (#[trigger] table[i]).ket == ket by {
            if i < before.len() {
                assert(table[i] == before[i]);
            }
        }
    }
}

proof fn lemma_later<B: Basis, V: Amplitude>(
    basis: &B,
    operator: Seq<char>,
    sites: Seq<usize>,
    coefficient: V,
    first: Seq<B::State>,
    second: Seq<B::State>,
    at: int,
)
    requires
        0 <= at <= second.len(),
    ensures
        sector_shift::elements_from(
            basis,
            operator,
            sites,
            coefficient,
            first + second,
            first.len() + at,
        ) == sector_shift::elements_from(basis, operator, sites, coefficient, second, at),
    decreases second.len() - at,
{
    if at < second.len() {
        lemma_later(basis, operator, sites, coefficient, first, second, at + 1);
        assert((first + second)[first.len() + at] == second[at]);
    }
}

proof fn lemma_earlier<B: Basis, V: Amplitude>(
    basis: &B,
    operator: Seq<char>,
    sites: Seq<usize>,
    coefficient: V,
    first: Seq<B::State>,
    second: Seq<B::State>,
    at: int,
)
    requires
        0 <= at <= first.len(),
    ensures
        sector_shift::elements_from(basis, operator, sites, coefficient, first + second, at)
            == sector_shift::joined(
            sector_shift::elements_from(basis, operator, sites, coefficient, first, at),
            sector_shift::elements_from(basis, operator, sites, coefficient, second, 0),
        ),
    decreases first.len() - at,
{
    let rest = sector_shift::elements_from(basis, operator, sites, coefficient, second, 0);
    if at < first.len() {
        lemma_earlier(basis, operator, sites, coefficient, first, second, at + 1);
        assert((first + second)[at] == first[at]);
        let next = sector_shift::elements_from(basis, operator, sites, coefficient, first, at + 1);
        if let Ok(list) = weights::text_action(basis, first[at], operator, sites) {
            if let Ok(done) = next {
                sector_shift::lemma_joined(
                    sector_shift::elements(list, first[at], coefficient),
                    done,
                    rest,
                );
            }
        }
    } else {
        lemma_later(basis, operator, sites, coefficient, first, second, 0);
        if let Ok(list) = rest {
            assert(Seq::<BraKetTransition<B::State, V>>::empty() + list =~= list);
        }
    }
}

/// The matrix elements on states of two lists are those on the first followed by those on the
/// second.
pub proof fn tables_follow_their_states<B: Basis, V: Amplitude>(
    basis: &B,
    operator: Seq<char>,
    sites: Seq<usize>,
    coefficient: V,
    first: Seq<B::State>,
    second: Seq<B::State>,
)
    ensures
        sector_shift::elements_from(basis, operator, sites, coefficient, first + second, 0)
            == sector_shift::joined(
            sector_shift::elements_from(basis, operator, sites, coefficient, first, 0),
            sector_shift::elements_from(basis, operator, sites, coefficient, second, 0),
        ),
{
    lemma_earlier(basis, operator, sites, coefficient, first, second, 0);
}

/// The table of one state belongs to it, and the elements that lead to another state add up to
/// the coefficient times the matrix element of the operator string.
pub proof fn tables_hold_matrix_elements<B: Basis, V: Amplitude>(
    basis: &B,
    operator: Seq<char>,
    sites: Seq<usize>,
    coefficient: V,
    ket: B::State,
    bra: B::State,
)
    requires
        exactness::exact::<V>(),
    ensures
        match weights::text_action(basis, ket, operator, sites) {
            Ok(list) => match sector_shift::elements_from(
                basis,
                operator,
                sites,
                coefficient,
                seq![ket],
                0,
            ) {
                Ok(table) => {
                    &&& leading_to(table, bra) == coefficient.product(
                        product_laws::element::<B::State, V>(list, bra),
                    )
                    &&& forall|i: int| 0 <= i < table.len() ==> (#[trigger] table[i]).ket == ket
                },
                Err(_) => false,
            },
            Err(fault) => sector_shift::elements_from(
                basis,
                operator,
                sites,
                coefficient,
                seq![ket],
                0,
            ) == Elements::<B::State, V>::Err(fault),
        },
{
    reveal_with_fuel(sector_shift::elements_from, 2);
    if let Ok(list) = weights::text_action(basis, ket, operator, sites) {
        matrix_elements_weigh_outcomes::<B::State, V>(list, ket, coefficient, bra);
        let own = sector_shift::elements(list, ket, coefficient);
        assert(own + Seq::<BraKetTransition<B::State, V>>::empty() =~= own);
    }
}

proof fn lemma_leading_concat<S, V: Scalar>(
    first: Seq<BraKetTransition<S, V>>,
    second: Seq<BraKetTransition<S, V>>,
    bra: S,
)
    requires
        exactness::exact::<V>(),
    ensures
        leading_to(first + second, bra) == leading_to(first, bra).sum(leading_to(second, bra)),
{
    let both = first + second;
    let all = |i: int|
        if both[i].bra == bra {
            both[i].matrix_element
        } else {
            V::zero_value()
        };
    let one = |i: int|
        if first[i].bra == bra {
            first[i].matrix_element
        } else {
            V::zero_value()
        };
    let two = |i: int|
        if second[i].bra == bra {
            second[i].matrix_element
        } else {
            V::zero_value()
        };
    reduction_laws::lemma_continued(all, first.len(), second.len());
    assert forall|i: int| 0 <= i < first.len() implies #[trigger] all(i) == one(i) by {}
    exactness::lemma_total_same(all, one, first.len());
    let later = |k: int| all(first.len() + k);
    assert forall|k: int| 0 <= k < second.len() implies #[trigger] later(k) == two(k) by {}
    exactness::lemma_total_same(later, two, second.len());
}

/// What a coupling of a term contributes to the matrix element between two states: its
/// coefficient times the matrix element of the product on its sites.
pub open spec fn coupling_element<B: Basis, V: Amplitude>(
    basis: &B,
    ket: B::State,
    term: OperatorTerm<V>,
    coupling: int,
    bra: B::State,
) -> V {
    term.terms()[coupling].coefficient.product(
        product_laws::element::<B::State, V>(
            basis.action(
                ket,
                terms::letters(term.factors().operators()),
                term.factors().boundary(),
                term.terms()[coupling].sites@,
            )->Ok_0,
            bra,
        ),
    )
}

/// What all couplings of a term contribute.
pub open spec fn term_element<B: Basis, V: Amplitude>(
    basis: &B,
    ket: B::State,
    term: OperatorTerm<V>,
    bra: B::State,
) -> V {
    exactness::total(
        |c: int| coupling_element(basis, ket, term, c, bra),
        term.terms().len(),
    )
}

proof fn lemma_coupling_elements<B: Basis, V: Amplitude>(
    basis: &B,
    ket: B::State,
    term: &OperatorTerm<V>,
    at: int,
    bra: B::State,
)
    requires
        exactness::exact::<V>(),
        0 <= at <= term.terms().len(),
        model::coupling_elements(basis, ket, term, at) is Ok,
    ensures
        leading_to(model::coupling_elements(basis, ket, term, at)->Ok_0, bra) == exactness::total(
            from_place(|c: int| coupling_element(basis, ket, *term, c, bra), at),
            (term.terms().len() - at) as nat,
        ),
    decreases term.terms().len() - at,
{
    let value = |c: int| coupling_element(basis, ket, *term, c, bra);
    if at < term.terms().len() {
        let outcome = basis.action(
            ket,
            terms::letters(term.factors().operators()),
            term.factors().boundary(),
            term.terms()[at].sites@,
        );
        assert(outcome is Ok);
        let rest = model::coupling_elements(basis, ket, term, at + 1);
        assert(rest is Ok);
        lemma_coupling_elements(basis, ket, term, at + 1, bra);
        let own = sector_shift::elements(outcome->Ok_0, ket, term.terms()[at].coefficient);
        matrix_elements_weigh_outcomes::<B::State, V>(
            outcome->Ok_0,
            ket,
            term.terms()[at].coefficient,
            bra,
        );
        lemma_leading_concat(own, rest->Ok_0, bra);
        lemma_from_place(value, at, term.terms().len() as int);
        assert(value(at) == coupling_element(basis, ket, *term, at, bra));
    }
}

proof fn lemma_ket_elements<B: Basis, V: Amplitude>(
    basis: &B,
    ket: B::State,
    list: Seq<OperatorTerm<V>>,
    at: int,
    bra: B::State,
)
    requires
        exactness::exact::<V>(),
        0 <= at <= list.len(),
        model::ket_elements(basis, ket, list, at) is Ok,
    ensures
        leading_to(model::ket_elements(basis, ket, list, at)->Ok_0, bra) == exactness::total(
            from_place(|t: int| term_element(basis, ket, list[t], bra), at),
            (list.len() - at) as nat,
        ),
    decreases list.len() - at,
{
    let value = |t: int| term_element(basis, ket, list[t], bra);
    if at < list.len() {
        let own = model::coupling_elements(basis, ket, &list[at], 0);
        let rest = model::ket_elements(basis, ket, list, at + 1);
        assert(own is Ok && rest is Ok);
        lemma_coupling_elements(basis, ket, &list[at], 0, bra);
        lemma_ket_elements(basis, ket, list, at + 1, bra);
        lemma_leading_concat(own->Ok_0, rest->Ok_0, bra);
        lemma_from_place(value, at, list.len() as int);
        let couplings = |c: int| coupling_element(basis, ket, list[at], c, bra);
        lemma_whole(couplings, list[at].terms().len());
        assert(value(at) == term_element(basis, ket, list[at], bra));
    }
}

/// The matrix elements of terms on a state that lead to another state add up to the sum, over
/// all couplings of all terms, of the coefficient times the matrix element of the product.
pub proof fn ket_tables_sum_over_couplings<B: Basis, V: Amplitude>(
    basis: &B,
    ket: B::State,
    list: Seq<OperatorTerm<V>>,
    bra: B::State,
)
    requires
        exactness::exact::<V>(),
        model::ket_elements(basis, ket, list, 0) is Ok,
    ensures
        leading_to(model::ket_elements(basis, ket, list, 0)->Ok_0, bra) == exactness::total(
            |t: int| term_element(basis, ket, list[t], bra),
            list.len(),
        ),
{
    lemma_ket_elements(basis, ket, list, 0, bra);
    let value = |t: int| term_element(basis, ket, list[t], bra);
    lemma_whole(value, list.len());
}

/// The outcomes within a list of states have the matrix elements of all outcomes on the states of
/// the list, and none elsewhere.
pub proof fn restricted_outcomes_keep_their_elements<S, V: Amplitude>(
    list: Seq<(S, Seq<Factor>)>,
    listed: Seq<S>,
    bra: S,
)
    requires
        exactness::exact::<V>(),
    ensures
        product_laws::element::<S, V>(photon::within(list, listed), bra) == (if listed.contains(
            bra,
        ) {
            product_laws::element::<S, V>(list, bra)
        } else {
            V::zero_value()
        }),
    decreases list.len(),
{
    let z = V::zero_value();
    assert(z.sum(z) == z);
    if list.len() > 0 {
        let front = list.drop_last();
        restricted_outcomes_keep_their_elements::<S, V>(front, listed, bra);
        lemma_element_split::<S, V>(list, bra);
        let kept = photon::within(list, listed);
        if listed.contains(list.last().0) {
            lemma_element_split::<S, V>(kept, bra);
            assert(kept.drop_last() =~= photon::within(front, listed));
        } else {
            let sum = product_laws::element::<S, V>(front, bra);
            assert(exactness::commutes(sum, z));
            assert(z.sum(sum) == sum);
        }
    }
}

} // verus!
