//! What reduced density matrices say about a part of a system, for exact numbers.

use vstd::prelude::*;
use crate::composition;
use crate::exactness;
use crate::grids;
use crate::measurement;
use crate::operator;
use crate::scalar::{Normed, Scalar};

verus! {

pub open spec fn ratio_adds<V: Normed>(a: V, b: V, total: V::Magnitude) -> bool {
    a.sum(b).ratio(total) == a.ratio(total).sum(b.ratio(total))
}

pub open spec fn ratio_scales<V: Normed>(a: V, b: V, total: V::Magnitude) -> bool {
    a.product(b).ratio(total) == a.product(b.ratio(total))
}

pub open spec fn divides<V: Normed>(
    value: spec_fn(V::Magnitude) -> V,
    total: V::Magnitude,
) -> bool {
    value(total) != V::zero_value() ==> value(total).ratio(total) == V::one_value()
}

pub open spec fn joins<V: Normed>(
    value: spec_fn(V::Magnitude) -> V,
    first: V::Magnitude,
    second: V::Magnitude,
) -> bool {
    value(V::joined(first, second)) == value(first).sum(value(second))
}

/// Magnitudes are numbers: they add as numbers, the square of a number is the number times its
/// conjugate, and a ratio is a quotient.
pub open spec fn measures<V: Normed>(value: spec_fn(V::Magnitude) -> V) -> bool {
    &&& grids::faithful::<V>()
    &&& forall|a: V, b: V, t: V::Magnitude| #[trigger] ratio_adds(a, b, t)
    &&& forall|a: V, b: V, t: V::Magnitude| #[trigger] ratio_scales(a, b, t)
    &&& forall|t: V::Magnitude| #[trigger] divides::<V>(value, t)
    &&& forall|s: V::Magnitude, t: V::Magnitude| #[trigger] joins::<V>(value, s, t)
    &&& forall|a: V| value(#[trigger] a.squared()) == a.product(a.mirror())
    &&& value(V::nothing()) == V::zero_value()
}

/// The product of one component and the conjugate of another.
pub open spec fn coherence<V: Scalar>(state: Seq<V>, left: int, right: int) -> V {
    state[left].product(state[right].mirror())
}

/// The squared length of a vector.
pub open spec fn length_squared<V: Scalar>(state: Seq<V>) -> V {
    exactness::total(|at: int| coherence(state, at, at), state.len())
}

pub proof fn lemma_norm<V: Normed>(value: spec_fn(V::Magnitude) -> V, state: Seq<V>, upto: nat)
    requires
        measures::<V>(value),
    ensures
        value(measurement::norm_total(state, upto)) == exactness::total(
            |at: int| coherence(state, at, at),
            upto,
        ),
    decreases upto,
{
    if upto > 0 {
        lemma_norm(value, state, (upto - 1) as nat);
        let before = measurement::norm_total(state, (upto - 1) as nat);
        let last = state[upto - 1].squared();
        assert(joins::<V>(value, before, last));
    }
}

/// A quotient times its denominator.
pub proof fn lemma_ratio<V: Normed>(value: spec_fn(V::Magnitude) -> V, a: V, total: V::Magnitude)
    requires
        measures::<V>(value),
        value(total) != V::zero_value(),
    ensures
        a.ratio(total).product(value(total)) == a,
        a.product(value(total)).ratio(total) == a,
{
    let v = value(total);
    assert(exactness::factors_commute(a.ratio(total), v));
    assert(ratio_scales(v, a, total));
    assert(exactness::factors_commute(v, a));
    assert(ratio_scales(a, v, total));
    assert(divides::<V>(value, total));
    assert(exactness::factors_commute(a, V::one_value()));
    assert(V::one_value().product(a) == a);
}

proof fn lemma_ratio_total<V: Normed>(
    value: spec_fn(V::Magnitude) -> V,
    terms: spec_fn(int) -> V,
    total: V::Magnitude,
    upto: nat,
)
    requires
        measures::<V>(value),
    ensures
        exactness::total(terms, upto).ratio(total) == exactness::total(
            |i: int| terms(i).ratio(total),
            upto,
        ),
    decreases upto,
{
    let z = V::zero_value();
    if upto == 0 {
        assert(ratio_scales(z, z, total));
        assert(z.product(z) == z);
        assert(z.product(z.ratio(total)) == z);
    } else {
        lemma_ratio_total(value, terms, total, (upto - 1) as nat);
        assert(ratio_adds(
            exactness::total(terms, (upto - 1) as nat),
            terms(upto - 1),
            total,
        ));
    }
}

proof fn lemma_traced<V: Normed>(
    state: Seq<V>,
    environment: int,
    left: int,
    right: int,
    upto: nat,
)
    ensures
        measurement::traced(state, environment, left, right, upto) == exactness::total(
            |k: int|
                coherence(state, left * environment + k, right * environment + k).ratio(
                    measurement::norm_total(state, state.len()),
                ),
            upto,
        ),
    decreases upto,
{
    if upto > 0 {
        lemma_traced(state, environment, left, right, (upto - 1) as nat);
    }
}

/// Every cell of the reduced density matrix, times the squared length of the state, is the sum
/// over the environment of the component on the left times the conjugate of that on the right.
pub proof fn cells_sum_over_the_environment<V: Normed>(
    value: spec_fn(V::Magnitude) -> V,
    state: Seq<V>,
    subsystem: nat,
    environment: nat,
    density: Seq<V>,
    left: int,
    right: int,
)
    requires
        measures::<V>(value),
        state.len() == subsystem * environment,
        length_squared(state) != V::zero_value(),
        measurement::reduces(state, subsystem as int, environment as int, density),
        0 <= left < subsystem,
        0 <= right < subsystem,
    ensures
        density[left * subsystem + right].product(length_squared(state)) == exactness::total(
            |k: int| coherence(state, left * environment + k, right * environment + k),
            environment,
        ),
{
    let total = measurement::norm_total(state, state.len());
    lemma_norm(value, state, state.len());
    lemma_traced(state, environment as int, left, right, environment);
    assert(density[operator::cell_index(subsystem as int, left, right)]
        == measurement::traced(state, environment as int, left, right, environment));
    let terms = |k: int| coherence(state, left * environment + k, right * environment + k);
    lemma_ratio_total(value, terms, total, environment);
    let ratios = |k: int| terms(k).ratio(total);
    let plain = |k: int|
        coherence(state, left * environment + k, right * environment + k).ratio(total);
    assert forall|k: int| 0 <= k < environment implies #[trigger] ratios(k) == plain(k) by {}
    exactness::lemma_total_same(ratios, plain, environment);
    lemma_ratio(value, exactness::total(terms, environment), total);
}

/// What an operator on the first factor makes of a component of a state.
pub open spec fn acted<V: Scalar>(
    operator: spec_fn(int, int) -> V,
    state: Seq<V>,
    subsystem: nat,
    environment: nat,
    row: int,
    k: int,
) -> V {
    exactness::total(
        |l: int| operator(row, l).product(state[l * environment + k]),
        subsystem,
    )
}

/// The expectation value, in a state that need not have length one, of an operator that acts
/// on the first factor alone.
pub open spec fn expected<V: Scalar>(
    operator: spec_fn(int, int) -> V,
    state: Seq<V>,
    subsystem: nat,
    environment: nat,
) -> V {
    exactness::total(
        |row: int|
            exactness::total(
                |k: int|
                    state[row * environment + k].mirror().product(
                        acted(operator, state, subsystem, environment, row, k),
                    ),
                environment,
            ),
        subsystem,
    )
}

/// The trace of an operator times a matrix that is stored row after row.
pub open spec fn traced_with<V: Scalar>(
    operator: spec_fn(int, int) -> V,
    density: Seq<V>,
    subsystem: nat,
) -> V {
    exactness::total(
        |row: int|
            exactness::total(
                |l: int| operator(row, l).product(density[l * subsystem + row]),
                subsystem,
            ),
        subsystem,
    )
}

/// The trace of any operator on the first factor times the reduced density matrix is the
/// expectation value of the operator in the state, divided by the squared length of the state.
pub proof fn reduced_matrices_give_expectations<V: Normed>(
    value: spec_fn(V::Magnitude) -> V,
    operator: spec_fn(int, int) -> V,
    state: Seq<V>,
    subsystem: nat,
    environment: nat,
    density: Seq<V>,
)
    requires
        measures::<V>(value),
        state.len() == subsystem * environment,
        length_squared(state) != V::zero_value(),
        measurement::reduces(state, subsystem as int, environment as int, density),
    ensures
        traced_with(operator, density, subsystem).product(length_squared(state)) == expected(
            operator,
            state,
            subsystem,
            environment,
        ),
{
    let norm = length_squared(state);
    let outer = |row: int|
        exactness::total(
            |l: int| operator(row, l).product(density[l * subsystem + row]),
            subsystem,
        );
    let wanted = |row: int|
        exactness::total(
            |k: int|
                state[row * environment + k].mirror().product(
                    acted(operator, state, subsystem, environment, row, k),
                ),
            environment,
        );
    composition::lemma_scaled(outer, norm, subsystem);
    let scaled_outer = |row: int| outer(row).product(norm);
    assert forall|row: int| 0 <= row < subsystem implies #[trigger] scaled_outer(row)
        == wanted(row) by {
        let cell = |l: int, k: int|
            operator(row, l).product(
                coherence(state, l * environment + k, row * environment + k),
            );
        let inner = |l: int| operator(row, l).product(density[l * subsystem + row]);
        composition::lemma_scaled(inner, norm, subsystem);
        let scaled = |l: int| inner(l).product(norm);
        let by_l = |l: int| exactness::total(|k: int| cell(l, k), environment);
        assert forall|l: int| 0 <= l < subsystem implies #[trigger] scaled(l) == by_l(l) by {
            let a = operator(row, l);
            let d = density[l * subsystem + row];
            cells_sum_over_the_environment(
                value,
                state,
                subsystem,
                environment,
                density,
                l,
                row,
            );
            let terms = |k: int|
                coherence(state, l * environment + k, row * environment + k);
            assert(exactness::factors_regroup(a, d, norm));
            composition::lemma_scaled(terms, a, environment);
            let moved = |k: int| terms(k).product(a);
            let plain = |k: int| cell(l, k);
            assert forall|k: int| 0 <= k < environment implies #[trigger] moved(k)
                == plain(k) by {
                assert(exactness::factors_commute(terms(k), a));
            }
            exactness::lemma_total_same(moved, plain, environment);
            assert(exactness::factors_commute(a, exactness::total(terms, environment)));
        }
        exactness::lemma_total_same(scaled, by_l, subsystem);
        composition::lemma_exchanged(cell, subsystem, environment);
        let by_k = |k: int| exactness::total(|l: int| cell(l, k), subsystem);
        let aim = |k: int|
            state[row * environment + k].mirror().product(
                acted(operator, state, subsystem, environment, row, k),
            );
        assert forall|k: int| 0 <= k < environment implies #[trigger] by_k(k) == aim(k) by {
            let bra = state[row * environment + k].mirror();
            let terms = |l: int| operator(row, l).product(state[l * environment + k]);
            composition::lemma_scaled(terms, bra, subsystem);
            let moved = |l: int| terms(l).product(bra);
            let plain = |l: int| cell(l, k);
            assert forall|l: int| 0 <= l < subsystem implies #[trigger] moved(l)
                == plain(l) by {
                assert(exactness::factors_regroup(
                    operator(row, l),
                    state[l * environment + k],
                    bra,
                ));
            }
            exactness::lemma_total_same(moved, plain, subsystem);
            assert(exactness::factors_commute(bra, exactness::total(terms, subsystem)));
        }
        exactness::lemma_total_same(by_k, aim, environment);
    }
    exactness::lemma_total_same(scaled_outer, wanted, subsystem);
}

/// The state is the product of two states.
pub open spec fn is_product<V: Scalar>(state: Seq<V>, first: Seq<V>, second: Seq<V>) -> bool {
    &&& state.len() == first.len() * second.len()
    &&& forall|l: int, k: int|
        #![trigger first[l], second[k]]
        0 <= l < first.len() && 0 <= k < second.len() ==> state[l * second.len() + k]
            == first[l].product(second[k])
}

proof fn lemma_product_coherence<V: Scalar>(
    state: Seq<V>,
    first: Seq<V>,
    second: Seq<V>,
    left: int,
    right: int,
)
    requires
        grids::faithful::<V>(),
        is_product(state, first, second),
        0 <= left < first.len(),
        0 <= right < first.len(),
    ensures
        exactness::total(
            |k: int|
                coherence(state, left * second.len() + k, right * second.len() + k),
            second.len(),
        ) == coherence(first, left, right).product(length_squared(second)),
{
    let n = second.len();
    let own = |k: int| coherence(second, k, k);
    let c = coherence(first, left, right);
    composition::lemma_scaled(own, c, n);
    let scaled = |k: int| own(k).product(c);
    let terms = |k: int| coherence(state, left * n + k, right * n + k);
    assert forall|k: int| 0 <= k < n implies #[trigger] terms(k) == scaled(k) by {
        let a = first[left];
        let b = second[k];
        let d = first[right];
        let e = second[k];
        assert(grids::mirrors_product(d, e));
        let x = d.mirror();
        let y = e.mirror();
        assert(exactness::factors_regroup(a, b, x.product(y)));
        assert(exactness::factors_regroup(b, x, y));
        assert(exactness::factors_commute(b, x));
        assert(exactness::factors_regroup(x, b, y));
        assert(exactness::factors_regroup(a, x, b.product(y)));
        assert(exactness::factors_commute(a.product(x), b.product(y)));
    }
    exactness::lemma_total_same(terms, scaled, n);
    assert(exactness::factors_commute(c, exactness::total(own, n)));
}

/// The sum over all places is the sum over rows of the sums over the places of a row.
pub proof fn lemma_by_rows<V: Scalar>(terms: spec_fn(int) -> V, rows: nat, columns: nat)
    requires
        exactness::exact::<V>(),
    ensures
        exactness::total(terms, rows * columns) == exactness::total(
            |r: int| exactness::total(|k: int| terms(r * columns + k), columns),
            rows,
        ),
    decreases rows,
{
    let line = |r: int| exactness::total(|k: int| terms(r * columns + k), columns);
    if rows == 0 {
        assert(rows * columns == 0) by (nonlinear_arith)
            requires
                rows == 0,
        ;
    } else {
        let shorter = (rows - 1) as nat;
        lemma_by_rows(terms, shorter, columns);
        assert(rows * columns == shorter * columns + columns) by (nonlinear_arith)
            requires
                rows == shorter + 1,
        ;
        lemma_continued(terms, shorter * columns, columns);
    }
}

pub proof fn lemma_continued<V: Scalar>(terms: spec_fn(int) -> V, start: nat, more: nat)
    requires
        exactness::exact::<V>(),
    ensures
        exactness::total(terms, start + more) == exactness::total(terms, start).sum(
            exactness::total(|k: int| terms(start + k), more),
        ),
    decreases more,
{
    let front = exactness::total(terms, start);
    if more == 0 {
        assert(exactness::commutes(front, V::zero_value()));
        assert(V::zero_value().sum(front) == front);
    } else {
        let shorter = (more - 1) as nat;
        lemma_continued(terms, start, shorter);
        let rest = |k: int| terms(start + k);
        assert(exactness::regroups(
            front,
            exactness::total(rest, shorter),
            terms((start + shorter) as int),
        ));
    }
}

/// The squared length of a product is the product of the squared lengths.
pub proof fn lengths_multiply<V: Scalar>(state: Seq<V>, first: Seq<V>, second: Seq<V>)
    requires
        grids::faithful::<V>(),
        is_product(state, first, second),
    ensures
        length_squared(state) == length_squared(first).product(length_squared(second)),
{
    let m = first.len();
    let n = second.len();
    let norm = length_squared(second);
    let all = |at: int| coherence(state, at, at);
    let own = |l: int| coherence(first, l, l);
    lemma_by_rows(all, m, n);
    let lines = |r: int| exactness::total(|k: int| all(r * n + k), n);
    composition::lemma_scaled(own, norm, m);
    let scaled = |l: int| own(l).product(norm);
    assert forall|l: int| 0 <= l < m implies #[trigger] lines(l) == scaled(l) by {
        lemma_product_coherence(state, first, second, l, l);
        let one = |k: int| all(l * n + k);
        let two = |k: int| coherence(state, l * n + k, l * n + k);
        exactness::lemma_total_same(one, two, n);
    }
    exactness::lemma_total_same(lines, scaled, m);
}

/// The reduced density matrix of a product of two states depends on the first alone: each cell,
/// times the squared length of the first state, is the component on the left times the
/// conjugate of the component on the right.
pub proof fn products_reduce_to_their_factor<V: Normed>(
    value: spec_fn(V::Magnitude) -> V,
    state: Seq<V>,
    first: Seq<V>,
    second: Seq<V>,
    density: Seq<V>,
    left: int,
    right: int,
)
    requires
        measures::<V>(value),
        is_product(state, first, second),
        length_squared(state) != V::zero_value(),
        measurement::reduces(state, first.len() as int, second.len() as int, density),
        0 <= left < first.len(),
        0 <= right < first.len(),
    ensures
        density[left * first.len() + right].product(length_squared(first)) == coherence(
            first,
            left,
            right,
        ),
{
    let d = density[left * first.len() + right];
    let a = length_squared(first);
    let b = length_squared(second);
    let c = coherence(first, left, right);
    lengths_multiply(state, first, second);
    cells_sum_over_the_environment(
        value,
        state,
        first.len(),
        second.len(),
        density,
        left,
        right,
    );
    lemma_product_coherence(state, first, second, left, right);
    assert(exactness::factors_regroup(d, a, b));
    assert(d.product(a).product(b) == c.product(b));
    let t = measurement::norm_total(second, second.len());
    lemma_norm(value, second, second.len());
    if b == V::zero_value() {
        assert(exactness::factors_commute(a, b));
        assert(V::zero_value().product(a) == V::zero_value());
    }
    lemma_ratio(value, d.product(a), t);
    lemma_ratio(value, c, t);
}

/// The diagonal cells of a matrix are magnitudes.
pub open spec fn proper_diagonal<V: Normed>(
    value: spec_fn(V::Magnitude) -> V,
    density: Seq<V>,
    size: nat,
) -> bool {
    forall|x: int|
        0 <= x < size ==> value(
            V::root_value((#[trigger] density[x * size + x]).squared()),
        ) == density[x * size + x]
}

/// The trace of a matrix that is stored row after row.
pub open spec fn diagonal_sum<V: Scalar>(density: Seq<V>, size: nat) -> V {
    exactness::total(|x: int| density[x * size + x], size)
}

proof fn lemma_diagonal<V: Normed>(
    value: spec_fn(V::Magnitude) -> V,
    density: Seq<V>,
    size: nat,
    upto: nat,
)
    requires
        measures::<V>(value),
        proper_diagonal(value, density, size),
        upto <= size,
    ensures
        value(measurement::diagonal_total(density, size as int, upto)) == exactness::total(
            |x: int| density[x * size + x],
            upto,
        ),
    decreases upto,
{
    if upto > 0 {
        lemma_diagonal(value, density, size, (upto - 1) as nat);
        let x = upto - 1;
        let cell = density[x * size + x];
        let before = measurement::diagonal_total(density, size as int, (upto - 1) as nat);
        assert(joins::<V>(value, before, V::root_value(cell.squared())));
        assert(value(V::root_value(density[x * size + x].squared())) == density[x * size + x]);
    }
}

proof fn lemma_density_traced<V: Normed>(
    density: Seq<V>,
    subsystem: int,
    environment: int,
    left: int,
    right: int,
    upto: nat,
)
    ensures
        ({
            let size = subsystem * environment;
            measurement::density_traced(density, subsystem, environment, left, right, upto)
                == exactness::total(
                |k: int|
                    density[(left * environment + k) * size + (right * environment + k)].ratio(
                        measurement::diagonal_total(density, size, size as nat),
                    ),
                upto,
            )
        }),
    decreases upto,
{
    if upto > 0 {
        lemma_density_traced(
            density,
            subsystem,
            environment,
            left,
            right,
            (upto - 1) as nat,
        );
    }
}

/// Every cell of the reduced matrix of a mixed state, times the trace, is the sum over the
/// environment of the cells with the same state of the environment on both sides.
pub proof fn mixtures_sum_over_the_environment<V: Normed>(
    value: spec_fn(V::Magnitude) -> V,
    density: Seq<V>,
    subsystem: nat,
    environment: nat,
    reduced: Seq<V>,
    left: int,
    right: int,
)
    requires
        measures::<V>(value),
        proper_diagonal(value, density, subsystem * environment),
        diagonal_sum(density, subsystem * environment) != V::zero_value(),
        measurement::density_reduces(density, subsystem as int, environment as int, reduced),
        0 <= left < subsystem,
        0 <= right < subsystem,
    ensures
        reduced[left * subsystem + right].product(
            diagonal_sum(density, subsystem * environment),
        ) == exactness::total(
            |k: int|
                density[(left * environment + k) * (subsystem * environment) + (right
                    * environment + k)],
            environment,
        ),
{
    let size = subsystem * environment;
    let total = measurement::diagonal_total(density, size as int, size);
    lemma_diagonal(value, density, size, size);
    lemma_density_traced(
        density,
        subsystem as int,
        environment as int,
        left,
        right,
        environment,
    );
    assert(reduced[operator::cell_index(subsystem as int, left, right)]
        == measurement::density_traced(
        density,
        subsystem as int,
        environment as int,
        left,
        right,
        environment,
    ));
    let terms = |k: int|
        density[(left * environment + k) * size + (right * environment + k)];
    lemma_ratio_total(value, terms, total, environment);
    let ratios = |k: int| terms(k).ratio(total);
    let plain = |k: int|
        density[(left * environment + k) * size + (right * environment + k)].ratio(total);
    assert forall|k: int| 0 <= k < environment implies #[trigger] ratios(k) == plain(k) by {}
    exactness::lemma_total_same(ratios, plain, environment);
    lemma_ratio(value, exactness::total(terms, environment), total);
}

/// A pure state and its density matrix reduce to the same matrix.
pub proof fn pure_states_reduce_alike<V: Normed>(
    value: spec_fn(V::Magnitude) -> V,
    state: Seq<V>,
    density: Seq<V>,
    subsystem: nat,
    environment: nat,
    from_state: Seq<V>,
    from_density: Seq<V>,
    left: int,
    right: int,
)
    requires
        measures::<V>(value),
        state.len() == subsystem * environment,
        length_squared(state) != V::zero_value(),
        forall|x: int, y: int|
            #![trigger state[x], state[y]]
            0 <= x < state.len() && 0 <= y < state.len() ==> density[x * state.len() + y]
                == coherence(state, x, y),
        proper_diagonal(value, density, state.len()),
        measurement::reduces(state, subsystem as int, environment as int, from_state),
        measurement::density_reduces(
            density,
            subsystem as int,
            environment as int,
            from_density,
        ),
        0 <= left < subsystem,
        0 <= right < subsystem,
    ensures
        from_density[left * subsystem + right] == from_state[left * subsystem + right],
{
    let size = state.len();
    let norm = length_squared(state);
    let diagonal = |x: int| density[x * size + x];
    let own = |x: int| coherence(state, x, x);
    assert forall|x: int| 0 <= x < size implies #[trigger] diagonal(x) == own(x) by {
        assert(state[x] == state[x]);
    }
    exactness::lemma_total_same(diagonal, own, size);
    cells_sum_over_the_environment(
        value,
        state,
        subsystem,
        environment,
        from_state,
        left,
        right,
    );
    mixtures_sum_over_the_environment(
        value,
        density,
        subsystem,
        environment,
        from_density,
        left,
        right,
    );
    let first = |k: int| coherence(state, left * environment + k, right * environment + k);
    let second = |k: int|
        density[(left * environment + k) * size + (right * environment + k)];
    assert forall|k: int| 0 <= k < environment implies #[trigger] first(k) == second(k) by {
        operator::lemma_cell_index(subsystem as int, environment as int, left, k);
        operator::lemma_cell_index(subsystem as int, environment as int, right, k);
        let x = left * environment + k;
        let y = right * environment + k;
        assert(state[x] == state[x] && state[y] == state[y]);
    }
    exactness::lemma_total_same(first, second, environment);
    let t = measurement::norm_total(state, size);
    lemma_norm(value, state, size);
    lemma_ratio(value, from_state[left * subsystem + right], t);
    lemma_ratio(value, from_density[left * subsystem + right], t);
}

} // verus!
