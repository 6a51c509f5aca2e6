//! What the selection of eigenvalues and the tracking of states choose.

use vstd::prelude::*;
use crate::composition;
use crate::dynamics::{CycleGrid, CyclePoint};
use crate::exactness;
use crate::measurement;
use crate::operator_laws;
use crate::solve::EigshCounts;
use crate::solve;
use crate::tracking::{Overlap, StateTrackingResult};
use crate::tracking;

verus! {

/// A key is no farther from the wanted end than another.
pub open spec fn no_worse(descending: bool, key: i64, other: i64) -> bool {
    if descending {
        key >= other
    } else {
        key <= other
    }
}

proof fn lemma_listed(keys: Seq<i64>, descending: bool, order: Seq<usize>, index: usize) -> (at: int)
    requires
        solve::ranking(keys, descending, order),
        index < keys.len(),
    ensures
        0 <= at < order.len(),
        order[at] == index,
{
    solve::lemma_ranking_complete(keys, descending, order, index);
    order.index_of(index)
}

/// As many keys are selected as asked for, no key that is left out is closer to the wanted end
/// than a selected one, and the selected ones stand in order.
pub proof fn selections_hold_the_extreme_keys(
    keys: Seq<i64>,
    descending: bool,
    count: nat,
    chosen: Seq<usize>,
    at: int,
    later: int,
    other: usize,
)
    requires
        solve::leading(keys, descending, count, chosen),
        count <= keys.len(),
        0 <= at <= later < chosen.len(),
        other < keys.len(),
        !chosen.contains(other),
    ensures
        chosen.len() == count,
        chosen[at] < keys.len(),
        at < later ==> chosen[at] != chosen[later],
        no_worse(descending, keys[chosen[at] as int], keys[chosen[later] as int]),
        no_worse(descending, keys[chosen[later] as int], keys[other as int]),
{
    let order = choose|order: Seq<usize>| #[trigger]
        solve::ranking(keys, descending, order) && chosen == order.take(
            if count <= order.len() {
                count as int
            } else {
                order.len() as int
            },
        );
    let place = lemma_listed(keys, descending, order, other);
    if place < count {
        assert(chosen[place] == other);
    }
    assert(chosen[at] == order[at]);
    assert(chosen[later] == order[later]);
    if at < later {
        assert(solve::ranks_before(keys, descending, order[at], order[later]));
    }
    assert(solve::ranks_before(keys, descending, order[later], order[place]));
}

/// Half of the keys, rounded down, are taken from below and the rest from above: a key that is
/// left out lies between them.
pub proof fn both_ends_enclose_the_others(
    keys: Seq<i64>,
    count: nat,
    chosen: Seq<usize>,
    low: int,
    high: int,
    other: usize,
)
    requires
        solve::both_ends(keys, count as int, chosen),
        count <= keys.len(),
        0 <= low < count / 2,
        count / 2 <= high < count,
        other < keys.len(),
        !chosen.contains(other),
    ensures
        chosen.len() == count,
        keys[chosen[low] as int] <= keys[other as int] <= keys[chosen[high] as int],
{
    let half = count as int / 2;
    let order = choose|order: Seq<usize>| #[trigger]
        solve::ranking(keys, false, order) && chosen == order.take(half) + order.subrange(
            order.len() - (count - half),
            order.len() as int,
        );
    let start = order.len() - (count - half);
    let place = lemma_listed(keys, false, order, other);
    assert(0 <= half <= start);
    if place < half {
        assert(chosen[place] == other);
    }
    if place >= start {
        assert(chosen[half + (place - start)] == other);
    }
    assert(chosen[low] == order[low]);
    let top = start + (high - half);
    assert(chosen[high] == order[top]);
    assert(solve::ranks_before(keys, false, order[low], order[place]));
    assert(solve::ranks_before(keys, false, order[place], order[top]));
}

/// A subspace fits into the space, the iterations and the request, and fills one of them.
pub proof fn subspaces_fill_what_they_may(counts: EigshCounts, dimension: usize)
    ensures
        counts.effective(dimension) <= dimension,
        counts.effective(dimension) <= counts.max_iterations,
        counts.krylov_dimension matches Some(size) ==> counts.effective(dimension) <= size,
        counts.krylov_dimension matches Some(size) ==> (size <= dimension && size
            <= counts.max_iterations ==> counts.effective(dimension) == size),
        counts.krylov_dimension is None && dimension <= 48 ==> counts.effective(dimension) == (
        if counts.max_iterations < dimension {
            counts.max_iterations as int
        } else {
            dimension as int
        }),
        counts.krylov_dimension is None && counts.eigenpairs < dimension && counts.eigenpairs
            < counts.max_iterations ==> counts.effective(dimension) > counts.eigenpairs,
{
}

proof fn lemma_exchanged_weight(
    weights: Seq<Vec<i64>>,
    places: Seq<usize>,
    row: int,
    place: usize,
    upto: nat,
)
    requires
        0 <= row < places.len(),
        upto <= places.len(),
    ensures
        tracking::total_weight(weights, places.update(row, place), upto) == tracking::total_weight(
            weights,
            places,
            upto,
        ) + (if row < upto {
            weights[row]@[place as int] - weights[row]@[places[row] as int]
        } else {
            0
        }),
    decreases upto,
{
    if upto > 0 {
        lemma_exchanged_weight(weights, places, row, place, (upto - 1) as nat);
    }
}

/// In the heaviest assignment no two rows have the same column, and exchanging the columns of two
/// rows gains nothing.
pub proof fn exchanges_gain_nothing(
    weights: Seq<Vec<i64>>,
    places: Seq<usize>,
    i: int,
    j: int,
)
    requires
        tracking::heaviest(weights, places),
        0 <= i < j < weights.len(),
    ensures
        places.len() == weights.len(),
        places[i] != places[j],
        places[i] < weights.len(),
        places[j] < weights.len(),
        weights[i]@[places[i] as int] + weights[j]@[places[j] as int] >= weights[i]@[places[j] as int]
            + weights[j]@[places[i] as int],
{
    let rank = weights.len();
    let once = places.update(i, places[j]);
    let other = once.update(j, places[i]);
    assert(places[i] != places[j]);
    assert forall|k: int, l: int| 0 <= k < l < rank implies (#[trigger] other[k]) != (
    #[trigger] other[l]) by {
        let x = if k == i {
            j
        } else if k == j {
            i
        } else {
            k
        };
        let y = if l == i {
            j
        } else if l == j {
            i
        } else {
            l
        };
        assert(other[k] == places[x]);
        assert(other[l] == places[y]);
        if x < y {
            assert(places[x] != places[y]);
        } else {
            assert(places[y] != places[x]);
        }
    }
    assert forall|k: int| 0 <= k < rank implies (#[trigger] other[k]) < rank by {
        assert(places[i] < rank && places[j] < rank && places[k] < rank);
    }
    assert(tracking::assignment(other, rank));
    lemma_exchanged_weight(weights, places, i, places[j], rank);
    lemma_exchanged_weight(weights, once, j, places[i], rank);
    assert(tracking::total_weight(weights, other, rank) <= tracking::total_weight(
        weights,
        places,
        rank,
    ));
}

/// The size of the overlap of a state of one frame with a state of another.
pub open spec fn overlap_size<V: Overlap>(
    previous: Seq<Vec<V>>,
    current: Seq<Vec<V>>,
    i: int,
    j: int,
) -> V::Size {
    measurement::inner_product(previous[i]@, current[j]@, previous[i]@.len()).size_value()
}

/// Tracked states have partners of their own, and exchanging the partners of two of them makes
/// the overlaps no larger on the scale of the largest.
pub proof fn tracked_states_overlap_most<V: Overlap>(
    previous: Seq<Vec<V>>,
    current: Seq<Vec<V>>,
    table: Seq<Vec<V::Size>>,
    weights: Seq<Vec<i64>>,
    tolerance: V::Size,
    found: StateTrackingResult<V>,
    i: int,
    j: int,
)
    requires
        tracking::tracks(previous, current, table, weights, tolerance, found),
        previous.len() == current.len(),
        0 <= i < j < previous.len(),
    ensures
        ({
            let largest = tracking::peak::<V>(table, table.len());
            let a = found.permutation@[i] as int;
            let b = found.permutation@[j] as int;
            &&& a != b
            &&& V::heft(overlap_size(previous, current, i, a), largest) + V::heft(
                overlap_size(previous, current, j, b),
                largest,
            ) >= V::heft(overlap_size(previous, current, i, b), largest) + V::heft(
                overlap_size(previous, current, j, a),
                largest,
            )
        }),
{
    let rank = previous.len();
    let places = found.permutation@;
    exchanges_gain_nothing(weights, places, i, j);
    let a = places[i] as int;
    let b = places[j] as int;
    assert(table[i]@.len() == rank && table[j]@.len() == rank);
    assert(weights[i]@.len() == rank && weights[j]@.len() == rank);
    assert(weights[i]@[a] == V::heft(table[i]@[a], tracking::peak::<V>(table, table.len())));
    assert(weights[i]@[b] == V::heft(table[i]@[b], tracking::peak::<V>(table, table.len())));
    assert(weights[j]@[a] == V::heft(table[j]@[a], tracking::peak::<V>(table, table.len())));
    assert(weights[j]@[b] == V::heft(table[j]@[b], tracking::peak::<V>(table, table.len())));
}

/// The phase turns a number into its size.
pub open spec fn gauges<V: Overlap>(value: spec_fn(V::Size) -> V) -> bool {
    forall|a: V| a.product(#[trigger] a.gauge_value()) == value(a.size_value())
}

/// A tracked state times its phase has the reported overlap with the state that it belongs to.
pub proof fn phases_align_states<V: Overlap>(
    value: spec_fn(V::Size) -> V,
    previous: Seq<Vec<V>>,
    current: Seq<Vec<V>>,
    tolerance: V::Size,
    found: StateTrackingResult<V>,
    i: int,
    aligned: Seq<V>,
)
    requires
        exactness::exact::<V>(),
        gauges(value),
        tracking::belongs(previous, current, tolerance, found),
        previous.len() == current.len(),
        0 <= i < previous.len(),
        aligned.len() == previous[i]@.len(),
        forall|k: int|
            0 <= k < aligned.len() ==> #[trigger] aligned[k] == current[found.permutation@[i] as int]@[k].product(
                found.phases@[i],
            ),
    ensures
        measurement::inner_product(previous[i]@, aligned, aligned.len()) == value(
            found.overlaps@[i],
        ),
{
    let (table, weights) = choose|table: Seq<Vec<V::Size>>, weights: Seq<Vec<i64>>| #[trigger]
        tracking::tracks(previous, current, table, weights, tolerance, found);
    let n = aligned.len();
    let place = found.permutation@[i] as int;
    let left = previous[i]@;
    let right = current[place]@;
    let phase = found.phases@[i];
    operator_laws::lemma_inner(left, aligned, n);
    operator_laws::lemma_inner(left, right, n);
    let terms = |k: int| left[k].mirror().product(right[k]);
    composition::lemma_scaled(terms, phase, n);
    let scaled = |k: int| terms(k).product(phase);
    let own = |k: int| left[k].mirror().product(aligned[k]);
    assert forall|k: int| 0 <= k < n implies #[trigger] own(k) == scaled(k) by {
        assert(aligned[k] == right[k].product(phase));
        assert(exactness::factors_regroup(left[k].mirror(), right[k], phase));
    }
    exactness::lemma_total_same(own, scaled, n);
    assert(place < previous.len());
    assert(phase == tracking::overlap(previous, current, i, place).gauge_value());
    assert(table[i]@.len() == current.len());
    assert(table[i]@[place] == tracking::overlap(previous, current, i, place).size_value());
}

proof fn lemma_unclear<V: Overlap>(
    table: Seq<Vec<V::Size>>,
    places: Seq<usize>,
    tolerance: V::Size,
    upto: nat,
    i: int,
)
    requires
        upto <= usize::MAX,
        0 <= i <= usize::MAX,
    ensures
        tracking::unclear_rows::<V>(table, places, tolerance, upto).contains(i as usize) <==> i
            < upto && tracking::unclear::<V>(table, places, tolerance, i),
    decreases upto,
{
    if upto > 0 {
        let shorter = (upto - 1) as nat;
        lemma_unclear::<V>(table, places, tolerance, shorter, i);
        let before = tracking::unclear_rows::<V>(table, places, tolerance, shorter);
        if tracking::unclear::<V>(table, places, tolerance, upto - 1) {
            let last = (upto - 1) as usize;
            let list = before.push(last);
            assert(list[before.len() as int] == last);
            if before.contains(i as usize) {
                let k = choose|k: int| 0 <= k < before.len() && before[k] == i as usize;
                assert(list[k] == i as usize);
            }
            if list.contains(i as usize) && i != upto - 1 {
                let k = choose|k: int| 0 <= k < list.len() && list[k] == i as usize;
                assert(before[k] == i as usize);
            }
        }
    }
}

/// A state is reported as ambiguous exactly where its reported overlap hardly exceeds nothing or
/// the overlap with a state that it was not given.
pub proof fn ambiguous_states_have_rivals<V: Overlap>(
    previous: Seq<Vec<V>>,
    current: Seq<Vec<V>>,
    tolerance: V::Size,
    found: StateTrackingResult<V>,
    i: int,
)
    requires
        tracking::belongs(previous, current, tolerance, found),
        previous.len() == current.len() <= usize::MAX,
        0 <= i < previous.len(),
    ensures
        found.ambiguous@.contains(i as usize) <==> (V::hardly_exceeds(
            found.overlaps@[i],
            V::no_size_value(),
            tolerance,
        ) || exists|j: int|
            0 <= j < current.len() && j != found.permutation@[i] && V::hardly_exceeds(
                found.overlaps@[i],
                #[trigger] overlap_size(previous, current, i, j),
                tolerance,
            )),
{
    let (table, weights) = choose|table: Seq<Vec<V::Size>>, weights: Seq<Vec<i64>>| #[trigger]
        tracking::tracks(previous, current, table, weights, tolerance, found);
    let places = found.permutation@;
    lemma_unclear::<V>(table, places, tolerance, previous.len(), i);
    assert(table[i]@.len() == current.len());
    assert forall|j: int| 0 <= j < current.len() implies #[trigger] table[i]@[j] == overlap_size(
        previous,
        current,
        i,
        j,
    ) by {}
    if tracking::unclear::<V>(table, places, tolerance, i) {
        if !V::hardly_exceeds(table[i]@[places[i] as int], V::no_size_value(), tolerance) {
            let j = choose|j: int|
                0 <= j < table[i]@.len() && j != places[i] && V::hardly_exceeds(
                    table[i]@[places[i] as int],
                    #[trigger] table[i]@[j],
                    tolerance,
                );
            assert(table[i]@[j] == overlap_size(previous, current, i, j));
        }
    }
    if exists|j: int|
        0 <= j < current.len() && j != places[i] && V::hardly_exceeds(
            found.overlaps@[i],
            #[trigger] overlap_size(previous, current, i, j),
            tolerance,
        ) {
        let j = choose|j: int|
            0 <= j < current.len() && j != places[i] && V::hardly_exceeds(
                found.overlaps@[i],
                #[trigger] overlap_size(previous, current, i, j),
                tolerance,
            );
        assert(table[i]@[j] == overlap_size(previous, current, i, j));
    }
}

/// A grid begins at the start of its first period, and goes on step by step: after the last step
/// of a period follows the start of the next one.
pub proof fn grids_go_on_step_by_step(
    grid: CycleGrid,
    index: usize,
    point: CyclePoint,
    next: CyclePoint,
)
    requires
        grid.wf(),
        index + 1 < grid.spec_points(),
        grid.passes(index, point),
        grid.passes((index + 1) as usize, next),
    ensures
        index == 0 ==> point.cycle == 0 && point.step == 0,
        if point.step + 1 < grid.spec_points_per_cycle() {
            next.cycle == point.cycle && next.step == point.step + 1
        } else {
            next.cycle == point.cycle + 1 && next.step == 0
        },
{
    let n = grid.spec_points_per_cycle() as int;
    let a = point.cycle as int;
    let b = next.cycle as int;
    let s = point.step as int;
    let t = next.step as int;
    assert(index == 0 ==> a == 0 && s == 0) by (nonlinear_arith)
        requires
            index == a * n + s,
            0 <= s < n,
            0 <= a,
    ;
    if s + 1 < n {
        vstd::arithmetic::div_mod::lemma_fundamental_div_mod_converse(index + 1, n, a, s + 1);
    } else {
        assert((a + 1) * n == a * n + n) by (nonlinear_arith);
        vstd::arithmetic::div_mod::lemma_fundamental_div_mod_converse(index + 1, n, a + 1, 0);
    }
    vstd::arithmetic::div_mod::lemma_fundamental_div_mod_converse(index + 1, n, b, t);
}

} // verus!
