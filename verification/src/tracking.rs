//! Which states of one frame belong to which states of another.

use vstd::prelude::*;
use crate::error::{QmbedError, Result};
use crate::measurement;
use crate::scalar::{Multiplicity, Scalar};

verus! {

/// The largest weight of a pair.
pub const WEIGHT_LIMIT: i64 = 0x1000_0000_0000_0000;

/// Every row has a column of its own.
pub open spec fn assignment(places: Seq<usize>, rank: nat) -> bool {
    &&& places.len() == rank
    &&& forall|i: int| 0 <= i < rank ==> (#[trigger] places[i]) < rank
    &&& forall|i: int, j: int|
        0 <= i < j < rank ==> (#[trigger] places[i]) != (#[trigger] places[j])
}

/// The sum of the weights of the first rows with their columns.
pub open spec fn total_weight(weights: Seq<Vec<i64>>, places: Seq<usize>, upto: nat) -> int
    decreases upto,
{
    if upto == 0 {
        0
    } else {
        total_weight(weights, places, (upto - 1) as nat) + weights[upto - 1]@[places[upto - 1] as int]
    }
}

/// Every row has a column of its own, and no other assignment has a larger sum of weights.
pub open spec fn heaviest(weights: Seq<Vec<i64>>, places: Seq<usize>) -> bool {
    &&& assignment(places, weights.len())
    &&& forall|other: Seq<usize>|
        assignment(other, weights.len()) ==> #[trigger] total_weight(
            weights,
            other,
            weights.len(),
        ) <= total_weight(weights, places, weights.len())
}

/// A square table of weights within the limits.
pub open spec fn weighable(weights: Seq<Vec<i64>>) -> bool {
    forall|i: int|
        0 <= i < weights.len() ==> (#[trigger] weights[i])@.len() == weights.len() && forall|j: int|
            0 <= j < weights.len() ==> 0 <= #[trigger] weights[i]@[j] <= WEIGHT_LIMIT
}

spec fn cost(weights: Seq<Vec<i64>>, i: int, j: int) -> int {
    -(weights[i]@[j] as int)
}

/// The sum of the first values.
spec fn sum_of(values: Seq<int>, upto: nat) -> int
    decreases upto,
{
    if upto == 0 {
        0
    } else {
        sum_of(values, (upto - 1) as nat) + values[upto - 1]
    }
}

/// The values at given places.
spec fn picked(values: Seq<int>, places: Seq<usize>) -> Seq<int> {
    Seq::new(places.len(), |i: int| values[places[i] as int])
}

proof fn lemma_sum_update(values: Seq<int>, at: int, value: int, upto: nat)
    requires
        upto <= values.len(),
        0 <= at < values.len(),
    ensures
        sum_of(values.update(at, value), upto) == sum_of(values, upto) + (if at < upto {
            value - values[at]
        } else {
            0
        }),
    decreases upto,
{
    if upto > 0 {
        lemma_sum_update(values, at, value, (upto - 1) as nat);
    }
}

proof fn lemma_sum_same(first: Seq<int>, second: Seq<int>, upto: nat)
    requires
        upto <= first.len(),
        upto <= second.len(),
        forall|i: int| 0 <= i < upto ==> first[i] == #[trigger] second[i],
    ensures
        sum_of(first, upto) == sum_of(second, upto),
    decreases upto,
{
    if upto > 0 {
        lemma_sum_same(first, second, (upto - 1) as nat);
    }
}

/// There are at most as many different values as the range has.
proof fn lemma_crowded(values: Seq<int>, bound: nat)
    requires
        forall|i: int| 0 <= i < values.len() ==> 0 <= #[trigger] values[i] < bound,
        forall|i: int, j: int|
            0 <= i < j < values.len() ==> (#[trigger] values[i]) != (#[trigger] values[j]),
    ensures
        values.len() <= bound,
{
    assert(values.no_duplicates());
    values.unique_seq_to_set();
    let range = vstd::set_lib::set_int_range(0, bound as int);
    vstd::set_lib::lemma_int_range(0, bound as int);
    assert(values.to_set().subset_of(range));
    vstd::set_lib::lemma_len_subset(values.to_set(), range);
}

/// Every column is taken.
proof fn lemma_taken(places: Seq<usize>, rank: nat, column: int) -> (row: int)
    requires
        assignment(places, rank),
        0 <= column < rank,
    ensures
        0 <= row < rank,
        places[row] == column,
{
    if forall|i: int| 0 <= i < rank ==> #[trigger] places[i] != column {
        let values = Seq::new((rank + 1) as nat, |i: int| if i < rank {
            places[i] as int
        } else {
            column
        });
        lemma_crowded(values, rank);
    }
    choose|i: int| 0 <= i < rank && #[trigger] places[i] == column
}

/// The values at the places of an assignment add up to the sum of all.
proof fn lemma_picked_sum(values: Seq<int>, places: Seq<usize>, rank: nat)
    requires
        values.len() >= rank,
        assignment(places, rank),
    ensures
        sum_of(picked(values, places), rank) == sum_of(values, rank),
    decreases rank,
{
    if rank > 0 {
        let last = rank - 1;
        let row = lemma_taken(places, rank, last);
        let moved = places.update(row, places[last]);
        let shorter = moved.take(last);
        assert forall|i: int, j: int| 0 <= i < j < last implies (#[trigger] shorter[i])
            != (#[trigger] shorter[j]) by {
            assert(places[i] != places[j]);
            if i != row {
                assert(places[i] != places[last]);
            }
            if j != row {
                assert(places[j] != places[last]);
            }
        }
        assert forall|i: int| 0 <= i < last implies (#[trigger] shorter[i]) < last by {
            if i == row {
                assert(places[row] != places[last]);
            } else {
                if i < row {
                    assert(places[i] != places[row]);
                } else {
                    assert(places[row] != places[i]);
                }
            }
        }
        lemma_picked_sum(values, shorter, last as nat);
        let full = picked(values, places);
        assert(picked(values, moved) =~= full.update(row, full[last]));
        lemma_sum_update(full, row, full[last], last as nat);
        lemma_sum_same(picked(values, shorter), picked(values, moved), last as nat);
        assert(full[row] == values[last]);
        if row == last {
            assert(sum_of(full, rank) == sum_of(full, last as nat) + full[last]);
        } else {
            assert(sum_of(full, rank) == sum_of(full, last as nat) + full[last]);
        }
    }
}

/// The potentials stay below the costs in the first rows.
spec fn feasible(weights: Seq<Vec<i64>>, u: Seq<i64>, v: Seq<i64>, rows: int) -> bool {
    forall|i: int, j: int|
        0 <= i < rows && 0 <= j < weights.len() ==> u[i] + v[j] <= #[trigger] cost(weights, i, j)
}

/// The row of a column is among the first ones, and the potentials meet its cost.
spec fn tight(
    weights: Seq<Vec<i64>>,
    u: Seq<i64>,
    v: Seq<i64>,
    owner: Seq<Option<usize>>,
    rows: int,
    j: int,
) -> bool {
    owner[j] matches Some(i) ==> i < rows && u[i as int] + v[j] == cost(weights, i as int, j)
}

spec fn owns(owner: Seq<Option<usize>>, hole: int, j: int, i: int) -> bool {
    0 <= j < owner.len() && j != hole && owner[j] is Some && owner[j]->0 == i
}

/// Some column but one holds the row.
spec fn placed(owner: Seq<Option<usize>>, hole: int, i: int) -> bool {
    exists|j: int| #[trigger] owns(owner, hole, j, i)
}

spec fn apart(owner: Seq<Option<usize>>, hole: int, j: int, k: int) -> bool {
    j != hole && k != hole && j != k && owner[j] is Some ==> owner[j] != owner[k]
}

/// The columns but one hold each of the first rows once, at its cost.
spec fn matching(
    weights: Seq<Vec<i64>>,
    u: Seq<i64>,
    v: Seq<i64>,
    owner: Seq<Option<usize>>,
    hole: int,
    rows: int,
) -> bool {
    &&& owner.len() == weights.len()
    &&& forall|j: int|
        0 <= j < owner.len() && j != hole ==> #[trigger] tight(weights, u, v, owner, rows, j)
    &&& forall|j: int, k: int|
        0 <= j < owner.len() && 0 <= k < owner.len() ==> #[trigger] apart(owner, hole, j, k)
    &&& forall|i: int| 0 <= i < rows ==> #[trigger] placed(owner, hole, i)
}

/// The potentials of columns are not positive, and nothing where the column is free.
spec fn settled(v: Seq<i64>, owner: Seq<Option<usize>>) -> bool {
    forall|j: int|
        0 <= j < v.len() ==> -WEIGHT_LIMIT <= #[trigger] v[j] <= 0 && (owner[j] is None ==> v[j]
            == 0)
}

spec fn bounded(u: Seq<i64>, rows: int) -> bool {
    forall|i: int| 0 <= i < rows ==> -WEIGHT_LIMIT <= #[trigger] u[i] <= 0
}

/// The first rows are assigned at least cost.
spec fn ready(
    weights: Seq<Vec<i64>>,
    u: Seq<i64>,
    v: Seq<i64>,
    owner: Seq<Option<usize>>,
    rows: int,
) -> bool {
    &&& 0 <= rows <= weights.len()
    &&& u.len() == weights.len()
    &&& v.len() == weights.len()
    &&& feasible(weights, u, v, rows)
    &&& matching(weights, u, v, owner, -1, rows)
    &&& settled(v, owner)
    &&& bounded(u, rows)
}

/// The row from which a column was reached: that of another column, or the new one.
spec fn source(owner: Seq<Option<usize>>, row: int, from: Option<usize>) -> int {
    match from {
        Some(k) => owner[k as int]->0 as int,
        None => row,
    }
}

/// What is left between the potentials and the cost of a pair.
spec fn gap(weights: Seq<Vec<i64>>, u: Seq<i64>, v: Seq<i64>, i: int, j: int) -> int {
    cost(weights, i, j) - u[i] - v[j]
}

/// A column stands in the list of columns before a place.
spec fn earlier(order: Seq<int>, upto: int, k: int) -> bool {
    exists|q: int| 0 <= q < upto && #[trigger] order[q] == k
}

/// A column that was reached: it has a row, was reached at its cost, and from an earlier
/// column.
spec fn reached(
    weights: Seq<Vec<i64>>,
    u: Seq<i64>,
    v: Seq<i64>,
    owner: Seq<Option<usize>>,
    row: int,
    used: Seq<bool>,
    from: Seq<Option<usize>>,
    order: Seq<int>,
    m: int,
) -> bool {
    let j = order[m];
    &&& 0 <= j < owner.len()
    &&& used[j]
    &&& owner[j] is Some
    &&& gap(weights, u, v, source(owner, row, from[j]), j) == 0
    &&& match from[j] {
        Some(k) => earlier(order, m, k as int),
        None => true,
    }
}

/// A column that was not reached: its slack is the least gap from a reached row.
spec fn waiting(
    weights: Seq<Vec<i64>>,
    u: Seq<i64>,
    v: Seq<i64>,
    owner: Seq<Option<usize>>,
    row: int,
    used: Seq<bool>,
    slack: Seq<i64>,
    from: Seq<Option<usize>>,
    j: int,
) -> bool {
    &&& slack[j] >= 0
    &&& slack[j] == gap(weights, u, v, source(owner, row, from[j]), j)
    &&& slack[j] <= gap(weights, u, v, row, j)
    &&& match from[j] {
        Some(k) => k < owner.len() && used[k as int],
        None => true,
    }
}

/// The slack of a column is at most the gap from the row of a reached column.
spec fn least(
    weights: Seq<Vec<i64>>,
    u: Seq<i64>,
    v: Seq<i64>,
    owner: Seq<Option<usize>>,
    slack: Seq<i64>,
    k: int,
    j: int,
) -> bool {
    slack[j] <= gap(weights, u, v, owner[k]->0 as int, j)
}

/// The search for a free column from a new row.
spec fn tree(
    weights: Seq<Vec<i64>>,
    u: Seq<i64>,
    v: Seq<i64>,
    owner: Seq<Option<usize>>,
    row: int,
    used: Seq<bool>,
    slack: Seq<i64>,
    from: Seq<Option<usize>>,
    order: Seq<int>,
) -> bool {
    let n = weights.len() as int;
    &&& 0 <= row < n
    &&& u.len() == n
    &&& v.len() == n
    &&& used.len() == n
    &&& slack.len() == n
    &&& from.len() == n
    &&& feasible(weights, u, v, row + 1)
    &&& matching(weights, u, v, owner, -1, row)
    &&& settled(v, owner)
    &&& bounded(u, row + 1)
    &&& order.no_duplicates()
    &&& forall|m: int|
        0 <= m < order.len() ==> #[trigger] reached(weights, u, v, owner, row, used, from, order, m)
    &&& forall|j: int| 0 <= j < n && #[trigger] used[j] ==> earlier(order, order.len() as int, j)
    &&& forall|j: int|
        0 <= j < n && !used[j] ==> #[trigger] waiting(
            weights,
            u,
            v,
            owner,
            row,
            used,
            slack,
            from,
            j,
        )
    &&& forall|k: int, j: int|
        0 <= k < n && 0 <= j < n && used[k] && !used[j] ==> #[trigger] least(
            weights,
            u,
            v,
            owner,
            slack,
            k,
            j,
        )
}

/// Some column is free while not all rows are assigned.
proof fn lemma_free(
    weights: Seq<Vec<i64>>,
    u: Seq<i64>,
    v: Seq<i64>,
    owner: Seq<Option<usize>>,
    rows: int,
) -> (column: int)
    requires
        0 <= rows < weights.len(),
        matching(weights, u, v, owner, -1, rows),
    ensures
        0 <= column < owner.len(),
        owner[column] is None,
{
    if forall|j: int| 0 <= j < owner.len() ==> #[trigger] owner[j] is Some {
        let values = Seq::new(owner.len(), |j: int| owner[j]->0 as int);
        assert forall|j: int| 0 <= j < values.len() implies 0 <= #[trigger] values[j] < rows by {
            assert(owner[j] is Some);
            assert(tight(weights, u, v, owner, rows, j));
        }
        assert forall|i: int, j: int| 0 <= i < j < values.len() implies (#[trigger] values[i]) != (
        #[trigger] values[j]) by {
            assert(owner[i] is Some && owner[j] is Some);
            assert(apart(owner, -1, i, j));
        }
        lemma_crowded(values, rows as nat);
    }
    choose|j: int| 0 <= j < owner.len() && #[trigger] owner[j] is None
}

/// The potentials after a step of the search: those of the reached rows rise, those of
/// the reached columns fall, and the slack of the others shrinks.
spec fn stepped(
    u: Seq<i64>,
    v: Seq<i64>,
    slack: Seq<i64>,
    owner: Seq<Option<usize>>,
    row: int,
    used: Seq<bool>,
    delta: int,
    next_u: Seq<i64>,
    next_v: Seq<i64>,
    next_slack: Seq<i64>,
    upto: int,
) -> bool {
    &&& next_u.len() == u.len()
    &&& next_v.len() == v.len()
    &&& next_slack.len() == slack.len()
    &&& next_u[row] == u[row] + delta
    &&& forall|j: int|
        0 <= j < owner.len() ==> (#[trigger] owner[j] matches Some(i) ==> next_u[i as int]
            == u[i as int] + (if used[j] && j < upto {
            delta
        } else {
            0
        }))
    &&& forall|j: int|
        0 <= j < v.len() ==> #[trigger] next_v[j] == v[j] - (if used[j] && j < upto {
            delta
        } else {
            0
        })
    &&& forall|j: int|
        0 <= j < slack.len() ==> #[trigger] next_slack[j] == slack[j] - (if !used[j] && j < upto {
            delta
        } else {
            0
        })
}

fn step(
    weights: &Vec<Vec<i64>>,
    u: &mut Vec<i64>,
    v: &mut Vec<i64>,
    slack: &mut Vec<i64>,
    owner: &Vec<Option<usize>>,
    row: usize,
    used: &Vec<bool>,
    delta: i64,
)
    requires
        row < old(u)@.len(),
        old(u)@.len() == weights@.len(),
        old(v)@.len() == weights@.len(),
        old(slack)@.len() == weights@.len(),
        used@.len() == weights@.len(),
        matching(weights@, old(u)@, old(v)@, owner@, -1, row as int),
        settled(old(v)@, owner@),
        bounded(old(u)@, row + 1),
        0 <= delta <= 2 * WEIGHT_LIMIT,
        forall|j: int|
            0 <= j < used@.len() && !used@[j] ==> delta <= #[trigger] old(slack)@[j],
    ensures
        stepped(
            old(u)@,
            old(v)@,
            old(slack)@,
            owner@,
            row as int,
            used@,
            delta as int,
            final(u)@,
            final(v)@,
            final(slack)@,
            weights@.len() as int,
        ),
{
    let n: usize = weights.len();
    let ghost u0 = u@;
    let ghost v0 = v@;
    let ghost s0 = slack@;
    proof {
        assert forall|j: int| 0 <= j < owner@.len() implies (#[trigger] owner@[j] matches Some(i)
            ==> i < row) by {
            assert(tight(weights@, u0, v0, owner@, row as int, j));
        }
    }
    let raised: i64 = u[row] + delta;
    u.set(row, raised);
    let mut k: usize = 0;
    while k < n
        invariant
            n == weights@.len(),
            k <= n,
            row < n,
            u0.len() == n,
            v0.len() == n,
            s0.len() == n,
            used@.len() == n,
            owner@.len() == n,
            matching(weights@, u0, v0, owner@, -1, row as int),
            settled(v0, owner@),
            bounded(u0, row + 1),
            0 <= delta <= 2 * WEIGHT_LIMIT,
            forall|j: int| 0 <= j < n && !used@[j] ==> delta <= #[trigger] s0[j],
            forall|j: int|
                0 <= j < n ==> (#[trigger] owner@[j] matches Some(i) ==> i < row),
            stepped(
                u0,
                v0,
                s0,
                owner@,
                row as int,
                used@,
                delta as int,
                u@,
                v@,
                slack@,
                k as int,
            ),
        decreases n - k,
    {
        let ghost before = u@;
        if used[k] {
            if let Some(i) = owner[k] {
                assert(owner@[k as int] == Some(i));
                assert(u@[i as int] == u0[i as int]);
                let higher: i64 = u[i] + delta;
                u.set(i, higher);
                proof {
                    assert forall|j: int| 0 <= j < n implies (#[trigger] owner@[j] matches Some(q)
                        ==> u@[q as int] == u0[q as int] + (if used@[j] && j < k + 1 {
                        delta as int
                    } else {
                        0
                    })) by {
                        assert(apart(owner@, -1, k as int, j));
                    }
                }
            }
            assert(v@[k as int] == v0[k as int]);
            let lower: i64 = v[k] - delta;
            v.set(k, lower);
        } else {
            assert(slack@[k as int] == s0[k as int]);
            let smaller: i64 = slack[k] - delta;
            slack.set(k, smaller);
        }
        k = k + 1;
    }
}

/// A step of the search keeps what is known of it, and closes the gap of the column
/// with the least slack.
proof fn lemma_step(
    weights: Seq<Vec<i64>>,
    u: Seq<i64>,
    v: Seq<i64>,
    owner: Seq<Option<usize>>,
    row: int,
    used: Seq<bool>,
    slack: Seq<i64>,
    from: Seq<Option<usize>>,
    order: Seq<int>,
    next: int,
    next_u: Seq<i64>,
    next_v: Seq<i64>,
    next_slack: Seq<i64>,
)
    requires
        weighable(weights),
        tree(weights, u, v, owner, row, used, slack, from, order),
        0 <= next < weights.len(),
        !used[next],
        forall|j: int|
            0 <= j < weights.len() && !used[j] ==> slack[next] <= #[trigger] slack[j],
        stepped(
            u,
            v,
            slack,
            owner,
            row,
            used,
            slack[next] as int,
            next_u,
            next_v,
            next_slack,
            weights.len() as int,
        ),
    ensures
        tree(weights, next_u, next_v, owner, row, used, next_slack, from, order),
        next_slack[next] == 0,
{
    let n = weights.len() as int;
    let delta = slack[next] as int;
    assert(waiting(weights, u, v, owner, row, used, slack, from, next));
    assert forall|j: int| 0 <= j < n implies (#[trigger] owner[j] matches Some(i) ==> i < row) by {
        assert(tight(weights, u, v, owner, row, j));
    }
    // A column that was reached has a row.
    assert forall|j: int| 0 <= j < n && #[trigger] used[j] implies owner[j] is Some by {
        let m = choose|q: int| 0 <= q < order.len() && #[trigger] order[q] == j;
        assert(reached(weights, u, v, owner, row, used, from, order, m));
    }
    assert(feasible(weights, next_u, next_v, row + 1)) by {
        assert forall|i: int, j: int| 0 <= i < row + 1 && 0 <= j < n implies next_u[i] + next_v[j]
            <= #[trigger] cost(weights, i, j) by {
            assert(u[i] + v[j] <= cost(weights, i, j));
            assert(next_v[j] == v[j] - (if used[j] {
                delta
            } else {
                0
            }));
            if i == row {
                if !used[j] {
                    assert(waiting(weights, u, v, owner, row, used, slack, from, j));
                    assert(slack[next] <= slack[j]);
                }
            } else {
                assert(placed(owner, -1, i));
                let q = choose|q: int| #[trigger] owns(owner, -1, q, i);
                assert(owner[q] is Some && owner[q]->0 == i);
                if used[q] && !used[j] {
                    assert(least(weights, u, v, owner, slack, q, j));
                    assert(slack[next] <= slack[j]);
                }
            }
        }
    }
    assert(matching(weights, next_u, next_v, owner, -1, row)) by {
        assert forall|j: int| 0 <= j < n implies #[trigger] tight(
            weights,
            next_u,
            next_v,
            owner,
            row,
            j,
        ) by {
            assert(tight(weights, u, v, owner, row, j));
            assert(owner[j] matches Some(i) ==> i < row);
            assert(next_v[j] == v[j] - (if used[j] {
                delta
            } else {
                0
            }));
        }
    }
    let free = lemma_free(weights, next_u, next_v, owner, row);
    assert(!used[free]);
    assert(bounded(next_u, row + 1)) by {
        assert forall|i: int| 0 <= i < row + 1 implies -WEIGHT_LIMIT <= #[trigger] next_u[i] <= 0 by {
            assert(next_v[free] == v[free] && v[free] == 0);
            assert(next_u[i] + next_v[free] <= cost(weights, i, free));
            assert(weights[i]@[free] >= 0);
            assert(-WEIGHT_LIMIT <= u[i]);
            if i < row {
                assert(placed(owner, -1, i));
                let q = choose|q: int| #[trigger] owns(owner, -1, q, i);
                assert(owner[q] is Some && owner[q]->0 == i);
            }
        }
    }
    assert(settled(next_v, owner)) by {
        assert forall|j: int| 0 <= j < n implies -WEIGHT_LIMIT <= #[trigger] next_v[j] <= 0 && (
        owner[j] is None ==> next_v[j] == 0) by {
            assert(v[j] <= 0);
            if let Some(i) = owner[j] {
                assert(tight(weights, next_u, next_v, owner, row, j));
                assert(next_u[i as int] <= 0);
                assert(weights[i as int]@[j] <= WEIGHT_LIMIT);
            }
        }
    }
    assert forall|m: int| 0 <= m < order.len() implies #[trigger] reached(
        weights,
        next_u,
        next_v,
        owner,
        row,
        used,
        from,
        order,
        m,
    ) by {
        assert(reached(weights, u, v, owner, row, used, from, order, m));
        let j = order[m];
        if let Some(k) = from[j] {
            let q = choose|q: int| 0 <= q < m && #[trigger] order[q] == k;
            assert(reached(weights, u, v, owner, row, used, from, order, q));
            assert(owner[k as int] is Some);
        }
        assert(next_v[j] == v[j] - delta);
    }
    assert forall|j: int| 0 <= j < n && !used[j] implies #[trigger] waiting(
        weights,
        next_u,
        next_v,
        owner,
        row,
        used,
        next_slack,
        from,
        j,
    ) by {
        assert(waiting(weights, u, v, owner, row, used, slack, from, j));
        assert(slack[next] <= slack[j]);
        assert(next_slack[j] == slack[j] - delta);
        assert(next_v[j] == v[j]);
        if let Some(k) = from[j] {
            assert(used[k as int]);
            assert(owner[k as int] is Some);
        }
    }
    assert forall|k: int, j: int| 0 <= k < n && 0 <= j < n && used[k] && !used[j] implies #[trigger] least(
        weights,
        next_u,
        next_v,
        owner,
        next_slack,
        k,
        j,
    ) by {
        assert(least(weights, u, v, owner, slack, k, j));
        assert(owner[k] is Some);
        assert(next_slack[j] == slack[j] - delta);
        assert(next_v[j] == v[j]);
    }
}

/// The slack after the row of a column was looked at.
spec fn scanned(
    weights: Seq<Vec<i64>>,
    u: Seq<i64>,
    v: Seq<i64>,
    slack: Seq<i64>,
    from: Seq<Option<usize>>,
    used: Seq<bool>,
    row: int,
    column: usize,
    next_slack: Seq<i64>,
    next_from: Seq<Option<usize>>,
    j: int,
) -> bool {
    let closer = !used[j] && gap(weights, u, v, row, j) < slack[j];
    &&& next_slack[j] == (if closer {
        gap(weights, u, v, row, j)
    } else {
        slack[j] as int
    })
    &&& next_from[j] == (if closer {
        Some(column)
    } else {
        from[j]
    })
}

fn scan(
    weights: &Vec<Vec<i64>>,
    u: &Vec<i64>,
    v: &Vec<i64>,
    slack: &mut Vec<i64>,
    from: &mut Vec<Option<usize>>,
    used: &Vec<bool>,
    row: usize,
    column: usize,
)
    requires
        weighable(weights@),
        row < weights@.len(),
        u@.len() == weights@.len(),
        v@.len() == weights@.len(),
        old(slack)@.len() == weights@.len(),
        old(from)@.len() == weights@.len(),
        used@.len() == weights@.len(),
        -WEIGHT_LIMIT <= u@[row as int] <= 0,
        forall|j: int| 0 <= j < v@.len() ==> -WEIGHT_LIMIT <= #[trigger] v@[j] <= 0,
    ensures
        final(slack)@.len() == weights@.len(),
        final(from)@.len() == weights@.len(),
        forall|j: int|
            0 <= j < weights@.len() ==> #[trigger] scanned(
                weights@,
                u@,
                v@,
                old(slack)@,
                old(from)@,
                used@,
                row as int,
                column,
                final(slack)@,
                final(from)@,
                j,
            ),
{
    let n: usize = weights.len();
    let ghost s0 = slack@;
    let ghost f0 = from@;
    let mut j: usize = 0;
    while j < n
        invariant
            weighable(weights@),
            n == weights@.len(),
            row < n,
            j <= n,
            u@.len() == n,
            v@.len() == n,
            used@.len() == n,
            s0.len() == n,
            f0.len() == n,
            slack@.len() == n,
            from@.len() == n,
            -WEIGHT_LIMIT <= u@[row as int] <= 0,
            forall|q: int| 0 <= q < v@.len() ==> -WEIGHT_LIMIT <= #[trigger] v@[q] <= 0,
            forall|q: int|
                0 <= q < j ==> #[trigger] scanned(
                    weights@,
                    u@,
                    v@,
                    s0,
                    f0,
                    used@,
                    row as int,
                    column,
                    slack@,
                    from@,
                    q,
                ),
            forall|q: int| j <= q < n ==> #[trigger] slack@[q] == s0[q],
            forall|q: int| j <= q < n ==> #[trigger] from@[q] == f0[q],
        decreases n - j,
    {
        let ghost s1 = slack@;
        let ghost f1 = from@;
        if !used[j] {
            assert(weights@[row as int]@.len() == n);
            assert(0 <= weights@[row as int]@[j as int] <= WEIGHT_LIMIT);
            assert(-WEIGHT_LIMIT <= v@[j as int] <= 0);
            let weight: i64 = weights[row][j];
            let rest: i64 = -weight - u[row] - v[j];
            assert(slack@[j as int] == s0[j as int]);
            if rest < slack[j] {
                slack.set(j, rest);
                from.set(j, Some(column));
            }
        }
        proof {
            assert forall|q: int| 0 <= q < j + 1 implies #[trigger] scanned(
                weights@,
                u@,
                v@,
                s0,
                f0,
                used@,
                row as int,
                column,
                slack@,
                from@,
                q,
            ) by {
                if q < j {
                    assert(scanned(
                        weights@,
                        u@,
                        v@,
                        s0,
                        f0,
                        used@,
                        row as int,
                        column,
                        s1,
                        f1,
                        q,
                    ));
                }
            }
        }
        j = j + 1;
    }
}

/// A column without slack joins those that were reached.
proof fn lemma_extend(
    weights: Seq<Vec<i64>>,
    u: Seq<i64>,
    v: Seq<i64>,
    owner: Seq<Option<usize>>,
    row: int,
    used: Seq<bool>,
    slack: Seq<i64>,
    from: Seq<Option<usize>>,
    order: Seq<int>,
    next: usize,
    next_slack: Seq<i64>,
    next_from: Seq<Option<usize>>,
)
    requires
        tree(weights, u, v, owner, row, used, slack, from, order),
        next < weights.len(),
        !used[next as int],
        slack[next as int] == 0,
        owner[next as int] is Some,
        next_slack.len() == weights.len(),
        next_from.len() == weights.len(),
        forall|j: int|
            0 <= j < weights.len() ==> #[trigger] scanned(
                weights,
                u,
                v,
                slack,
                from,
                used.update(next as int, true),
                owner[next as int]->0 as int,
                next,
                next_slack,
                next_from,
                j,
            ),
    ensures
        tree(
            weights,
            u,
            v,
            owner,
            row,
            used.update(next as int, true),
            next_slack,
            next_from,
            order.push(next as int),
        ),
{
    let n = weights.len() as int;
    let marked = used.update(next as int, true);
    let longer = order.push(next as int);
    let i = owner[next as int]->0 as int;
    assert(tight(weights, u, v, owner, row, next as int));
    assert(waiting(weights, u, v, owner, row, used, slack, from, next as int));
    assert forall|m: int| 0 <= m < order.len() implies longer[m] == order[m] && longer[m] != next by {
        assert(reached(weights, u, v, owner, row, used, from, order, m));
    }
    assert(longer.no_duplicates()) by {
        assert forall|p: int, q: int| 0 <= p < longer.len() && 0 <= q < longer.len() && p
            != q implies longer[p] != longer[q] by {
            if p < order.len() && q < order.len() {
                assert(order[p] != order[q]);
            } else if p < order.len() {
                assert(longer[p] != next);
            } else {
                assert(longer[q] != next);
            }
        }
    }
    assert forall|j: int| 0 <= j < n && #[trigger] marked[j] implies earlier(
        longer,
        longer.len() as int,
        j,
    ) by {
        if j == next {
            assert(longer[order.len() as int] == j);
        } else {
            assert(used[j]);
            let q = choose|q: int| 0 <= q < order.len() && #[trigger] order[q] == j;
            assert(longer[q] == j);
        }
    }
    assert forall|m: int| 0 <= m < longer.len() implies #[trigger] reached(
        weights,
        u,
        v,
        owner,
        row,
        marked,
        next_from,
        longer,
        m,
    ) by {
        let j = longer[m];
        if m < order.len() {
            assert(reached(weights, u, v, owner, row, used, from, order, m));
            assert(scanned(weights, u, v, slack, from, marked, i, next, next_slack, next_from, j));
            if let Some(k) = from[j] {
                let q = choose|q: int| 0 <= q < m && #[trigger] order[q] == k;
                assert(longer[q] == k);
            }
        } else {
            assert(scanned(weights, u, v, slack, from, marked, i, next, next_slack, next_from, j));
            if let Some(k) = from[j] {
                assert(used[k as int]);
                let q = choose|q: int| 0 <= q < order.len() && #[trigger] order[q] == k;
                assert(longer[q] == k);
            }
        }
    }
    assert forall|j: int| 0 <= j < n && !marked[j] implies #[trigger] waiting(
        weights,
        u,
        v,
        owner,
        row,
        marked,
        next_slack,
        next_from,
        j,
    ) by {
        assert(!used[j]);
        assert(waiting(weights, u, v, owner, row, used, slack, from, j));
        assert(scanned(weights, u, v, slack, from, marked, i, next, next_slack, next_from, j));
        assert(u[i] + v[j] <= cost(weights, i, j));
    }
    assert forall|k: int, j: int| 0 <= k < n && 0 <= j < n && marked[k] && !marked[j] implies #[trigger] least(
        weights,
        u,
        v,
        owner,
        next_slack,
        k,
        j,
    ) by {
        assert(!used[j]);
        assert(scanned(weights, u, v, slack, from, marked, i, next, next_slack, next_from, j));
        if k != next {
            assert(used[k]);
            assert(least(weights, u, v, owner, slack, k, j));
        }
    }
}

/// Hands the free column over along the way by which it was reached.
fn augment(
    weights: &Vec<Vec<i64>>,
    u: &Vec<i64>,
    v: &Vec<i64>,
    owner: &mut Vec<Option<usize>>,
    row: usize,
    used: &Vec<bool>,
    slack: &Vec<i64>,
    from: &Vec<Option<usize>>,
    next: usize,
    order: Ghost<Seq<int>>,
)
    requires
        tree(
            weights@,
            u@,
            v@,
            old(owner)@,
            row as int,
            used@,
            slack@,
            from@,
            order@,
        ),
        next < weights@.len(),
        !used@[next as int],
        slack@[next as int] == 0,
        old(owner)@[next as int] is None,
    ensures
        ready(weights@, u@, v@, final(owner)@, row + 1),
{
    let ghost first = owner@;
    let ghost n = weights@.len() as int;
    let mut column: usize = next;
    let ghost mut place: int = order@.len() as int;
    proof {
        assert(waiting(weights@, u@, v@, first, row as int, used@, slack@, from@, next as int));
        assert forall|j: int| 0 <= j < n && j != next implies #[trigger] tight(
            weights@,
            u@,
            v@,
            first,
            row as int,
            j,
        ) by {}
        assert forall|j: int, k: int| 0 <= j < n && 0 <= k < n implies #[trigger] apart(
            first,
            next as int,
            j,
            k,
        ) by {
            assert(apart(first, -1, j, k));
        }
        assert forall|i: int| 0 <= i < row implies #[trigger] placed(first, next as int, i) by {
            assert(placed(first, -1, i));
            let j = choose|j: int| #[trigger] owns(first, -1, j, i);
            assert(owns(first, next as int, j, i));
        }
        if let Some(k) = from@[next as int] {
            assert(used@[k as int]);
            assert(earlier(order@, order@.len() as int, k as int));
        }
    }
    loop
        invariant
            n == weights@.len(),
            row < n,
            tree(weights@, u@, v@, first, row as int, used@, slack@, from@, order@),
            column < n,
            0 <= place <= order@.len(),
            if place < order@.len() {
                order@[place] == column
            } else {
                column == next && !used@[next as int]
            },
            gap(weights@, u@, v@, source(first, row as int, from@[column as int]), column as int)
                == 0,
            from@[column as int] matches Some(k) ==> earlier(order@, place, k as int),
            owner@.len() == n,
            matching(weights@, u@, v@, owner@, column as int, row as int),
            forall|m: int|
                0 <= m < place ==> owner@[#[trigger] order@[m]] == first[order@[m]],
            forall|j: int| 0 <= j < n && #[trigger] owner@[j] is None ==> first[j] is None,
        decreases place,
    {
        let ghost before = owner@;
        match from[column] {
            None => {
                owner.set(column, Some(row));
                proof {
                    assert forall|j: int| 0 <= j < n implies #[trigger] tight(
                        weights@,
                        u@,
                        v@,
                        owner@,
                        row + 1,
                        j,
                    ) by {
                        if j != column {
                            assert(tight(weights@, u@, v@, before, row as int, j));
                        }
                    }
                    assert forall|j: int, k: int| 0 <= j < n && 0 <= k < n implies #[trigger] apart(
                        owner@,
                        -1,
                        j,
                        k,
                    ) by {
                        assert(apart(before, column as int, j, k));
                        if j != column {
                            assert(tight(weights@, u@, v@, before, row as int, j));
                        }
                        if k != column {
                            assert(tight(weights@, u@, v@, before, row as int, k));
                        }
                    }
                    assert forall|i: int| 0 <= i < row + 1 implies #[trigger] placed(
                        owner@,
                        -1,
                        i,
                    ) by {
                        if i == row {
                            assert(owns(owner@, -1, column as int, i));
                        } else {
                            assert(placed(before, column as int, i));
                            let j = choose|j: int| #[trigger] owns(before, column as int, j, i);
                            assert(owns(owner@, -1, j, i));
                        }
                    }
                    assert forall|j: int| 0 <= j < n implies -WEIGHT_LIMIT <= #[trigger] v@[j] <= 0
                        && (owner@[j] is None ==> v@[j] == 0) by {
                        if owner@[j] is None {
                            assert(before[j] is None);
                        }
                    }
                }
                return;
            },
            Some(k) => {
                let ghost m = choose|m: int| 0 <= m < place && #[trigger] order@[m] == k;
                proof {
                    assert(reached(
                        weights@,
                        u@,
                        v@,
                        first,
                        row as int,
                        used@,
                        from@,
                        order@,
                        m,
                    ));
                    assert(owner@[order@[m]] == first[k as int]);
                    if place < order@.len() {
                        assert(order@[m] != order@[place]);
                    }
                    assert(k != column);
                    assert(tight(weights@, u@, v@, before, row as int, k as int));
                }
                let handed: Option<usize> = owner[k];
                owner.set(column, handed);
                proof {
                    let i = handed->0 as int;
                    assert forall|j: int| 0 <= j < n && j != k implies #[trigger] tight(
                        weights@,
                        u@,
                        v@,
                        owner@,
                        row as int,
                        j,
                    ) by {
                        if j != column {
                            assert(tight(weights@, u@, v@, before, row as int, j));
                        }
                    }
                    assert forall|j: int, q: int| 0 <= j < n && 0 <= q < n implies #[trigger] apart(
                        owner@,
                        k as int,
                        j,
                        q,
                    ) by {
                        assert(apart(before, column as int, j, q));
                        assert(apart(before, column as int, k as int, q));
                        assert(apart(before, column as int, j, k as int));
                    }
                    assert forall|r: int| 0 <= r < row implies #[trigger] placed(
                        owner@,
                        k as int,
                        r,
                    ) by {
                        assert(placed(before, column as int, r));
                        let j = choose|j: int| #[trigger] owns(before, column as int, j, r);
                        if j == k {
                            assert(owns(owner@, k as int, column as int, r));
                        } else {
                            assert(owns(owner@, k as int, j, r));
                        }
                    }
                    assert forall|q: int| 0 <= q < m implies owner@[#[trigger] order@[q]]
                        == first[order@[q]] by {
                        assert(before[order@[q]] == first[order@[q]]);
                        assert(reached(
                            weights@,
                            u@,
                            v@,
                            first,
                            row as int,
                            used@,
                            from@,
                            order@,
                            q,
                        ));
                        if place < order@.len() {
                            assert(order@[q] != order@[place]);
                        }
                    }
                    place = m;
                }
                column = k;
            },
        }
    }
}

/// The column with the least slack among those that were not reached.
fn nearest(
    weights: &Vec<Vec<i64>>,
    used: &Vec<bool>,
    slack: &Vec<i64>,
    free: Ghost<int>,
) -> (column: usize)
    requires
        used@.len() == weights@.len(),
        slack@.len() == weights@.len(),
        0 <= free@ < weights@.len(),
        !used@[free@],
    ensures
        column < weights@.len(),
        !used@[column as int],
        forall|j: int|
            0 <= j < weights@.len() && !used@[j] ==> slack@[column as int] <= #[trigger] slack@[j],
{
    let n: usize = weights.len();
    let mut best: usize = n;
    let mut j: usize = 0;
    while j < n
        invariant
            n == weights@.len(),
            used@.len() == n,
            slack@.len() == n,
            j <= n,
            best <= n,
            best == n ==> forall|q: int| 0 <= q < j ==> #[trigger] used@[q],
            best < n ==> !used@[best as int] && forall|q: int|
                0 <= q < j && !used@[q] ==> slack@[best as int] <= #[trigger] slack@[q],
        decreases n - j,
    {
        if !used[j] {
            if best == n {
                best = j;
            } else if slack[j] < slack[best] {
                best = j;
            }
        }
        j = j + 1;
    }
    assert(best < n) by {
        if best == n {
            assert(used@[free@]);
        }
    }
    best
}

/// Assigns one more row.
fn assign_row(
    weights: &Vec<Vec<i64>>,
    u: &mut Vec<i64>,
    v: &mut Vec<i64>,
    owner: &mut Vec<Option<usize>>,
    row: usize,
)
    requires
        weighable(weights@),
        row < weights@.len(),
        ready(weights@, old(u)@, old(v)@, old(owner)@, row as int),
    ensures
        ready(weights@, final(u)@, final(v)@, final(owner)@, row + 1),
{
    let n: usize = weights.len();
    let ghost u0 = u@;
    u.set(row, -WEIGHT_LIMIT);
    let mut used: Vec<bool> = Vec::new();
    let mut slack: Vec<i64> = Vec::new();
    let mut from: Vec<Option<usize>> = Vec::new();
    let ghost mut order: Seq<int> = Seq::empty();
    while used.len() < n
        invariant
            n == weights@.len(),
            row < n,
            weighable(weights@),
            u@.len() == n,
            v@.len() == n,
            u@[row as int] == -WEIGHT_LIMIT,
            settled(v@, owner@),
            used@.len() <= n,
            slack@.len() == used@.len(),
            from@.len() == used@.len(),
            forall|j: int|
                0 <= j < used@.len() ==> !#[trigger] used@[j] && slack@[j] == gap(
                    weights@,
                    u@,
                    v@,
                    row as int,
                    j,
                ) && from@[j] is None,
        decreases n - used@.len(),
    {
        let j: usize = used.len();
        assert(weights@[row as int]@.len() == n);
        assert(0 <= weights@[row as int]@[j as int] <= WEIGHT_LIMIT);
        assert(-WEIGHT_LIMIT <= v@[j as int] <= 0);
        slack.push(-weights[row][j] - u[row] - v[j]);
        used.push(false);
        from.push(None);
    }
    proof {
        assert forall|i: int, j: int| 0 <= i < row + 1 && 0 <= j < n implies u@[i] + v@[j]
            <= #[trigger] cost(weights@, i, j) by {
            if i < row {
                assert(u0[i] + v@[j] <= cost(weights@, i, j));
            } else {
                assert(v@[j] <= 0);
                assert(weights@[i]@[j] <= WEIGHT_LIMIT);
            }
        }
        assert forall|j: int| 0 <= j < n implies #[trigger] tight(
            weights@,
            u@,
            v@,
            owner@,
            row as int,
            j,
        ) by {
            assert(tight(weights@, u0, v@, owner@, row as int, j));
        }
        assert forall|j: int| 0 <= j < n && !used@[j] implies #[trigger] waiting(
            weights@,
            u@,
            v@,
            owner@,
            row as int,
            used@,
            slack@,
            from@,
            j,
        ) by {
            assert(u@[row as int] + v@[j] <= cost(weights@, row as int, j));
        }
        assert forall|i: int| 0 <= i < row + 1 implies -WEIGHT_LIMIT <= #[trigger] u@[i] <= 0 by {
            if i < row {
                assert(u0[i] == u@[i]);
            }
        }
        assert(tree(weights@, u@, v@, owner@, row as int, used@, slack@, from@, order));
    }
    loop
        invariant
            n == weights@.len(),
            row < n,
            weighable(weights@),
            tree(weights@, u@, v@, owner@, row as int, used@, slack@, from@, order),
        decreases n - order.len(),
    {
        let ghost free = lemma_free(weights@, u@, v@, owner@, row as int);
        proof {
            if used@[free] {
                let m = choose|q: int| 0 <= q < order.len() && #[trigger] order[q] == free;
                assert(reached(weights@, u@, v@, owner@, row as int, used@, from@, order, m));
            }
        }
        let next: usize = nearest(weights, &used, &slack, Ghost(free));
        let delta: i64 = slack[next];
        let ghost u1 = u@;
        let ghost v1 = v@;
        let ghost s1 = slack@;
        proof {
            assert(waiting(
                weights@,
                u1,
                v1,
                owner@,
                row as int,
                used@,
                s1,
                from@,
                next as int,
            ));
            assert(-WEIGHT_LIMIT <= u1[row as int] <= 0);
            assert(-WEIGHT_LIMIT <= v1[next as int] <= 0);
            assert(weights@[row as int]@[next as int] >= 0);
        }
        step(weights, u, v, &mut slack, owner, row, &used, delta);
        proof {
            lemma_step(
                weights@,
                u1,
                v1,
                owner@,
                row as int,
                used@,
                s1,
                from@,
                order,
                next as int,
                u@,
                v@,
                slack@,
            );
        }
        match owner[next] {
            None => {
                augment(weights, u, v, owner, row, &used, &slack, &from, next, Ghost(order));
                return;
            },
            Some(i) => {
                let ghost used1 = used@;
                let ghost s2 = slack@;
                let ghost f2 = from@;
                proof {
                    assert(tight(weights@, u@, v@, owner@, row as int, next as int));
                    assert forall|m: int| 0 <= m < order.len() implies 0 <= #[trigger] order[m] < n
                        && used@[order[m]] by {
                        assert(reached(
                            weights@,
                            u@,
                            v@,
                            owner@,
                            row as int,
                            used@,
                            from@,
                            order,
                            m,
                        ));
                    }
                    lemma_few(weights@, used@, order, next as int);
                }
                used.set(next, true);
                scan(weights, u, v, &mut slack, &mut from, &used, i, next);
                proof {
                    lemma_extend(
                        weights@,
                        u@,
                        v@,
                        owner@,
                        row as int,
                        used1,
                        s2,
                        f2,
                        order,
                        next,
                        slack@,
                        from@,
                    );
                    order = order.push(next as int);
                }
            },
        }
    }
}

/// Fewer columns were reached than there are.
proof fn lemma_few(weights: Seq<Vec<i64>>, used: Seq<bool>, order: Seq<int>, next: int)
    requires
        used.len() == weights.len(),
        0 <= next < weights.len(),
        !used[next],
        order.no_duplicates(),
        forall|m: int|
            0 <= m < order.len() ==> 0 <= #[trigger] order[m] < weights.len() && used[order[m]],
    ensures
        order.len() < weights.len(),
{
    let longer = order.push(next);
    assert forall|i: int, j: int| 0 <= i < j < longer.len() implies (#[trigger] longer[i]) != (
    #[trigger] longer[j]) by {
        if j < order.len() {
            assert(order[i] != order[j]);
        } else {
            assert(used[order[i]]);
        }
    }
    lemma_crowded(longer, weights.len());
}

spec fn whole(values: Seq<i64>) -> Seq<int> {
    Seq::new(values.len(), |i: int| values[i] as int)
}

/// No assignment weighs more than the potentials allow.
proof fn lemma_bound(
    weights: Seq<Vec<i64>>,
    u: Seq<i64>,
    v: Seq<i64>,
    places: Seq<usize>,
    upto: nat,
)
    requires
        u.len() == weights.len(),
        v.len() == weights.len(),
        feasible(weights, u, v, weights.len() as int),
        assignment(places, weights.len()),
        upto <= weights.len(),
    ensures
        total_weight(weights, places, upto) <= -sum_of(whole(u), upto) - sum_of(
            picked(whole(v), places),
            upto,
        ),
    decreases upto,
{
    if upto > 0 {
        lemma_bound(weights, u, v, places, (upto - 1) as nat);
        let i = upto - 1;
        assert(places[i] < weights.len());
        assert(u[i] + v[places[i] as int] <= cost(weights, i, places[i] as int));
    }
}

/// An assignment whose pairs all meet their costs weighs as much as the potentials allow.
proof fn lemma_met(
    weights: Seq<Vec<i64>>,
    u: Seq<i64>,
    v: Seq<i64>,
    places: Seq<usize>,
    upto: nat,
)
    requires
        u.len() == weights.len(),
        v.len() == weights.len(),
        assignment(places, weights.len()),
        forall|i: int|
            0 <= i < weights.len() ==> u[i] + v[places[i] as int] == #[trigger] cost(
                weights,
                i,
                places[i] as int,
            ),
        upto <= weights.len(),
    ensures
        total_weight(weights, places, upto) == -sum_of(whole(u), upto) - sum_of(
            picked(whole(v), places),
            upto,
        ),
    decreases upto,
{
    if upto > 0 {
        lemma_met(weights, u, v, places, (upto - 1) as nat);
        let i = upto - 1;
        assert(places[i] < weights.len());
        assert(u[i] + v[places[i] as int] == cost(weights, i, places[i] as int));
    }
}

/// Gives every row a column of its own so that the sum of the weights is as large as
/// possible.
pub fn best_assignment(weights: &Vec<Vec<i64>>) -> (places: Vec<usize>)
    requires
        weighable(weights@),
    ensures
        heaviest(weights@, places@),
{
    let n: usize = weights.len();
    let mut u: Vec<i64> = Vec::new();
    let mut v: Vec<i64> = Vec::new();
    let mut owner: Vec<Option<usize>> = Vec::new();
    let mut places: Vec<usize> = Vec::new();
    while u.len() < n
        invariant
            n == weights@.len(),
            u@.len() <= n,
            v@.len() == u@.len(),
            owner@.len() == u@.len(),
            places@.len() == u@.len(),
            forall|j: int| 0 <= j < v@.len() ==> #[trigger] v@[j] == 0,
            forall|j: int| 0 <= j < owner@.len() ==> #[trigger] owner@[j] is None,
        decreases n - u@.len(),
    {
        u.push(0);
        v.push(0);
        owner.push(None);
        places.push(0);
    }
    let mut row: usize = 0;
    while row < n
        invariant
            n == weights@.len(),
            weighable(weights@),
            row <= n,
            ready(weights@, u@, v@, owner@, row as int),
        decreases n - row,
    {
        assign_row(weights, &mut u, &mut v, &mut owner, row);
        row = row + 1;
    }
    let mut column: usize = 0;
    while column < n
        invariant
            n == weights@.len(),
            ready(weights@, u@, v@, owner@, n as int),
            column <= n,
            places@.len() == n,
            forall|j: int|
                0 <= j < column ==> (#[trigger] owner@[j] matches Some(i) ==> places@[i as int]
                    == j),
        decreases n - column,
    {
        assert(tight(weights@, u@, v@, owner@, n as int, column as int));
        if let Some(i) = owner[column] {
            proof {
                assert forall|j: int| 0 <= j < column implies (#[trigger] owner@[j] matches Some(q)
                    ==> q != i && q < n) by {
                    assert(apart(owner@, -1, j, column as int));
                    assert(tight(weights@, u@, v@, owner@, n as int, j));
                }
            }
            places.set(i, column);
        }
        column = column + 1;
    }
    proof {
        assert forall|i: int| 0 <= i < n implies (#[trigger] places@[i]) < n && owner@[places@[i] as int]
            == Some(i as usize) by {
            assert(placed(owner@, -1, i));
            let j = choose|j: int| #[trigger] owns(owner@, -1, j, i);
            assert(owner@[j] is Some && places@[owner@[j]->0 as int] == j);
        }
        assert forall|i: int, j: int| 0 <= i < j < n implies (#[trigger] places@[i]) != (
        #[trigger] places@[j]) by {
            assert(owner@[places@[i] as int] == Some(i as usize));
            assert(owner@[places@[j] as int] == Some(j as usize));
        }
        assert(assignment(places@, n as nat));
        assert forall|i: int| 0 <= i < n implies u@[i] + v@[places@[i] as int] == #[trigger] cost(
            weights@,
            i,
            places@[i] as int,
        ) by {
            assert(places@[i] < n);
            assert(tight(weights@, u@, v@, owner@, n as int, places@[i] as int));
        }
        lemma_met(weights@, u@, v@, places@, n as nat);
        lemma_picked_sum(whole(v@), places@, n as nat);
        assert forall|other: Seq<usize>| assignment(other, n as nat) implies #[trigger] total_weight(
            weights@,
            other,
            n as nat,
        ) <= total_weight(weights@, places@, n as nat) by {
            lemma_bound(weights@, u@, v@, other, n as nat);
            lemma_picked_sum(whole(v@), other, n as nat);
        }
    }
    places
}

/// Numbers whose magnitudes can be compared and whose phases can be turned back. What an
/// implementation leaves out of the specification is not specified.
pub trait Overlap: Scalar {
    type Size: Copy;

    /// The magnitude of the number.
    open spec fn size_value(self) -> Self::Size {
        arbitrary()
    }

    /// The magnitude of zero.
    open spec fn no_size_value() -> Self::Size {
        arbitrary()
    }

    /// The first magnitude exceeds the second.
    open spec fn exceeds(first: Self::Size, second: Self::Size) -> bool {
        arbitrary()
    }

    /// The first magnitude exceeds the second by no more than a tolerance.
    open spec fn hardly_exceeds(
        first: Self::Size,
        second: Self::Size,
        tolerance: Self::Size,
    ) -> bool {
        arbitrary()
    }

    /// The tolerance is finite and not negative.
    open spec fn fair(tolerance: Self::Size) -> bool {
        arbitrary()
    }

    /// A magnitude as a whole number, on a scale that is chosen by the largest magnitude.
    open spec fn heft(size: Self::Size, largest: Self::Size) -> i64 {
        arbitrary()
    }

    /// The phase by which a state is multiplied so that its overlap becomes positive.
    open spec fn gauge_value(self) -> Self {
        arbitrary()
    }

    fn size(self) -> (size: Self::Size)
        ensures
            size == self.size_value(),
    ;

    fn no_size() -> (size: Self::Size)
        ensures
            size == Self::no_size_value(),
    ;

    fn is_larger(first: Self::Size, second: Self::Size) -> (result: bool)
        ensures
            result == Self::exceeds(first, second),
    ;

    fn is_hardly_larger(first: Self::Size, second: Self::Size, tolerance: Self::Size) -> (result:
        bool)
        ensures
            result == Self::hardly_exceeds(first, second, tolerance),
    ;

    fn is_fair(tolerance: Self::Size) -> (result: bool)
        ensures
            result == Self::fair(tolerance),
    ;

    fn weight(size: Self::Size, largest: Self::Size) -> (weight: i64)
        ensures
            weight == Self::heft(size, largest),
            0 <= weight <= WEIGHT_LIMIT,
    ;

    fn gauge(self) -> (phase: Self)
        ensures
            phase == self.gauge_value(),
    ;
}

impl Overlap for Multiplicity {
    type Size = u64;

    open spec fn size_value(self) -> u64 {
        self.ways
    }

    open spec fn no_size_value() -> u64 {
        0
    }

    open spec fn exceeds(first: u64, second: u64) -> bool {
        first > second
    }

    open spec fn hardly_exceeds(first: u64, second: u64, tolerance: u64) -> bool {
        first - second <= tolerance
    }

    open spec fn fair(tolerance: u64) -> bool {
        true
    }

    open spec fn heft(size: u64, largest: u64) -> i64 {
        if largest > WEIGHT_LIMIT || size > WEIGHT_LIMIT {
            (size / 16) as i64
        } else {
            size as i64
        }
    }

    open spec fn gauge_value(self) -> Self {
        Multiplicity { ways: 1 }
    }

    fn size(self) -> (size: u64) {
        self.ways
    }

    fn no_size() -> (size: u64) {
        0
    }

    fn is_larger(first: u64, second: u64) -> (result: bool) {
        first > second
    }

    fn is_hardly_larger(first: u64, second: u64, tolerance: u64) -> (result: bool) {
        first <= second || first - second <= tolerance
    }

    fn is_fair(tolerance: u64) -> (result: bool) {
        true
    }

    fn weight(size: u64, largest: u64) -> (weight: i64) {
        if largest > 0x1000_0000_0000_0000 || size > 0x1000_0000_0000_0000 {
            (size / 16) as i64
        } else {
            size as i64
        }
    }

    fn gauge(self) -> (phase: Self) {
        Multiplicity { ways: 1 }
    }
}

/// How the states of one frame belong to those of another.
#[derive(Debug)]
pub struct StateTrackingResult<V: Overlap> {
    /// The state of the new frame that belongs to a state of the old one.
    pub permutation: Vec<usize>,
    /// The phase by which the new state is multiplied to align it with the old one.
    pub phases: Vec<V>,
    /// The magnitudes of the overlaps of states that belong together.
    pub overlaps: Vec<V::Size>,
    /// The states for which another choice is as good within the tolerance.
    pub ambiguous: Vec<usize>,
}

/// All vectors have the length.
pub open spec fn even<V>(frame: Seq<Vec<V>>, length: nat) -> bool {
    forall|i: int| 0 <= i < frame.len() ==> (#[trigger] frame[i])@.len() == length
}

/// Both frames hold vectors of one positive length.
pub open spec fn comparable<V>(previous: Seq<Vec<V>>, current: Seq<Vec<V>>) -> bool {
    &&& previous[0]@.len() > 0
    &&& even(previous, previous[0]@.len())
    &&& even(current, previous[0]@.len())
}

/// The overlap of a state of one frame with a state of another.
pub open spec fn overlap<V: Scalar>(
    previous: Seq<Vec<V>>,
    current: Seq<Vec<V>>,
    i: int,
    j: int,
) -> V {
    measurement::inner_product(previous[i]@, current[j]@, previous[i]@.len())
}

/// The magnitudes of the overlaps of two frames.
pub open spec fn overlap_table<V: Overlap>(
    previous: Seq<Vec<V>>,
    current: Seq<Vec<V>>,
    table: Seq<Vec<V::Size>>,
) -> bool {
    &&& table.len() == previous.len()
    &&& forall|i: int|
        0 <= i < table.len() ==> (#[trigger] table[i])@.len() == current.len() && forall|j: int|
            0 <= j < current.len() ==> #[trigger] table[i]@[j] == overlap(
                previous,
                current,
                i,
                j,
            ).size_value()
}

/// The larger of a magnitude and the first ones of a row.
pub open spec fn row_peak<V: Overlap>(row: Seq<V::Size>, upto: nat, start: V::Size) -> V::Size
    decreases upto,
{
    if upto == 0 {
        start
    } else {
        let before = row_peak::<V>(row, (upto - 1) as nat, start);
        if V::exceeds(row[upto - 1], before) {
            row[upto - 1]
        } else {
            before
        }
    }
}

/// The largest magnitude of the first rows of a table.
pub open spec fn peak<V: Overlap>(table: Seq<Vec<V::Size>>, upto: nat) -> V::Size
    decreases upto,
{
    if upto == 0 {
        V::no_size_value()
    } else {
        row_peak::<V>(
            table[upto - 1]@,
            table[upto - 1]@.len(),
            peak::<V>(table, (upto - 1) as nat),
        )
    }
}

/// The magnitudes of a table as whole numbers, on the scale of the largest.
pub open spec fn weighed<V: Overlap>(table: Seq<Vec<V::Size>>, weights: Seq<Vec<i64>>) -> bool {
    &&& weights.len() == table.len()
    &&& forall|i: int|
        0 <= i < weights.len() ==> (#[trigger] weights[i])@.len() == table[i]@.len() && forall|
            j: int,
        |
            0 <= j < weights[i]@.len() ==> #[trigger] weights[i]@[j] == V::heft(
                table[i]@[j],
                peak::<V>(table, table.len()),
            )
}

/// Another column is as good as the chosen one within the tolerance, or nothing is.
pub open spec fn unclear<V: Overlap>(
    table: Seq<Vec<V::Size>>,
    places: Seq<usize>,
    tolerance: V::Size,
    i: int,
) -> bool {
    let chosen = table[i]@[places[i] as int];
    ||| V::hardly_exceeds(chosen, V::no_size_value(), tolerance)
    ||| exists|j: int|
        0 <= j < table[i]@.len() && j != places[i] && V::hardly_exceeds(
            chosen,
            #[trigger] table[i]@[j],
            tolerance,
        )
}

/// The unclear rows among the first ones, in order.
pub open spec fn unclear_rows<V: Overlap>(
    table: Seq<Vec<V::Size>>,
    places: Seq<usize>,
    tolerance: V::Size,
    upto: nat,
) -> Seq<usize>
    decreases upto,
{
    if upto == 0 {
        Seq::empty()
    } else {
        let before = unclear_rows::<V>(table, places, tolerance, (upto - 1) as nat);
        if unclear::<V>(table, places, tolerance, upto - 1) {
            before.push((upto - 1) as usize)
        } else {
            before
        }
    }
}

/// The states belong together by overlaps whose sum is as large as possible on the scale
/// of the largest overlap.
pub open spec fn tracks<V: Overlap>(
    previous: Seq<Vec<V>>,
    current: Seq<Vec<V>>,
    table: Seq<Vec<V::Size>>,
    weights: Seq<Vec<i64>>,
    tolerance: V::Size,
    found: StateTrackingResult<V>,
) -> bool {
    let rank = previous.len();
    let places = found.permutation@;
    &&& overlap_table(previous, current, table)
    &&& weighed::<V>(table, weights)
    &&& heaviest(weights, places)
    &&& found.phases@.len() == rank
    &&& found.overlaps@.len() == rank
    &&& forall|i: int|
        0 <= i < rank ==> #[trigger] found.phases@[i] == overlap(
            previous,
            current,
            i,
            places[i] as int,
        ).gauge_value()
    &&& forall|i: int|
        0 <= i < rank ==> #[trigger] found.overlaps@[i] == table[i]@[places[i] as int]
    &&& found.ambiguous@ == unclear_rows::<V>(table, places, tolerance, rank)
}

/// The same, by the magnitudes of the overlaps of the frames.
pub open spec fn belongs<V: Overlap>(
    previous: Seq<Vec<V>>,
    current: Seq<Vec<V>>,
    tolerance: V::Size,
    found: StateTrackingResult<V>,
) -> bool {
    exists|table: Seq<Vec<V::Size>>, weights: Seq<Vec<i64>>| #[trigger]
        tracks(previous, current, table, weights, tolerance, found)
}

fn measure_overlaps<V: Overlap>(previous: &[Vec<V>], current: &[Vec<V>]) -> (table: Vec<
    Vec<V::Size>,
>)
    requires
        previous@.len() == current@.len(),
        previous@.len() > 0,
        comparable(previous@, current@),
    ensures
        overlap_table(previous@, current@, table@),
{
    let mut table: Vec<Vec<V::Size>> = Vec::new();
    while table.len() < previous.len()
        invariant
            previous@.len() == current@.len(),
            previous@.len() > 0,
            comparable(previous@, current@),
            table@.len() <= previous@.len(),
            forall|i: int|
                0 <= i < table@.len() ==> (#[trigger] table@[i])@.len() == current@.len()
                    && forall|j: int|
                    0 <= j < current@.len() ==> #[trigger] table@[i]@[j] == overlap(
                        previous@,
                        current@,
                        i,
                        j,
                    ).size_value(),
        decreases previous@.len() - table@.len(),
    {
        let row: usize = table.len();
        let mut line: Vec<V::Size> = Vec::new();
        while line.len() < current.len()
            invariant
                row < previous@.len(),
                previous@.len() == current@.len(),
                comparable(previous@, current@),
                line@.len() <= current@.len(),
                forall|j: int|
                    0 <= j < line@.len() ==> #[trigger] line@[j] == overlap(
                        previous@,
                        current@,
                        row as int,
                        j,
                    ).size_value(),
            decreases current@.len() - line@.len(),
        {
            let column: usize = line.len();
            assert(previous@[row as int]@.len() == current@[column as int]@.len());
            let product: V = measurement::inner(
                previous[row].as_slice(),
                current[column].as_slice(),
            );
            line.push(product.size());
        }
        table.push(line);
    }
    table
}

fn largest_size<V: Overlap>(table: &Vec<Vec<V::Size>>) -> (largest: V::Size)
    ensures
        largest == peak::<V>(table@, table@.len()),
{
    let mut largest: V::Size = V::no_size();
    let mut row: usize = 0;
    while row < table.len()
        invariant
            row <= table@.len(),
            largest == peak::<V>(table@, row as nat),
        decreases table@.len() - row,
    {
        let ghost start = largest;
        let line: &Vec<V::Size> = &table[row];
        let mut column: usize = 0;
        while column < line.len()
            invariant
                column <= line@.len(),
                largest == row_peak::<V>(line@, column as nat, start),
            decreases line@.len() - column,
        {
            let size: V::Size = line[column];
            if V::is_larger(size, largest) {
                largest = size;
            }
            column = column + 1;
        }
        row = row + 1;
    }
    largest
}

fn weigh<V: Overlap>(table: &Vec<Vec<V::Size>>) -> (weights: Vec<Vec<i64>>)
    requires
        forall|i: int| 0 <= i < table@.len() ==> (#[trigger] table@[i])@.len() == table@.len(),
    ensures
        weighed::<V>(table@, weights@),
        weighable(weights@),
{
    let largest: V::Size = largest_size::<V>(table);
    let mut weights: Vec<Vec<i64>> = Vec::new();
    while weights.len() < table.len()
        invariant
            largest == peak::<V>(table@, table@.len()),
            forall|i: int| 0 <= i < table@.len() ==> (#[trigger] table@[i])@.len() == table@.len(),
            weights@.len() <= table@.len(),
            forall|i: int|
                0 <= i < weights@.len() ==> (#[trigger] weights@[i])@.len() == table@.len()
                    && forall|j: int|
                    0 <= j < table@.len() ==> #[trigger] weights@[i]@[j] == V::heft(
                        table@[i]@[j],
                        largest,
                    ) && 0 <= weights@[i]@[j] <= WEIGHT_LIMIT,
        decreases table@.len() - weights@.len(),
    {
        let line: &Vec<V::Size> = &table[weights.len()];
        let mut scaled: Vec<i64> = Vec::new();
        while scaled.len() < line.len()
            invariant
                scaled@.len() <= line@.len(),
                forall|j: int|
                    0 <= j < scaled@.len() ==> #[trigger] scaled@[j] == V::heft(line@[j], largest)
                        && 0 <= scaled@[j] <= WEIGHT_LIMIT,
            decreases line@.len() - scaled@.len(),
        {
            scaled.push(V::weight(line[scaled.len()], largest));
        }
        weights.push(scaled);
    }
    weights
}

fn is_unclear<V: Overlap>(
    table: &Vec<Vec<V::Size>>,
    places: &Vec<usize>,
    tolerance: V::Size,
    row: usize,
) -> (result: bool)
    requires
        forall|i: int| 0 <= i < table@.len() ==> (#[trigger] table@[i])@.len() == table@.len(),
        assignment(places@, table@.len()),
        row < table@.len(),
    ensures
        result == unclear::<V>(table@, places@, tolerance, row as int),
{
    assert(table@[row as int]@.len() == table@.len());
    assert(places@[row as int] < table@.len());
    let place: usize = places[row];
    let chosen: V::Size = table[row][place];
    if V::is_hardly_larger(chosen, V::no_size(), tolerance) {
        return true;
    }
    let mut j: usize = 0;
    while j < table.len()
        invariant
            row < table@.len(),
            table@[row as int]@.len() == table@.len(),
            place < table@.len(),
            place == places@[row as int],
            chosen == table@[row as int]@[place as int],
            j <= table@.len(),
            forall|q: int|
                0 <= q < j && q != place ==> !V::hardly_exceeds(
                    chosen,
                    #[trigger] table@[row as int]@[q],
                    tolerance,
                ),
        decreases table@.len() - j,
    {
        if j != place && V::is_hardly_larger(chosen, table[row][j], tolerance) {
            assert(unclear::<V>(table@, places@, tolerance, row as int));
            return true;
        }
        j = j + 1;
    }
    false
}

fn has_length<V>(frame: &[Vec<V>], length: usize) -> (result: bool)
    ensures
        result == even(frame@, length as nat),
{
    let mut index: usize = 0;
    while index < frame.len()
        invariant
            index <= frame@.len(),
            forall|i: int| 0 <= i < index ==> (#[trigger] frame@[i])@.len() == length,
        decreases frame@.len() - index,
    {
        if frame[index].len() != length {
            assert(frame@[index as int]@.len() != length);
            return false;
        }
        index = index + 1;
    }
    true
}

/// Matches the states of two frames of equal rank by overlaps whose sum is as large as
/// possible, and gives the phases that align them and the states that are not clear.
pub fn track_states<V: Overlap>(
    previous: &[Vec<V>],
    current: &[Vec<V>],
    ambiguity_tolerance: V::Size,
) -> (result: Result<StateTrackingResult<V>>)
    ensures
        match result {
            Ok(found) => {
                &&& previous@.len() > 0
                &&& current@.len() == previous@.len()
                &&& V::fair(ambiguity_tolerance)
                &&& comparable(previous@, current@)
                &&& belongs(previous@, current@, ambiguity_tolerance, found)
            },
            Err(error) => if previous@.len() == 0 || current@.len() != previous@.len()
                || !V::fair(ambiguity_tolerance) {
                error is InvalidOptions
            } else {
                error is DimensionMismatch && !comparable(previous@, current@)
            },
        },
{
    let rank: usize = previous.len();
    if rank == 0 || current.len() != rank || !V::is_fair(ambiguity_tolerance) {
        return Err(
            QmbedError::InvalidOptions(
                "state tracking requires equal nonzero ranks and a nonnegative tolerance".to_string(),
            ),
        );
    }
    let dimension: usize = previous[0].len();
    if dimension == 0 || !has_length(previous, dimension) || !has_length(current, dimension) {
        return Err(
            QmbedError::DimensionMismatch(
                "tracked state vectors must have equal nonzero dimensions".to_string(),
            ),
        );
    }
    let table: Vec<Vec<V::Size>> = measure_overlaps(previous, current);
    let weights: Vec<Vec<i64>> = weigh::<V>(&table);
    let places: Vec<usize> = best_assignment(&weights);
    let mut phases: Vec<V> = Vec::new();
    let mut overlaps: Vec<V::Size> = Vec::new();
    let mut ambiguous: Vec<usize> = Vec::new();
    let mut row: usize = 0;
    while row < rank
        invariant
            rank == previous@.len(),
            rank == current@.len(),
            rank > 0,
            comparable(previous@, current@),
            overlap_table(previous@, current@, table@),
            forall|i: int| 0 <= i < table@.len() ==> (#[trigger] table@[i])@.len() == table@.len(),
            assignment(places@, rank as nat),
            row <= rank,
            phases@.len() == row,
            overlaps@.len() == row,
            forall|i: int|
                0 <= i < row ==> #[trigger] phases@[i] == overlap(
                    previous@,
                    current@,
                    i,
                    places@[i] as int,
                ).gauge_value(),
            forall|i: int|
                0 <= i < row ==> #[trigger] overlaps@[i] == table@[i]@[places@[i] as int],
            ambiguous@ == unclear_rows::<V>(table@, places@, ambiguity_tolerance, row as nat),
        decreases rank - row,
    {
        assert(table@[row as int]@.len() == rank);
        assert(places@[row as int] < rank);
        let place: usize = places[row];
        assert(previous@[row as int]@.len() == current@[place as int]@.len());
        let product: V = measurement::inner(previous[row].as_slice(), current[place].as_slice());
        phases.push(product.gauge());
        overlaps.push(table[row][place]);
        if is_unclear::<V>(&table, &places, ambiguity_tolerance, row) {
            ambiguous.push(row);
        }
        row = row + 1;
    }
    let found = StateTrackingResult { permutation: places, phases, overlaps, ambiguous };
    assert(tracks(previous@, current@, table@, weights@, ambiguity_tolerance, found));
    assert(belongs(previous@, current@, ambiguity_tolerance, found));
    Ok(found)
}

} // verus!
