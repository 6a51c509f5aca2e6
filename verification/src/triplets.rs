//! Lists of matrix entries: sums over repeated places, and sorting.

use vstd::prelude::*;
use crate::scalar::Scalar;

verus! {

/// One entry of a matrix.
#[derive(Clone, Copy, Debug)]
pub struct Triplet<V> {
    pub row: usize,
    pub column: usize,
    pub value: V,
}

/// The entry stands in the given place.
pub open spec fn stands_at<V>(entry: Triplet<V>, row: int, column: int) -> bool {
    entry.row == row && entry.column == column
}

/// The values that a list holds for one place, in order.
pub open spec fn values_at<V>(list: Seq<Triplet<V>>, row: int, column: int) -> Seq<V>
    decreases list.len(),
{
    if list.len() == 0 {
        Seq::empty()
    } else {
        let front = values_at(list.drop_last(), row, column);
        if stands_at(list.last(), row, column) {
            front.push(list.last().value)
        } else {
            front
        }
    }
}

/// The sum of values from left to right, beginning with zero.
pub open spec fn summed<V: Scalar>(values: Seq<V>) -> V
    decreases values.len(),
{
    if values.len() == 0 {
        V::zero_value()
    } else {
        summed(values.drop_last()).sum(values.last())
    }
}

/// The sum of all values that a list holds for one place.
pub open spec fn cell_sum<V: Scalar>(list: Seq<Triplet<V>>, row: int, column: int) -> V {
    summed(values_at(list, row, column))
}

/// All places lie within the shape.
pub open spec fn fits<V>(list: Seq<Triplet<V>>, rows: int, columns: int) -> bool {
    forall|i: int|
        0 <= i < list.len() ==> (#[trigger] list[i]).row < rows && list[i].column < columns
}

/// The first place comes before the second, by rows or by columns.
pub open spec fn comes_before<V>(first: Triplet<V>, second: Triplet<V>, by_column: bool) -> bool {
    if by_column {
        first.column < second.column || (first.column == second.column && first.row < second.row)
    } else {
        first.row < second.row || (first.row == second.row && first.column < second.column)
    }
}

/// Places in order, repetitions allowed.
pub open spec fn in_order<V>(list: Seq<Triplet<V>>, by_column: bool) -> bool {
    forall|i: int, j: int|
        0 <= i < j < list.len() ==> !comes_before(#[trigger] list[j], #[trigger] list[i], by_column)
}

/// Places in order, each once.
pub open spec fn strictly_ordered<V>(list: Seq<Triplet<V>>, by_column: bool) -> bool {
    forall|i: int, j: int|
        0 <= i < j < list.len() ==> comes_before(#[trigger] list[i], #[trigger] list[j], by_column)
}

pub proof fn lemma_values_concat<V>(
    left: Seq<Triplet<V>>,
    right: Seq<Triplet<V>>,
    row: int,
    column: int,
)
    ensures
        values_at(left + right, row, column) == values_at(left, row, column) + values_at(
            right,
            row,
            column,
        ),
    decreases right.len(),
{
    if right.len() == 0 {
        assert(left + right =~= left);
        assert(values_at(right, row, column) =~= Seq::<V>::empty());
        assert(values_at(left, row, column) + Seq::<V>::empty() =~= values_at(left, row, column));
    } else {
        assert((left + right).drop_last() =~= left + right.drop_last());
        lemma_values_concat(left, right.drop_last(), row, column);
        assert(values_at(left + right, row, column) =~= values_at(left, row, column) + values_at(
            right,
            row,
            column,
        ));
    }
}

proof fn lemma_single<V>(list: Seq<Triplet<V>>)
    requires
        list.len() == 1,
    ensures
        values_at(list, list[0].row as int, list[0].column as int) == seq![list[0].value],
{
    reveal_with_fuel(values_at, 2);
    assert(list.last() == list[0]);
    assert(values_at(list, list[0].row as int, list[0].column as int) =~= seq![list[0].value]);
}

/// A list without the place holds no values for it.
pub proof fn lemma_no_values<V>(list: Seq<Triplet<V>>, row: int, column: int)
    requires
        forall|i: int| 0 <= i < list.len() ==> !stands_at(#[trigger] list[i], row, column),
    ensures
        values_at(list, row, column) == Seq::<V>::empty(),
    decreases list.len(),
{
    if list.len() > 0 {
        lemma_no_values(list.drop_last(), row, column);
        assert(list.last() == list[list.len() - 1]);
    }
}

/// A list that holds the place exactly once, at `at`, holds the one value for it.
pub proof fn lemma_one_value<V>(list: Seq<Triplet<V>>, at: int)
    requires
        0 <= at < list.len(),
        forall|i: int|
            0 <= i < list.len() && i != at ==> !stands_at(
                #[trigger] list[i],
                list[at].row as int,
                list[at].column as int,
            ),
    ensures
        values_at(list, list[at].row as int, list[at].column as int) == seq![list[at].value],
{
    let row = list[at].row as int;
    let column = list[at].column as int;
    let left = list.subrange(0, at);
    let middle = list.subrange(at, at + 1);
    let right = list.subrange(at + 1, list.len() as int);
    assert(list =~= (left + middle) + right);
    lemma_values_concat(left + middle, right, row, column);
    lemma_values_concat(left, middle, row, column);
    assert forall|i: int| 0 <= i < left.len() implies !stands_at(
        #[trigger] left[i],
        row,
        column,
    ) by {
        assert(left[i] == list[i]);
    }
    assert forall|i: int| 0 <= i < right.len() implies !stands_at(
        #[trigger] right[i],
        row,
        column,
    ) by {
        assert(right[i] == list[at + 1 + i]);
    }
    lemma_no_values(left, row, column);
    lemma_no_values(right, row, column);
    assert(middle[0] == list[at]);
    lemma_single(middle);
    assert(values_at(list, row, column) =~= seq![list[at].value]);
}

/// Values held for a place stem from some entry there.
pub proof fn lemma_some_entry<V>(list: Seq<Triplet<V>>, row: int, column: int)
    requires
        values_at(list, row, column).len() > 0,
    ensures
        exists|i: int| 0 <= i < list.len() && stands_at(#[trigger] list[i], row, column),
{
    if forall|i: int| 0 <= i < list.len() ==> !stands_at(#[trigger] list[i], row, column) {
        lemma_no_values(list, row, column);
    }
}

pub fn is_before<V: Scalar>(first: &Triplet<V>, second: &Triplet<V>, by_column: bool) -> (before: bool)
    ensures
        before == comes_before(*first, *second, by_column),
{
    if by_column {
        first.column < second.column || (first.column == second.column && first.row < second.row)
    } else {
        first.row < second.row || (first.row == second.row && first.column < second.column)
    }
}

proof fn lemma_two_values<V>(list: Seq<Triplet<V>>, i: int, j: int)
    requires
        0 <= i < j < list.len(),
        list[i].row == list[j].row,
        list[i].column == list[j].column,
    ensures
        values_at(list, list[i].row as int, list[i].column as int).len() >= 2,
{
    let row = list[i].row as int;
    let column = list[i].column as int;
    let left = list.subrange(0, j);
    let right = list.subrange(j, list.len() as int);
    assert(list =~= left + right);
    lemma_values_concat(left, right, row, column);
    assert(left[i] == list[i]);
    assert(right[0] == list[j]);
    lemma_has_value(left, i);
    lemma_has_value(right, 0);
}

pub proof fn lemma_has_value<V>(list: Seq<Triplet<V>>, i: int)
    requires
        0 <= i < list.len(),
    ensures
        values_at(list, list[i].row as int, list[i].column as int).contains(list[i].value),
        values_at(list, list[i].row as int, list[i].column as int).len() >= 1,
    decreases list.len(),
{
    let row = list[i].row as int;
    let column = list[i].column as int;
    let front = values_at(list.drop_last(), row, column);
    if i == list.len() - 1 {
        assert(front.push(list[i].value).last() == list[i].value);
    } else {
        assert(list.drop_last()[i] == list[i]);
        lemma_has_value(list.drop_last(), i);
        if stands_at(list.last(), row, column) {
            let k = front.index_of(list[i].value);
            assert(front.push(list.last().value)[k] == list[i].value);
        }
    }
}

/// Sorting a list in which every place stands once gives such a list again, of the
/// same entries.
pub proof fn lemma_resorted<V>(
    list: Seq<Triplet<V>>,
    from_column: bool,
    sorted: Seq<Triplet<V>>,
    by_column: bool,
)
    requires
        strictly_ordered(list, from_column),
        in_order(sorted, by_column),
        same_values(sorted, list),
    ensures
        strictly_ordered(sorted, by_column),
        forall|i: int| 0 <= i < sorted.len() ==> list.contains(#[trigger] sorted[i]),
        forall|i: int| 0 <= i < list.len() ==> sorted.contains(#[trigger] list[i]),
{
    assert forall|i: int| 0 <= i < list.len() implies values_at(
        list,
        (#[trigger] list[i]).row as int,
        list[i].column as int,
    ) == seq![list[i].value] by {
        lemma_unique_value(list, from_column, i);
    }
    assert forall|i: int| 0 <= i < sorted.len() implies list.contains(#[trigger] sorted[i]) by {
        let row = sorted[i].row as int;
        let column = sorted[i].column as int;
        lemma_has_value(sorted, i);
        assert(values_at(sorted, row, column) == values_at(list, row, column));
        lemma_some_entry(list, row, column);
        let k = choose|k: int| 0 <= k < list.len() && stands_at(#[trigger] list[k], row, column);
        assert(values_at(list, row, column) == seq![list[k].value]);
        assert(list[k] == sorted[i]);
    }
    assert forall|i: int| 0 <= i < list.len() implies sorted.contains(#[trigger] list[i]) by {
        let row = list[i].row as int;
        let column = list[i].column as int;
        assert(values_at(sorted, row, column) == values_at(list, row, column));
        lemma_some_entry(sorted, row, column);
        let k = choose|k: int|
            0 <= k < sorted.len() && stands_at(#[trigger] sorted[k], row, column);
        lemma_has_value(sorted, k);
        assert(sorted[k] == list[i]);
    }
    assert forall|i: int, j: int| 0 <= i < j < sorted.len() implies comes_before(
        #[trigger] sorted[i],
        #[trigger] sorted[j],
        by_column,
    ) by {
        if sorted[i].row == sorted[j].row && sorted[i].column == sorted[j].column {
            lemma_two_values(sorted, i, j);
            let row = sorted[i].row as int;
            let column = sorted[i].column as int;
            assert(values_at(sorted, row, column) == values_at(list, row, column));
            let k = list.index_of(sorted[i]);
            assert(list.contains(sorted[i]));
            assert(values_at(list, list[k].row as int, list[k].column as int)
                == seq![list[k].value]);
        }
        assert(!comes_before(sorted[j], sorted[i], by_column));
    }
}

pub proof fn lemma_unique_value<V>(list: Seq<Triplet<V>>, by_column: bool, i: int)
    requires
        strictly_ordered(list, by_column),
        0 <= i < list.len(),
    ensures
        values_at(list, list[i].row as int, list[i].column as int) == seq![list[i].value],
{
    assert forall|k: int| 0 <= k < list.len() && k != i implies !stands_at(
        #[trigger] list[k],
        list[i].row as int,
        list[i].column as int,
    ) by {
        if k < i {
            assert(comes_before(list[k], list[i], by_column));
        } else {
            assert(comes_before(list[i], list[k], by_column));
        }
    }
    lemma_one_value(list, i);
}

/// Two lists hold the same values in the same order for every place.
pub open spec fn same_values<V>(left: Seq<Triplet<V>>, right: Seq<Triplet<V>>) -> bool {
    forall|row: int, column: int|
        #![trigger values_at(left, row, column)]
        #![trigger values_at(right, row, column)]
        values_at(left, row, column) == values_at(right, row, column)
}

proof fn lemma_take_left<V>(
    out: Seq<Triplet<V>>,
    left: Seq<Triplet<V>>,
    right: Seq<Triplet<V>>,
    goal: Seq<Triplet<V>>,
    i: int,
    j: int,
)
    requires
        0 <= i < left.len(),
        0 <= j <= right.len(),
        same_values(
            out + left.subrange(i, left.len() as int) + right.subrange(j, right.len() as int),
            goal,
        ),
    ensures
        same_values(
            out.push(left[i]) + left.subrange(i + 1, left.len() as int) + right.subrange(
                j,
                right.len() as int,
            ),
            goal,
        ),
{
    assert(out.push(left[i]) + left.subrange(i + 1, left.len() as int) + right.subrange(
        j,
        right.len() as int,
    ) =~= out + left.subrange(i, left.len() as int) + right.subrange(j, right.len() as int));
}

proof fn lemma_take_right<V>(
    out: Seq<Triplet<V>>,
    left: Seq<Triplet<V>>,
    right: Seq<Triplet<V>>,
    goal: Seq<Triplet<V>>,
    i: int,
    j: int,
    by_column: bool,
)
    requires
        0 <= i <= left.len(),
        0 <= j < right.len(),
        in_order(left, by_column),
        i < left.len() ==> comes_before(right[j], left[i], by_column),
        same_values(
            out + left.subrange(i, left.len() as int) + right.subrange(j, right.len() as int),
            goal,
        ),
    ensures
        same_values(
            out.push(right[j]) + left.subrange(i, left.len() as int) + right.subrange(
                j + 1,
                right.len() as int,
            ),
            goal,
        ),
{
    let l = left.subrange(i, left.len() as int);
    let r = right.subrange(j, right.len() as int);
    let r1 = right.subrange(j + 1, right.len() as int);
    let one = seq![right[j]];
    assert(out.push(right[j]) =~= out + one);
    assert(r =~= one + r1);
    assert forall|row: int, column: int|
        #![trigger values_at(out.push(right[j]) + l + r1, row, column)]
        values_at(out.push(right[j]) + l + r1, row, column) == values_at(goal, row, column) by {
        lemma_values_concat(out + one + l, r1, row, column);
        lemma_values_concat(out + one, l, row, column);
        lemma_values_concat(out, one, row, column);
        lemma_values_concat(out + l, r, row, column);
        lemma_values_concat(out, l, row, column);
        lemma_values_concat(one, r1, row, column);
        assert(values_at(out + l + r, row, column) == values_at(goal, row, column));
        if stands_at(right[j], row, column) {
            assert forall|k: int| 0 <= k < l.len() implies !stands_at(
                #[trigger] l[k],
                row,
                column,
            ) by {
                assert(l[k] == left[i + k]);
                if k > 0 {
                    assert(!comes_before(left[i + k], left[i], by_column));
                }
            }
            lemma_no_values(l, row, column);
        } else {
            assert forall|k: int| 0 <= k < one.len() implies !stands_at(
                #[trigger] one[k],
                row,
                column,
            ) by {}
            lemma_no_values(one, row, column);
        }
        assert(values_at(out, row, column) + values_at(one, row, column) + values_at(
            l,
            row,
            column,
        ) + values_at(r1, row, column) =~= values_at(out, row, column) + values_at(l, row, column)
            + (values_at(one, row, column) + values_at(r1, row, column)));
    }
}

/// Merges two ordered lists, entries of the first list first where places agree.
fn merge<V: Scalar>(left: &Vec<Triplet<V>>, right: &Vec<Triplet<V>>, by_column: bool) -> (merged: Vec<
    Triplet<V>,
>)
    requires
        in_order(left@, by_column),
        in_order(right@, by_column),
    ensures
        in_order(merged@, by_column),
        same_values(merged@, left@ + right@),
        merged@.len() == left@.len() + right@.len(),
{
    let mut merged: Vec<Triplet<V>> = Vec::new();
    let mut i: usize = 0;
    let mut j: usize = 0;
    let ghost goal = left@ + right@;
    proof {
        assert(merged@ + left@.subrange(0, left@.len() as int) + right@.subrange(
            0,
            right@.len() as int,
        ) =~= goal);
    }
    while i < left.len() || j < right.len()
        invariant
            i <= left@.len(),
            j <= right@.len(),
            merged@.len() == i + j,
            goal == left@ + right@,
            in_order(left@, by_column),
            in_order(right@, by_column),
            in_order(merged@, by_column),
            forall|k: int, m: int|
                0 <= k < merged@.len() && i <= m < left@.len() ==> !comes_before(
                    #[trigger] left@[m],
                    #[trigger] merged@[k],
                    by_column,
                ),
            forall|k: int, m: int|
                0 <= k < merged@.len() && j <= m < right@.len() ==> !comes_before(
                    #[trigger] right@[m],
                    #[trigger] merged@[k],
                    by_column,
                ),
            same_values(
                merged@ + left@.subrange(i as int, left@.len() as int) + right@.subrange(
                    j as int,
                    right@.len() as int,
                ),
                goal,
            ),
        decreases left@.len() - i + right@.len() - j,
    {
        let ghost before = merged@;
        let from_right: bool = if i == left.len() {
            true
        } else if j == right.len() {
            false
        } else {
            is_before(&right[j], &left[i], by_column)
        };
        if from_right {
            proof {
                lemma_take_right(before, left@, right@, goal, i as int, j as int, by_column);
            }
            merged.push(right[j]);
            j = j + 1;
        } else {
            proof {
                lemma_take_left(before, left@, right@, goal, i as int, j as int);
            }
            merged.push(left[i]);
            i = i + 1;
        }
    }
    assert(merged@ + left@.subrange(i as int, left@.len() as int) + right@.subrange(
        j as int,
        right@.len() as int,
    ) =~= merged@);
    merged
}

/// Sorts entries by place; entries of one place keep their order.
pub fn sort_entries<V: Scalar>(entries: &[Triplet<V>], by_column: bool) -> (sorted: Vec<Triplet<V>>)
    ensures
        in_order(sorted@, by_column),
        same_values(sorted@, entries@),
        sorted@.len() == entries@.len(),
    decreases entries@.len(),
{
    let length: usize = entries.len();
    if length <= 1 {
        let mut sorted: Vec<Triplet<V>> = Vec::new();
        if length == 1 {
            sorted.push(entries[0]);
        }
        assert(sorted@ =~= entries@);
        return sorted;
    }
    let half: usize = length / 2;
    let left: Vec<Triplet<V>> = sort_entries(
        vstd::slice::slice_subrange(entries, 0, half),
        by_column,
    );
    let right: Vec<Triplet<V>> = sort_entries(
        vstd::slice::slice_subrange(entries, half, length),
        by_column,
    );
    let merged: Vec<Triplet<V>> = merge(&left, &right, by_column);
    proof {
        let a = entries@.subrange(0, half as int);
        let b = entries@.subrange(half as int, length as int);
        assert(entries@ =~= a + b);
        assert forall|row: int, column: int|
            #![trigger values_at(merged@, row, column)]
            values_at(merged@, row, column) == values_at(entries@, row, column) by {
            lemma_values_concat(left@, right@, row, column);
            lemma_values_concat(a, b, row, column);
        }
    }
    merged
}

/// The entries of a list summed place by place, those that count as zero left out.
pub open spec fn accumulates<V: Scalar>(
    result: Seq<Triplet<V>>,
    list: Seq<Triplet<V>>,
    by_column: bool,
) -> bool {
    &&& strictly_ordered(result, by_column)
    &&& forall|i: int|
        0 <= i < result.len() ==> {
            let entry = #[trigger] result[i];
            entry.value == cell_sum(list, entry.row as int, entry.column as int)
                && !entry.value.tiny()
        }
    &&& forall|row: int, column: int|
        !(#[trigger] cell_sum(list, row, column)).tiny() ==> exists|i: int|
            0 <= i < result.len() && stands_at(#[trigger] result[i], row, column)
}

/// A sum is left out of a list.
pub open spec fn dropped<V: Scalar>(keep_all: bool, sum: V) -> bool {
    !keep_all && sum.tiny()
}

/// Sums entries place by place, leaving out those that count as zero.
pub fn accumulate<V: Scalar>(entries: &[Triplet<V>], by_column: bool) -> (result: Vec<Triplet<V>>)
    ensures
        accumulates(result@, entries@, by_column),
        result@.len() <= entries@.len(),
{
    let result: Vec<Triplet<V>> = sum_places(entries, by_column, false);
    proof {
        assert forall|row: int, column: int|
            !(#[trigger] cell_sum(entries@, row, column)).tiny() implies exists|i: int|
            0 <= i < result@.len() && stands_at(#[trigger] result@[i], row, column) by {
            if values_at(entries@, row, column).len() == 0 {
                V::lemma_zero();
            }
        }
    }
    result
}

/// Sums entries place by place.
pub fn sum_places<V: Scalar>(entries: &[Triplet<V>], by_column: bool, keep_all: bool) -> (result:
    Vec<Triplet<V>>)
    ensures
        strictly_ordered(result@, by_column),
        result@.len() <= entries@.len(),
        forall|i: int|
            0 <= i < result@.len() ==> {
                let entry = #[trigger] result@[i];
                &&& entry.value == cell_sum(entries@, entry.row as int, entry.column as int)
                &&& !dropped(keep_all, entry.value)
                &&& values_at(entries@, entry.row as int, entry.column as int).len() > 0
            },
        forall|row: int, column: int|
            (#[trigger] values_at(entries@, row, column)).len() > 0 && !dropped(
                keep_all,
                cell_sum(entries@, row, column),
            ) ==> exists|i: int|
                0 <= i < result@.len() && stands_at(#[trigger] result@[i], row, column),
{
    let sorted: Vec<Triplet<V>> = sort_entries(entries, by_column);
    let mut result: Vec<Triplet<V>> = Vec::new();
    let mut position: usize = 0;
    while position < sorted.len()
        invariant
            position <= sorted@.len(),
            result@.len() <= position,
            in_order(sorted@, by_column),
            strictly_ordered(result@, by_column),
            position == 0 || position == sorted@.len() || comes_before(
                sorted@[position - 1],
                sorted@[position as int],
                by_column,
            ),
            forall|i: int, m: int|
                0 <= i < result@.len() && position <= m < sorted@.len() ==> comes_before(
                    #[trigger] result@[i],
                    #[trigger] sorted@[m],
                    by_column,
                ),
            forall|i: int|
                0 <= i < result@.len() ==> {
                    let entry = #[trigger] result@[i];
                    entry.value == cell_sum(sorted@, entry.row as int, entry.column as int)
                        && !dropped(keep_all, entry.value) && values_at(
                        sorted@,
                        entry.row as int,
                        entry.column as int,
                    ).len() > 0
                },
            forall|m: int|
                0 <= m < position ==> {
                    let entry = #[trigger] sorted@[m];
                    dropped(
                        keep_all,
                        cell_sum(sorted@, entry.row as int, entry.column as int),
                    ) || exists|i: int|
                        0 <= i < result@.len() && stands_at(
                            #[trigger] result@[i],
                            entry.row as int,
                            entry.column as int,
                        )
                },
        decreases sorted@.len() - position,
    {
        let ghost start = position as int;
        let row: usize = sorted[position].row;
        let column: usize = sorted[position].column;
        let mut value: V = V::zero().plus(sorted[position].value);
        position = position + 1;
        proof {
            let run = sorted@.subrange(start, start + 1);
            assert(run[0] == sorted@[start]);
            lemma_single(run);
            assert(seq![sorted@[start].value].drop_last() =~= Seq::<V>::empty());
            reveal_with_fuel(summed, 2);
        }
        while position < sorted.len() && sorted[position].row == row && sorted[position].column
            == column
            invariant
                0 <= start < position <= sorted@.len(),
                forall|m: int|
                    start <= m < position ==> stands_at(
                        #[trigger] sorted@[m],
                        row as int,
                        column as int,
                    ),
                value == cell_sum(
                    sorted@.subrange(start, position as int),
                    row as int,
                    column as int,
                ),
            decreases sorted@.len() - position,
        {
            value = value.plus(sorted[position].value);
            proof {
                let run = sorted@.subrange(start, position + 1);
                assert(run.drop_last() =~= sorted@.subrange(start, position as int));
                assert(run.last() == sorted@[position as int]);
                let shorter = values_at(run.drop_last(), row as int, column as int);
                assert(shorter.push(run.last().value).drop_last() =~= shorter);
            }
            position = position + 1;
        }
        proof {
            let r = row as int;
            let c = column as int;
            let head = sorted@.subrange(0, start);
            let run = sorted@.subrange(start, position as int);
            let tail = sorted@.subrange(position as int, sorted@.len() as int);
            assert(sorted@ =~= (head + run) + tail);
            lemma_values_concat(head + run, tail, r, c);
            lemma_values_concat(head, run, r, c);
            assert forall|i: int| 0 <= i < head.len() implies !stands_at(
                #[trigger] head[i],
                r,
                c,
            ) by {
                assert(head[i] == sorted@[i]);
                if i < start - 1 {
                    assert(!comes_before(sorted@[start - 1], sorted@[i], by_column));
                }
            }
            assert forall|i: int| 0 <= i < tail.len() implies !stands_at(
                #[trigger] tail[i],
                r,
                c,
            ) by {
                assert(tail[i] == sorted@[position + i]);
                if i > 0 {
                    assert(!comes_before(sorted@[position + i], sorted@[position as int], by_column));
                }
                assert(!comes_before(sorted@[position as int], sorted@[start], by_column));
                assert(!stands_at(sorted@[position as int], r, c));
            }
            lemma_no_values(head, r, c);
            lemma_no_values(tail, r, c);
            assert(values_at(sorted@, r, c) =~= values_at(run, r, c));
            assert(sorted@[start] == run[0]);
            lemma_has_value(sorted@, start);
        }
        let ghost before = result@;
        let ghost from = start;
        if keep_all || !value.is_negligible() {
            result.push(Triplet { row, column, value });
        }
        proof {
            assert forall|i: int, m: int|
                0 <= i < result@.len() && position <= m < sorted@.len() implies comes_before(
                #[trigger] result@[i],
                #[trigger] sorted@[m],
                by_column,
            ) by {
                assert(!comes_before(sorted@[m], sorted@[position - 1], by_column));
                if m > position {
                    assert(!comes_before(sorted@[m], sorted@[position as int], by_column));
                }
                assert(!stands_at(sorted@[position as int], row as int, column as int));
                if i < before.len() {
                    assert(comes_before(before[i], sorted@[m], by_column));
                }
            }
            assert forall|m: int| 0 <= m < position implies ({
                let entry = #[trigger] sorted@[m];
                dropped(
                        keep_all,
                        cell_sum(sorted@, entry.row as int, entry.column as int),
                    ) || exists|i: int|
                    0 <= i < result@.len() && stands_at(
                        #[trigger] result@[i],
                        entry.row as int,
                        entry.column as int,
                    )
            }) by {
                let entry = sorted@[m];
                if m < from {
                    if !dropped(
                        keep_all,
                        cell_sum(sorted@, entry.row as int, entry.column as int),
                    ) {
                        let i = choose|i: int|
                            0 <= i < before.len() && stands_at(
                                #[trigger] before[i],
                                entry.row as int,
                                entry.column as int,
                            );
                        assert(result@[i] == before[i]);
                    }
                } else {
                    assert(stands_at(sorted@[m], row as int, column as int));
                    if !dropped(keep_all, value) {
                        assert(stands_at(
                            result@[before.len() as int],
                            entry.row as int,
                            entry.column as int,
                        ));
                    }
                }
            }
        }
    }
    proof {
        assert forall|i: int| 0 <= i < result@.len() implies ({
            let entry = #[trigger] result@[i];
            &&& entry.value == cell_sum(entries@, entry.row as int, entry.column as int)
            &&& values_at(entries@, entry.row as int, entry.column as int).len() > 0
        }) by {
            let entry = result@[i];
            assert(values_at(sorted@, entry.row as int, entry.column as int) == values_at(
                entries@,
                entry.row as int,
                entry.column as int,
            ));
        }
        assert forall|row: int, column: int|
            (#[trigger] values_at(entries@, row, column)).len() > 0 && !dropped(
                keep_all,
                cell_sum(entries@, row, column),
            ) implies exists|i: int|
            0 <= i < result@.len() && stands_at(#[trigger] result@[i], row, column) by {
            assert(values_at(sorted@, row, column) == values_at(entries@, row, column));
            lemma_some_entry(sorted@, row, column);
            let m = choose|m: int|
                0 <= m < sorted@.len() && stands_at(#[trigger] sorted@[m], row, column);
            let entry = sorted@[m];
            assert(cell_sum(sorted@, entry.row as int, entry.column as int) == cell_sum(
                entries@,
                row,
                column,
            ));
        }
    }
    result
}

} // verus!
