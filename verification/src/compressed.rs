//! Compressed sparse storage by rows or by columns.

use vstd::prelude::*;
use crate::scalar::Scalar;
use crate::triplets::Triplet;
use crate::triplets;

verus! {

/// The row or column that an entry is filed under.
pub open spec fn major<V>(entry: Triplet<V>, by_column: bool) -> usize {
    if by_column {
        entry.column
    } else {
        entry.row
    }
}

/// The other index of an entry.
pub open spec fn minor<V>(entry: Triplet<V>, by_column: bool) -> usize {
    if by_column {
        entry.row
    } else {
        entry.column
    }
}

pub open spec fn placed<V>(major: usize, minor: usize, value: V, by_column: bool) -> Triplet<V> {
    if by_column {
        Triplet { row: minor, column: major, value }
    } else {
        Triplet { row: major, column: minor, value }
    }
}

/// Entries filed by row or by column: the offsets say where each row or column begins
/// and, one place on, where it ends.
#[derive(Clone, Debug)]
pub struct Compressed<V> {
    pub offsets: Vec<usize>,
    pub minors: Vec<usize>,
    pub values: Vec<V>,
}

impl<V: Scalar> Compressed<V> {
    /// The offsets run over all entries in ascending order.
    pub open spec fn sound(&self, majors: int) -> bool {
        &&& self.offsets@.len() == majors + 1
        &&& self.offsets@[0] == 0
        &&& self.offsets@[majors] == self.values@.len()
        &&& self.minors@.len() == self.values@.len()
        &&& forall|i: int, j: int|
            0 <= i <= j <= majors ==> #[trigger] self.offsets@[i] <= #[trigger] self.offsets@[j]
    }

    pub open spec fn files(&self, position: int, at: int) -> bool {
        0 <= at < self.offsets@.len() - 1 && self.offsets@[at] <= position
            < self.offsets@[at + 1]
    }

    /// The row or column that the entry in a position belongs to.
    pub open spec fn major_of(&self, position: int) -> int {
        choose|at: int| self.files(position, at)
    }

    /// All entries in storage order.
    pub open spec fn entries(&self, by_column: bool) -> Seq<Triplet<V>> {
        Seq::new(
            self.values@.len(),
            |p: int|
                placed(self.major_of(p) as usize, self.minors@[p], self.values@[p], by_column),
        )
    }

    pub proof fn lemma_major(&self, majors: int, position: int, at: int)
        requires
            self.sound(majors),
            majors <= usize::MAX,
            self.files(position, at),
        ensures
            self.major_of(position) == at,
            0 <= position < self.values@.len(),
            self.entries(true)[position] == placed(
                at as usize,
                self.minors@[position],
                self.values@[position],
                true,
            ),
            self.entries(false)[position] == placed(
                at as usize,
                self.minors@[position],
                self.values@[position],
                false,
            ),
    {
        let found = self.major_of(position);
        assert(self.files(position, found));
        if found < at {
            assert(self.offsets@[found + 1] <= self.offsets@[at]);
        } else if at < found {
            assert(self.offsets@[at + 1] <= self.offsets@[found]);
        }
        assert(self.offsets@[at + 1] <= self.offsets@[majors]);
    }

    /// Every position belongs to some row or column.
    pub proof fn lemma_filed(&self, majors: int, position: int)
        requires
            self.sound(majors),
            0 <= majors <= usize::MAX,
            0 <= position < self.values@.len(),
        ensures
            self.files(position, self.major_of(position)),
            0 <= self.major_of(position) < majors,
    {
        let at = self.first_beyond(majors, position, majors);
        assert(self.files(position, at));
    }

    proof fn first_beyond(&self, majors: int, position: int, upto: int) -> (at: int)
        requires
            self.sound(majors),
            0 <= upto <= majors,
            0 <= position < self.offsets@[upto],
        ensures
            self.files(position, at),
        decreases upto,
    {
        if upto == 0 {
            0
        } else if self.offsets@[upto - 1] <= position {
            upto - 1
        } else {
            self.first_beyond(majors, position, upto - 1)
        }
    }
}

fn filed_under<V: Scalar>(entry: &Triplet<V>, by_column: bool) -> (index: usize)
    ensures
        index == major(*entry, by_column),
{
    if by_column {
        entry.column
    } else {
        entry.row
    }
}

/// Files entries that are in order.
pub fn compress<V: Scalar>(entries: &Vec<Triplet<V>>, majors: usize, by_column: bool) -> (result:
    Compressed<V>)
    requires
        majors < usize::MAX,
        triplets::strictly_ordered(entries@, by_column),
        forall|i: int|
            0 <= i < entries@.len() ==> major(#[trigger] entries@[i], by_column) < majors,
    ensures
        result.sound(majors as int),
        result.entries(by_column) == entries@,
{
    let mut offsets: Vec<usize> = Vec::new();
    let mut minors: Vec<usize> = Vec::new();
    let mut values: Vec<V> = Vec::new();
    let mut position: usize = 0;
    let mut at: usize = 0;
    offsets.push(0);
    let total: usize = entries.len();
    while at < majors
        invariant
            at <= majors,
            majors < usize::MAX,
            total == entries@.len(),
            position <= total,
            triplets::strictly_ordered(entries@, by_column),
            offsets@.len() == at + 1,
            offsets@[0] == 0,
            offsets@[at as int] == position,
            minors@.len() == position,
            values@.len() == position,
            forall|i: int, j: int|
                0 <= i <= j <= at ==> #[trigger] offsets@[i] <= #[trigger] offsets@[j],
            forall|p: int|
                0 <= p < position ==> minors@[p] == minor(#[trigger] entries@[p], by_column)
                    && values@[p] == entries@[p].value,
            forall|p: int|
                0 <= p < position ==> {
                    let m = major(#[trigger] entries@[p], by_column) as int;
                    m < at && offsets@[m] <= p < offsets@[m + 1]
                },
            forall|p: int|
                position <= p < total ==> major(#[trigger] entries@[p], by_column) >= at,
        decreases majors - at,
    {
        let ghost start = position as int;
        while position < total && filed_under(&entries[position], by_column) == at
            invariant
                start <= position <= total,
                total == entries@.len(),
                minors@.len() == position,
                values@.len() == position,
                forall|p: int|
                    0 <= p < position ==> minors@[p] == minor(#[trigger] entries@[p], by_column)
                        && values@[p] == entries@[p].value,
                forall|p: int|
                    start <= p < position ==> major(#[trigger] entries@[p], by_column) == at,
            decreases total - position,
        {
            let entry: Triplet<V> = entries[position];
            if by_column {
                minors.push(entry.row);
            } else {
                minors.push(entry.column);
            }
            values.push(entry.value);
            position = position + 1;
        }
        let ghost before = offsets@;
        offsets.push(position);
        proof {
            assert forall|p: int| 0 <= p < position implies ({
                let m = major(#[trigger] entries@[p], by_column) as int;
                m < at + 1 && offsets@[m] <= p < offsets@[m + 1]
            }) by {
                let m = major(entries@[p], by_column) as int;
                if p < start {
                    assert(before[m] <= p < before[m + 1]);
                }
            }
            assert forall|p: int| position <= p < total implies major(
                #[trigger] entries@[p],
                by_column,
            ) >= at + 1 by {
                assert(major(entries@[position as int], by_column) != at);
                if p > position {
                    assert(triplets::comes_before(
                        entries@[position as int],
                        entries@[p],
                        by_column,
                    ));
                }
            }
        }
        at = at + 1;
    }
    assert(position == total) by {
        if position < total {
            assert(major(entries@[position as int], by_column) >= majors);
        }
    }
    let result = Compressed { offsets, minors, values };
    proof {
        assert(result.sound(majors as int));
        assert forall|p: int| 0 <= p < total implies result.entries(by_column)[p]
            == #[trigger] entries@[p] by {
            let m = major(entries@[p], by_column) as int;
            assert(result.files(p, m));
            result.lemma_major(majors as int, p, m);
        }
        assert(result.entries(by_column) =~= entries@);
    }
    result
}

impl<V: Scalar> Compressed<V> {
    /// Lists all entries in storage order.
    pub fn expand(&self, majors: usize, by_column: bool) -> (list: Vec<Triplet<V>>)
        requires
            self.sound(majors as int),
        ensures
            list@ == self.entries(by_column),
    {
        let mut list: Vec<Triplet<V>> = Vec::new();
        let mut at: usize = 0;
        while at < majors
            invariant
                at <= majors,
                self.sound(majors as int),
                list@ == self.entries(by_column).subrange(0, self.offsets@[at as int] as int),
            decreases majors - at,
        {
            let begin: usize = self.offsets[at];
            let end: usize = self.offsets[at + 1];
            let mut position: usize = begin;
            while position < end
                invariant
                    at < majors,
                    self.sound(majors as int),
                    begin == self.offsets@[at as int],
                    end == self.offsets@[at + 1],
                    begin <= position <= end,
                    end <= self.values@.len(),
                    list@ == self.entries(by_column).subrange(0, position as int),
                decreases end - position,
            {
                let minor: usize = self.minors[position];
                let value: V = self.values[position];
                proof {
                    assert(self.files(position as int, at as int));
                    self.lemma_major(majors as int, position as int, at as int);
                }
                if by_column {
                    list.push(Triplet { row: minor, column: at, value });
                } else {
                    list.push(Triplet { row: at, column: minor, value });
                }
                assert(list@ =~= self.entries(by_column).subrange(0, position + 1));
                position = position + 1;
            }
            at = at + 1;
        }
        assert(self.entries(by_column).subrange(0, self.values@.len() as int) =~= self.entries(
            by_column,
        ));
        list
    }
}

/// The value in a place of a list, zero where the list has none.
#[verifier::opaque]
pub open spec fn list_cell<V: Scalar>(list: Seq<Triplet<V>>, row: int, column: int) -> V {
    if exists|i: int| 0 <= i < list.len() && triplets::stands_at(#[trigger] list[i], row, column) {
        let i = choose|i: int|
            0 <= i < list.len() && triplets::stands_at(#[trigger] list[i], row, column);
        list[i].value
    } else {
        V::zero_value()
    }
}

pub proof fn lemma_list_cell_at<V: Scalar>(list: Seq<Triplet<V>>, by_column: bool, at: int)
    requires
        triplets::strictly_ordered(list, by_column),
        0 <= at < list.len(),
    ensures
        list_cell(list, list[at].row as int, list[at].column as int) == list[at].value,
{
    reveal(list_cell);
    let row = list[at].row as int;
    let column = list[at].column as int;
    assert(triplets::stands_at(list[at], row, column));
    let i = choose|i: int|
        0 <= i < list.len() && triplets::stands_at(#[trigger] list[i], row, column);
    if i < at {
        assert(triplets::comes_before(list[i], list[at], by_column));
    } else if at < i {
        assert(triplets::comes_before(list[at], list[i], by_column));
    }
}

pub proof fn lemma_list_cell_absent<V: Scalar>(list: Seq<Triplet<V>>, row: int, column: int)
    requires
        forall|i: int|
            0 <= i < list.len() ==> !triplets::stands_at(#[trigger] list[i], row, column),
    ensures
        list_cell(list, row, column) == V::zero_value(),
{
    reveal(list_cell);
}

/// A place whose value is not zero has an entry.
pub proof fn lemma_list_cell_some<V: Scalar>(list: Seq<Triplet<V>>, row: int, column: int)
    requires
        list_cell(list, row, column) != V::zero_value(),
    ensures
        exists|i: int|
            0 <= i < list.len() && triplets::stands_at(#[trigger] list[i], row, column),
{
    reveal(list_cell);
}

/// The value in a place of an accumulated list is the sum over the place, or zero
/// where that counts as zero.
pub proof fn lemma_accumulated_cell<V: Scalar>(
    result: Seq<Triplet<V>>,
    list: Seq<Triplet<V>>,
    by_column: bool,
    row: int,
    column: int,
)
    requires
        triplets::accumulates(result, list, by_column),
    ensures
        list_cell(result, row, column) == (if triplets::cell_sum(list, row, column).tiny() {
            V::zero_value()
        } else {
            triplets::cell_sum(list, row, column)
        }),
{
    if triplets::cell_sum(list, row, column).tiny() {
        assert forall|i: int| 0 <= i < result.len() implies !triplets::stands_at(
            #[trigger] result[i],
            row,
            column,
        ) by {}
        lemma_list_cell_absent(result, row, column);
    } else {
        let i = choose|i: int|
            0 <= i < result.len() && triplets::stands_at(#[trigger] result[i], row, column);
        lemma_list_cell_at(result, by_column, i);
    }
}

} // verus!
