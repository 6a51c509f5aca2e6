//! Reading the entries of a matrix.

use vstd::prelude::*;
use crate::bands;
use crate::compressed::Compressed;
use crate::compressed;
use crate::error::{QmbedError, Result};
use crate::operator::{MatrixFormat, Operator, Storage};
use crate::operator;
use crate::scalar::Scalar;
use crate::scalar;
use crate::triplets::Triplet;
use crate::triplets;

verus! {

impl<V: Scalar> Compressed<V> {
    /// Within a row or column the other index ascends.
    proof fn lemma_ascends(&self, majors: int, by_column: bool, at: int, p: int, q: int)
        requires
            self.sound(majors),
            0 <= majors <= usize::MAX,
            triplets::strictly_ordered(self.entries(by_column), by_column),
            self.files(p, at),
            self.files(q, at),
            p < q,
        ensures
            self.minors@[p] < self.minors@[q],
    {
        self.lemma_major(majors, p, at);
        self.lemma_major(majors, q, at);
        assert(triplets::comes_before(
            self.entries(by_column)[p],
            self.entries(by_column)[q],
            by_column,
        ));
    }

    /// The value filed under a pair of indices, zero where there is none.
    fn find(&self, majors: usize, by_column: bool, at: usize, minor: usize) -> (value: V)
        requires
            self.sound(majors as int),
            triplets::strictly_ordered(self.entries(by_column), by_column),
            at < majors,
        ensures
            value == compressed::list_cell(
                self.entries(by_column),
                (if by_column { minor } else { at }) as int,
                (if by_column { at } else { minor }) as int,
            ),
    {
        let ghost row = (if by_column { minor } else { at }) as int;
        let ghost column = (if by_column { at } else { minor }) as int;
        let begin: usize = self.offsets[at];
        let end: usize = self.offsets[at + 1];
        let mut low: usize = begin;
        let mut high: usize = end;
        assert(self.offsets@[at + 1] <= self.offsets@[majors as int]);
        while low < high
            invariant
                self.sound(majors as int),
                triplets::strictly_ordered(self.entries(by_column), by_column),
                at < majors,
                begin == self.offsets@[at as int],
                end == self.offsets@[at + 1],
                begin <= low <= high <= end,
                end <= self.minors@.len(),
                forall|p: int| begin <= p < low ==> #[trigger] self.minors@[p] < minor,
                forall|p: int| high <= p < end ==> #[trigger] self.minors@[p] >= minor,
            decreases high - low,
        {
            let middle: usize = low + (high - low) / 2;
            if self.minors[middle] < minor {
                proof {
                    assert forall|p: int| begin <= p < middle + 1 implies #[trigger] self.minors@[p]
                        < minor by {
                        if p < middle {
                            assert(self.files(p, at as int) && self.files(middle as int, at as int));
                            self.lemma_ascends(
                                majors as int,
                                by_column,
                                at as int,
                                p,
                                middle as int,
                            );
                        }
                    }
                }
                low = middle + 1;
            } else {
                proof {
                    assert forall|p: int| middle <= p < end implies #[trigger] self.minors@[p]
                        >= minor by {
                        if p > middle {
                            assert(self.files(p, at as int) && self.files(middle as int, at as int));
                            self.lemma_ascends(
                                majors as int,
                                by_column,
                                at as int,
                                middle as int,
                                p,
                            );
                        }
                    }
                }
                high = middle;
            }
        }
        if low < end && self.minors[low] == minor {
            proof {
                assert(self.files(low as int, at as int));
                self.lemma_major(majors as int, low as int, at as int);
                compressed::lemma_list_cell_at(self.entries(by_column), by_column, low as int);
            }
            self.values[low]
        } else {
            proof {
                assert forall|i: int|
                    0 <= i < self.entries(by_column).len() implies !triplets::stands_at(
                    #[trigger] self.entries(by_column)[i],
                    row,
                    column,
                ) by {
                    self.lemma_filed(majors as int, i);
                    let m = self.major_of(i);
                    self.lemma_major(majors as int, i, m);
                    if m == at {
                        assert(begin <= i < end);
                        if i < low {
                            assert(self.minors@[i] < minor);
                        } else {
                            assert(self.minors@[i] >= minor);
                            if i > low {
                                assert(self.files(low as int, at as int));
                                self.lemma_ascends(
                                    majors as int,
                                    by_column,
                                    at as int,
                                    low as int,
                                    i,
                                );
                            }
                        }
                    }
                }
                compressed::lemma_list_cell_absent(self.entries(by_column), row, column);
            }
            V::zero()
        }
    }
}

/// The value in a place of an ordered list, zero where there is none.
fn find_in_list<V: Scalar>(list: &Vec<Triplet<V>>, row: usize, column: usize) -> (value: V)
    requires
        triplets::strictly_ordered(list@, false),
    ensures
        value == compressed::list_cell(list@, row as int, column as int),
{
    let wanted: Triplet<V> = Triplet { row, column, value: V::zero() };
    let mut low: usize = 0;
    let mut high: usize = list.len();
    while low < high
        invariant
            low <= high <= list@.len(),
            triplets::strictly_ordered(list@, false),
            wanted.row == row,
            wanted.column == column,
            forall|i: int|
                0 <= i < low ==> triplets::comes_before(#[trigger] list@[i], wanted, false),
            forall|i: int|
                high <= i < list@.len() ==> !triplets::comes_before(
                    #[trigger] list@[i],
                    wanted,
                    false,
                ),
        decreases high - low,
    {
        let middle: usize = low + (high - low) / 2;
        if triplets::is_before(&list[middle], &wanted, false) {
            proof {
                assert forall|i: int| 0 <= i < middle + 1 implies triplets::comes_before(
                    #[trigger] list@[i],
                    wanted,
                    false,
                ) by {
                    if i < middle {
                        assert(triplets::comes_before(list@[i], list@[middle as int], false));
                    }
                }
            }
            low = middle + 1;
        } else {
            proof {
                assert forall|i: int| middle <= i < list@.len() implies !triplets::comes_before(
                    #[trigger] list@[i],
                    wanted,
                    false,
                ) by {
                    if i > middle {
                        assert(triplets::comes_before(list@[middle as int], list@[i], false));
                    }
                }
            }
            high = middle;
        }
    }
    if low < list.len() && list[low].row == row && list[low].column == column {
        proof {
            compressed::lemma_list_cell_at(list@, false, low as int);
        }
        list[low].value
    } else {
        proof {
            assert forall|i: int| 0 <= i < list@.len() implies !triplets::stands_at(
                #[trigger] list@[i],
                row as int,
                column as int,
            ) by {
                if i > low {
                    assert(triplets::comes_before(list@[low as int], list@[i], false));
                    assert(!triplets::comes_before(list@[low as int], wanted, false));
                }
            }
            compressed::lemma_list_cell_absent(list@, row as int, column as int);
        }
        V::zero()
    }
}

/// A copy of a list of numbers.
pub(crate) fn copy_values<V: Scalar>(values: &[V]) -> (copy: Vec<V>)
    ensures
        copy@ == values@,
{
    let mut copy: Vec<V> = Vec::new();
    let mut index: usize = 0;
    while index < values.len()
        invariant
            index <= values@.len(),
            copy@ == values@.subrange(0, index as int),
        decreases values@.len() - index,
    {
        copy.push(values[index]);
        index = index + 1;
        assert(copy@ =~= values@.subrange(0, index as int));
    }
    assert(values@.subrange(0, index as int) =~= values@);
    copy
}

pub(crate) fn copy_entries<V: Scalar>(list: &Vec<Triplet<V>>) -> (copy: Vec<Triplet<V>>)
    ensures
        copy@ == list@,
{
    let mut copy: Vec<Triplet<V>> = Vec::new();
    let mut index: usize = 0;
    while index < list.len()
        invariant
            index <= list@.len(),
            copy@ == list@.subrange(0, index as int),
        decreases list@.len() - index,
    {
        copy.push(list[index]);
        index = index + 1;
        assert(copy@ =~= list@.subrange(0, index as int));
    }
    assert(list@.subrange(0, index as int) =~= list@);
    copy
}

/// The entries of dense storage that are not zero, row by row.
fn list_dense<V: Scalar>(values: &Vec<V>, rows: usize, columns: usize) -> (list: Vec<Triplet<V>>)
    requires
        values@.len() == rows * columns,
    ensures
        operator::good_list(true, list@, false, rows as int, columns as int),
        forall|i: int|
            0 <= i < list@.len() ==> (#[trigger] list@[i]).value == values@[operator::cell_index(
                columns as int,
                list@[i].row as int,
                list@[i].column as int,
            )],
        forall|row: int, column: int|
            0 <= row < rows && 0 <= column < columns && !scalar::blank(true, values@[#[trigger] operator::cell_index(
                columns as int,
                row,
                column,
            )]) ==> exists|i: int|
                0 <= i < list@.len() && triplets::stands_at(#[trigger] list@[i], row, column),
{
    let total: usize = values.len();
    let mut list: Vec<Triplet<V>> = Vec::new();
    let mut row: usize = 0;
    while row < rows
        invariant
            row <= rows,
            total == values@.len(),
            total == rows * columns,
            operator::good_list(true, list@, false, rows as int, columns as int),
            forall|i: int| 0 <= i < list@.len() ==> (#[trigger] list@[i]).row < row,
            forall|i: int|
                0 <= i < list@.len() ==> (#[trigger] list@[i]).value
                    == values@[operator::cell_index(
                    columns as int,
                    list@[i].row as int,
                    list@[i].column as int,
                )],
            forall|r: int, c: int|
                0 <= r < row && 0 <= c < columns && !scalar::blank(true, values@[#[trigger] operator::cell_index(
                    columns as int,
                    r,
                    c,
                )]) ==> exists|i: int|
                    0 <= i < list@.len() && triplets::stands_at(#[trigger] list@[i], r, c),
        decreases rows - row,
    {
        let mut column: usize = 0;
        while column < columns
            invariant
                row < rows,
                column <= columns,
                total == values@.len(),
                total == rows * columns,
                operator::good_list(true, list@, false, rows as int, columns as int),
                forall|i: int|
                    0 <= i < list@.len() ==> (#[trigger] list@[i]).row < row || (list@[i].row
                        == row && list@[i].column < column),
                forall|i: int|
                    0 <= i < list@.len() ==> (#[trigger] list@[i]).value
                        == values@[operator::cell_index(
                        columns as int,
                        list@[i].row as int,
                        list@[i].column as int,
                    )],
                forall|r: int, c: int|
                    0 <= r < row && 0 <= c < columns && !scalar::blank(true, values@[#[trigger] operator::cell_index(
                        columns as int,
                        r,
                        c,
                    )]) ==> exists|i: int|
                        0 <= i < list@.len() && triplets::stands_at(#[trigger] list@[i], r, c),
                forall|c: int|
                    0 <= c < column && !scalar::blank(true, values@[#[trigger] operator::cell_index(
                        columns as int,
                        row as int,
                        c,
                    )]) ==> exists|i: int|
                        0 <= i < list@.len() && triplets::stands_at(
                            #[trigger] list@[i],
                            row as int,
                            c,
                        ),
            decreases columns - column,
        {
            proof {
                operator::lemma_cell_index(
                    rows as int,
                    columns as int,
                    row as int,
                    column as int,
                );
            }
            let value: V = values[row * columns + column];
            let ghost before = list@;
            if !value.is_zero() {
                list.push(Triplet { row, column, value });
                proof {
                    let n = before.len() as int;
                    assert(triplets::stands_at(list@[n], row as int, column as int));
                    assert forall|r: int, c: int|
                        0 <= r < row && 0 <= c < columns
                            && !scalar::blank(true, values@[#[trigger] operator::cell_index(
                            columns as int,
                            r,
                            c,
                        )]) implies exists|i: int|
                        0 <= i < list@.len() && triplets::stands_at(#[trigger] list@[i], r, c) by {
                        let i = choose|i: int|
                            0 <= i < before.len() && triplets::stands_at(
                                #[trigger] before[i],
                                r,
                                c,
                            );
                        assert(list@[i] == before[i]);
                    }
                    assert forall|c: int|
                        0 <= c < column + 1 && !scalar::blank(true, values@[#[trigger] operator::cell_index(
                            columns as int,
                            row as int,
                            c,
                        )]) implies exists|i: int|
                        0 <= i < list@.len() && triplets::stands_at(
                            #[trigger] list@[i],
                            row as int,
                            c,
                        ) by {
                        if c < column {
                            let i = choose|i: int|
                                0 <= i < before.len() && triplets::stands_at(
                                    #[trigger] before[i],
                                    row as int,
                                    c,
                                );
                            assert(list@[i] == before[i]);
                        }
                    }
                }
            }
            column = column + 1;
        }
        row = row + 1;
    }
    list
}

/// The entries of diagonal storage that are not zero, diagonal by diagonal.
fn list_bands<V: Scalar>(diagonals: &bands::Bands<V>, rows: usize, columns: usize) -> (list: Vec<
    Triplet<V>,
>)
    requires
        diagonals.sound(rows as int, columns as int),
    ensures
        operator::good_list(true, list@, false, rows as int, columns as int),
        forall|i: int|
            0 <= i < list@.len() ==> (#[trigger] list@[i]).value == diagonals.cell(
                rows as int,
                list@[i].row as int,
                list@[i].column as int,
            ),
        forall|row: int, column: int|
            0 <= row < rows && 0 <= column < columns && !scalar::blank(true, #[trigger] diagonals.cell(
                rows as int,
                row,
                column,
            )) ==> exists|i: int|
                0 <= i < list@.len() && triplets::stands_at(#[trigger] list@[i], row, column),
{
    let total: usize = diagonals.values.len();
    let mut list: Vec<Triplet<V>> = Vec::new();
    let mut row: usize = 0;
    while row < rows
        invariant
            row <= rows,
            total == diagonals.values@.len(),
            diagonals.sound(rows as int, columns as int),
            operator::good_list(true, list@, false, rows as int, columns as int),
            forall|i: int| 0 <= i < list@.len() ==> (#[trigger] list@[i]).row < row,
            forall|i: int|
                0 <= i < list@.len() ==> (#[trigger] list@[i]).value == diagonals.cell(
                    rows as int,
                    list@[i].row as int,
                    list@[i].column as int,
                ),
            forall|r: int, c: int|
                0 <= r < row && 0 <= c < columns && !scalar::blank(true, #[trigger] diagonals.cell(
                    rows as int,
                    r,
                    c,
                )) ==> exists|i: int|
                    0 <= i < list@.len() && triplets::stands_at(#[trigger] list@[i], r, c),
        decreases rows - row,
    {
        // descending diagonals meet the row in ascending columns
        let mut left: usize = diagonals.offsets.len();
        while left > 0
            invariant
                row < rows,
                left <= diagonals.offsets@.len(),
                total == diagonals.values@.len(),
                diagonals.sound(rows as int, columns as int),
                operator::good_list(true, list@, false, rows as int, columns as int),
                forall|i: int|
                    0 <= i < list@.len() ==> (#[trigger] list@[i]).row < row || (list@[i].row
                        == row && (forall|b: int|
                        0 <= b < left ==> list@[i].column < row
                            - #[trigger] diagonals.offsets@[b])),
                forall|i: int|
                    0 <= i < list@.len() ==> (#[trigger] list@[i]).value == diagonals.cell(
                        rows as int,
                        list@[i].row as int,
                        list@[i].column as int,
                    ),
                forall|r: int, c: int|
                    0 <= r < row && 0 <= c < columns && !scalar::blank(true, #[trigger] diagonals.cell(
                        rows as int,
                        r,
                        c,
                    )) ==> exists|i: int|
                        0 <= i < list@.len() && triplets::stands_at(#[trigger] list@[i], r, c),
                forall|b: int|
                    left <= b < diagonals.offsets@.len() && 0 <= row
                        - #[trigger] diagonals.offsets@[b] < columns && !scalar::blank(true, diagonals.cell(
                        rows as int,
                        row as int,
                        row - diagonals.offsets@[b],
                    )) ==> exists|i: int|
                        0 <= i < list@.len() && triplets::stands_at(
                            #[trigger] list@[i],
                            row as int,
                            row - diagonals.offsets@[b],
                        ),
            decreases left,
        {
            let ghost before = list@;
            let ghost upper = left as int;
            left = left - 1;
            let offset: i128 = diagonals.offsets[left];
            assert(-columns < diagonals.offsets@[left as int] < rows);
            let column: i128 = row as i128 - offset;
            if 0 <= column && column < columns as i128 {
                proof {
                    bands::lemma_slot(
                        diagonals.offsets@.len() as int,
                        rows as int,
                        left as int,
                        row as int,
                    );
                    diagonals.lemma_cell_at(
                        rows as int,
                        columns as int,
                        left as int,
                        row as int,
                        column as int,
                    );
                }
                let value: V = diagonals.values[left * rows + row];
                if !value.is_zero() {
                    list.push(Triplet { row, column: column as usize, value });
                    proof {
                        let n = before.len() as int;
                        assert(triplets::stands_at(list@[n], row as int, column as int));
                        assert forall|i: int, j: int|
                            0 <= i < j < list@.len() implies triplets::comes_before(
                            #[trigger] list@[i],
                            #[trigger] list@[j],
                            false,
                        ) by {
                            if j == n {
                                assert(diagonals.offsets@[left as int] == offset);
                            }
                        }
                    }
                }
            }
            proof {
                assert forall|i: int| 0 <= i < list@.len() implies (#[trigger] list@[i]).row < row
                    || (list@[i].row == row && (forall|b: int|
                    0 <= b < left ==> list@[i].column < row
                        - #[trigger] diagonals.offsets@[b])) by {
                    if i == before.len() {
                        assert forall|b: int| 0 <= b < left implies list@[i].column < row
                            - #[trigger] diagonals.offsets@[b] by {
                            assert(diagonals.offsets@[b] < diagonals.offsets@[left as int]);
                        }
                    } else {
                        assert(list@[i] == before[i]);
                    }
                }
                assert forall|r: int, c: int|
                    0 <= r < row && 0 <= c < columns && !scalar::blank(true, #[trigger] diagonals.cell(
                        rows as int,
                        r,
                        c,
                    )) implies exists|i: int|
                    0 <= i < list@.len() && triplets::stands_at(#[trigger] list@[i], r, c) by {
                    let i = choose|i: int|
                        0 <= i < before.len() && triplets::stands_at(#[trigger] before[i], r, c);
                    assert(list@[i] == before[i]);
                }
                assert forall|b: int|
                    left <= b < diagonals.offsets@.len() && 0 <= row
                        - #[trigger] diagonals.offsets@[b] < columns && !scalar::blank(true, diagonals.cell(
                        rows as int,
                        row as int,
                        row - diagonals.offsets@[b],
                    )) implies exists|i: int|
                    0 <= i < list@.len() && triplets::stands_at(
                        #[trigger] list@[i],
                        row as int,
                        row - diagonals.offsets@[b],
                    ) by {
                    if b > left {
                        let i = choose|i: int|
                            0 <= i < before.len() && triplets::stands_at(
                                #[trigger] before[i],
                                row as int,
                                row - diagonals.offsets@[b],
                            );
                        assert(list@[i] == before[i]);
                    }
                }
            }
        }
        proof {
            assert forall|r: int, c: int|
                0 <= r < row + 1 && 0 <= c < columns && !scalar::blank(true, #[trigger] diagonals.cell(
                    rows as int,
                    r,
                    c,
                )) implies exists|i: int|
                0 <= i < list@.len() && triplets::stands_at(#[trigger] list@[i], r, c) by {
                if r == row {
                    if diagonals.covers(r, c) {
                        let b = choose|b: int|
                            0 <= b < diagonals.offsets@.len() && #[trigger] diagonals.offsets@[b]
                                == r - c;
                        assert(row - diagonals.offsets@[b] == c);
                    } else {
                        diagonals.lemma_cell_absent(rows as int, r, c);
                        V::lemma_zero();
                    }
                }
            }
        }
        row = row + 1;
    }
    list
}

/// A row-by-row list with the cells of the matrix spells the matrix.
proof fn lemma_spelled<V: Scalar>(matrix: &Operator<V>, list: Seq<Triplet<V>>)
    requires
        operator::good_list(true, list, false, matrix.rows(), matrix.columns()),
        forall|row: int, column: int|
            matrix.inside(row, column) ==> #[trigger] matrix.entry(row, column)
                == compressed::list_cell(list, row, column),
    ensures
        matrix.spelled_as(true, list),
{
    assert forall|i: int| 0 <= i < list.len() implies (#[trigger] list[i]).value == matrix.entry(
        list[i].row as int,
        list[i].column as int,
    ) by {
        compressed::lemma_list_cell_at(list, false, i);
        assert(matrix.inside(list[i].row as int, list[i].column as int));
    }
    assert forall|row: int, column: int|
        matrix.inside(row, column) && !scalar::blank(true, #[trigger] matrix.entry(row, column)) implies exists|
        i: int,
    | 0 <= i < list.len() && triplets::stands_at(#[trigger] list[i], row, column) by {
        compressed::lemma_list_cell_some(list, row, column);
    }
}

/// Drops the entries that count as zero.
fn keep_weighty<V: Scalar>(
    matrix: &Operator<V>,
    list: &Vec<Triplet<V>>,
) -> (kept: Vec<Triplet<V>>)
    requires
        matrix.spelled_as(true, list@),
    ensures
        matrix.spelled(kept@),
{
    let ghost rows = matrix.rows();
    let ghost columns = matrix.columns();
    let mut kept: Vec<Triplet<V>> = Vec::new();
    let mut index: usize = 0;
    while index < list.len()
        invariant
            index <= list@.len(),
            rows == matrix.rows(),
            columns == matrix.columns(),
            operator::good_list(true, list@, false, rows, columns),
            operator::good_list(false, kept@, false, rows, columns),
            forall|i: int, j: int|
                0 <= i < kept@.len() && index <= j < list@.len() ==> triplets::comes_before(
                    #[trigger] kept@[i],
                    #[trigger] list@[j],
                    false,
                ),
            forall|i: int| 0 <= i < kept@.len() ==> list@.contains(#[trigger] kept@[i]),
            forall|j: int|
                0 <= j < index && !(#[trigger] list@[j]).value.tiny() ==> kept@.contains(list@[j]),
        decreases list@.len() - index,
    {
        let ghost before = kept@;
        let entry: Triplet<V> = list[index];
        if !entry.value.is_negligible() {
            kept.push(entry);
        }
        proof {
            assert forall|j: int|
                0 <= j < index + 1 && !(#[trigger] list@[j]).value.tiny() implies kept@.contains(
                list@[j],
            ) by {
                if j < index {
                    let i = choose|i: int| 0 <= i < before.len() && before[i] == list@[j];
                    assert(kept@[i] == list@[j]);
                } else {
                    assert(kept@[before.len() as int] == list@[j]);
                }
            }
            assert forall|i: int| 0 <= i < kept@.len() implies list@.contains(
                #[trigger] kept@[i],
            ) by {
                if i < before.len() {
                    assert(kept@[i] == before[i]);
                }
            }
        }
        index = index + 1;
    }
    proof {
        assert forall|i: int| 0 <= i < kept@.len() implies (#[trigger] kept@[i]).value
            == matrix.entry(kept@[i].row as int, kept@[i].column as int) by {
            let j = choose|j: int| 0 <= j < list@.len() && list@[j] == kept@[i];
            assert(list@[j].value == matrix.entry(list@[j].row as int, list@[j].column as int));
        }
        assert forall|row: int, column: int|
            matrix.inside(row, column) && !scalar::blank(
                false,
                #[trigger] matrix.entry(row, column),
            ) implies exists|i: int|
            0 <= i < kept@.len() && triplets::stands_at(#[trigger] kept@[i], row, column) by {
            V::lemma_zero();
            let j = choose|j: int|
                0 <= j < list@.len() && triplets::stands_at(#[trigger] list@[j], row, column);
            assert(!list@[j].value.tiny());
            let i = choose|i: int| 0 <= i < kept@.len() && kept@[i] == list@[j];
            assert(triplets::stands_at(kept@[i], row, column));
        }
    }
    kept
}

impl<V: Scalar> Operator<V> {
    /// The entries that do not count as zero, row by row.
    pub fn triplets(&self) -> (list: Vec<Triplet<V>>)
        requires
            self.wf(),
        ensures
            self.spelled(list@),
    {
        let list: Vec<Triplet<V>> = self.stored_entries();
        keep_weighty(self, &list)
    }

    /// The entries that are not zero, row by row.
    pub fn stored_entries(&self) -> (list: Vec<Triplet<V>>)
        requires
            self.wf(),
        ensures
            self.spelled_as(true, list@),
    {
        let rows: usize = self.shape.0;
        let columns: usize = self.shape.1;
        match &self.storage {
            Storage::Dense(values) => {
                let list: Vec<Triplet<V>> = list_dense(values, rows, columns);
                proof {
                    assert forall|row: int, column: int|
                        self.inside(row, column) && !scalar::blank(
                            true,
                            #[trigger] self.entry(row, column),
                        ) implies exists|i: int|
                        0 <= i < list@.len() && triplets::stands_at(
                            #[trigger] list@[i],
                            row,
                            column,
                        ) by {
                        assert(!scalar::blank(
                            true,
                            values@[operator::cell_index(columns as int, row, column)],
                        ));
                    }
                }
                list
            },
            Storage::Csc(filed) => {
                let expanded: Vec<Triplet<V>> = filed.expand(columns, true);
                let list: Vec<Triplet<V>> = operator::resort(
                    &expanded,
                    rows,
                    columns,
                    Ghost(true),
                    false,
                );
                proof {
                    lemma_spelled(self, list@);
                }
                list
            },
            Storage::Csr(filed) => {
                let list: Vec<Triplet<V>> = filed.expand(rows, false);
                proof {
                    lemma_spelled(self, list@);
                }
                list
            },
            Storage::Dia(diagonals) => list_bands(diagonals, rows, columns),
            Storage::MatrixFree(entries) => {
                let list: Vec<Triplet<V>> = copy_entries(entries);
                proof {
                    lemma_spelled(self, list@);
                }
                list
            },
        }
    }

    /// The value in a place.
    pub fn value_at(&self, row: usize, column: usize) -> (value: V)
        requires
            self.wf(),
            self.inside(row as int, column as int),
        ensures
            value == self.entry(row as int, column as int),
    {
        let rows: usize = self.shape.0;
        let columns: usize = self.shape.1;
        match &self.storage {
            Storage::Dense(values) => {
                let total: usize = values.len();
                proof {
                    operator::lemma_cell_index(
                        rows as int,
                        columns as int,
                        row as int,
                        column as int,
                    );
                    assert(total == rows * columns);
                }
                values[row * columns + column]
            },
            Storage::Csc(filed) => filed.find(columns, true, column, row),
            Storage::Csr(filed) => filed.find(rows, false, row, column),
            Storage::Dia(diagonals) => {
                let total: usize = diagonals.values.len();
                let offset: i128 = row as i128 - column as i128;
                match diagonals.find(offset) {
                    Some(band) => {
                        proof {
                            bands::lemma_slot(
                                diagonals.offsets@.len() as int,
                                rows as int,
                                band as int,
                                row as int,
                            );
                            diagonals.lemma_cell_at(
                                rows as int,
                                columns as int,
                                band as int,
                                row as int,
                                column as int,
                            );
                        }
                        diagonals.values[band * rows + row]
                    },
                    None => {
                        proof {
                            diagonals.lemma_cell_absent(rows as int, row as int, column as int);
                        }
                        V::zero()
                    },
                }
            },
            Storage::MatrixFree(list) => find_in_list(list, row, column),
        }
    }

    /// All values, row by row.
    pub fn to_dense(&self) -> (values: Vec<V>)
        requires
            self.wf(),
            self.rows() * self.columns() <= usize::MAX,
        ensures
            values@.len() == self.rows() * self.columns(),
            forall|row: int, column: int|
                self.inside(row, column) ==> values@[operator::cell_index(
                    self.columns(),
                    row,
                    column,
                )] == #[trigger] self.entry(row, column),
    {
        if let Storage::Dense(values) = &self.storage {
            return copy_values(values.as_slice());
        }
        let list: Vec<Triplet<V>> = self.stored_entries();
        let values: Vec<V> = operator::spread_list(&list, self.shape.0, self.shape.1);
        proof {
            assert forall|row: int, column: int| self.inside(row, column) implies values@[
                operator::cell_index(self.columns(), row, column)] == #[trigger] self.entry(
                row,
                column,
            ) by {
                operator::lemma_spelled_cell(self, list@, row, column);
            }
        }
        values
    }

    /// The number of entries that do not count as zero.
    pub fn nnz(&self) -> (count: usize)
        requires
            self.wf(),
        ensures
            exists|list: Seq<Triplet<V>>| #[trigger] self.spelled(list) && list.len() == count,
    {
        let list: Vec<Triplet<V>> = self.triplets();
        list.len()
    }

    /// The bytes that the stored numbers and indices take up.
    pub open spec fn footprint(&self) -> nat {
        let number = vstd::layout::size_of::<V>();
        let index = vstd::layout::size_of::<usize>();
        match &self.storage {
            Storage::Dense(values) => values@.len() * number,
            Storage::Csc(filed) => filed.offsets@.len() * index + filed.minors@.len() * index
                + filed.values@.len() * number,
            Storage::Csr(filed) => filed.offsets@.len() * index + filed.minors@.len() * index
                + filed.values@.len() * number,
            Storage::Dia(diagonals) => diagonals.offsets@.len() * vstd::layout::size_of::<isize>()
                + diagonals.values@.len() * number,
            Storage::MatrixFree(list) => list@.len() * vstd::layout::size_of::<Triplet<V>>(),
        }
    }

    /// The memory that the matrix takes up.
    pub fn memory_bytes(&self) -> (bytes: usize)
        requires
            self.footprint() <= usize::MAX,
        ensures
            bytes == self.footprint(),
    {
        let number: usize = core::mem::size_of::<V>();
        let index: usize = core::mem::size_of::<usize>();
        match &self.storage {
            Storage::Dense(values) => product_of(values.len(), number),
            Storage::Csc(filed) => lists_of(
                filed.offsets.len(),
                filed.minors.len(),
                filed.values.len(),
                index,
                number,
            ),
            Storage::Csr(filed) => lists_of(
                filed.offsets.len(),
                filed.minors.len(),
                filed.values.len(),
                index,
                number,
            ),
            Storage::Dia(diagonals) => lists_of(
                diagonals.offsets.len(),
                0,
                diagonals.values.len(),
                core::mem::size_of::<isize>(),
                number,
            ),
            Storage::MatrixFree(list) => product_of(list.len(), core::mem::size_of::<Triplet<V>>()),
        }
    }

    /// The values on the main diagonal.
    pub fn diagonal(&self) -> (values: Vec<V>)
        requires
            self.wf(),
        ensures
            values@.len() == (if self.rows() <= self.columns() {
                self.rows()
            } else {
                self.columns()
            }),
            forall|i: int|
                0 <= i < values@.len() ==> #[trigger] values@[i] == self.entry(i, i),
    {
        let dimension: usize = if self.shape.0 <= self.shape.1 {
            self.shape.0
        } else {
            self.shape.1
        };
        let mut values: Vec<V> = Vec::new();
        let mut index: usize = 0;
        while index < dimension
            invariant
                self.wf(),
                index <= dimension,
                dimension <= self.shape.0,
                dimension <= self.shape.1,
                values@.len() == index,
                forall|i: int|
                    0 <= i < values@.len() ==> #[trigger] values@[i] == self.entry(i, i),
            decreases dimension - index,
        {
            values.push(self.value_at(index, index));
            index = index + 1;
        }
        values
    }

    /// The sum of the values on the diagonal.
    pub open spec fn diagonal_sum(&self) -> V {
        triplets::summed(Seq::new(self.rows() as nat, |i: int| self.entry(i, i)))
    }

    /// The sum of the values on the diagonal of a square matrix.
    pub fn trace(&self) -> (result: Result<V>)
        requires
            self.wf(),
        ensures
            match result {
                Ok(sum) => self.rows() == self.columns() && sum == self.diagonal_sum(),
                Err(error) => error is DimensionMismatch && self.rows() != self.columns(),
            },
    {
        if self.shape.0 != self.shape.1 {
            return Err(
                QmbedError::DimensionMismatch(
                    "operator trace requires a square operator".to_string(),
                ),
            );
        }
        let values: Vec<V> = self.diagonal();
        let mut sum: V = V::zero();
        let mut index: usize = 0;
        assert(values@.subrange(0, 0) =~= Seq::<V>::empty());
        while index < values.len()
            invariant
                index <= values@.len(),
                sum == triplets::summed(values@.subrange(0, index as int)),
            decreases values@.len() - index,
        {
            sum = sum.plus(values[index]);
            assert(values@.subrange(0, index + 1).drop_last() =~= values@.subrange(
                0,
                index as int,
            ));
            index = index + 1;
        }
        assert(values@.subrange(0, index as int) =~= Seq::new(
            self.rows() as nat,
            |i: int| self.entry(i, i),
        ));
        Ok(sum)
    }

    /// The cell is compared with its mirror image in a test for Hermiticity.
    pub open spec fn compared(&self, row: int, column: int) -> bool {
        self.inside(row, column) && (self.format == MatrixFormat::Dense || !self.entry(
            row,
            column,
        ).tiny())
    }

    /// The matrix equals its adjoint within a tolerance.
    pub open spec fn hermitian(&self, tolerance: V::Tolerance) -> bool {
        self.rows() == self.columns() && forall|row: int, column: int| #[trigger]
            self.compared(row, column) ==> self.entry(row, column).near(
                self.entry(column, row).mirror(),
                tolerance,
            )
    }

    /// Whether the matrix equals its adjoint within a tolerance.
    pub fn is_hermitian(&self, tolerance: V::Tolerance) -> (result: bool)
        requires
            self.wf(),
        ensures
            result == self.hermitian(tolerance),
    {
        let dimension: usize = self.shape.0;
        if dimension != self.shape.1 {
            return false;
        }
        if self.format == MatrixFormat::Dense {
            let mut row: usize = 0;
            while row < dimension
                invariant
                    self.wf(),
                    dimension == self.shape.0,
                    dimension == self.shape.1,
                    self.format == MatrixFormat::Dense,
                    row <= dimension,
                    forall|r: int, c: int| #[trigger]
                        self.compared(r, c) && r < row ==> self.entry(r, c).near(
                            self.entry(c, r).mirror(),
                            tolerance,
                        ),
                decreases dimension - row,
            {
                let mut column: usize = 0;
                while column < dimension
                    invariant
                        self.wf(),
                        dimension == self.shape.0,
                        dimension == self.shape.1,
                        self.format == MatrixFormat::Dense,
                        row < dimension,
                        column <= dimension,
                        forall|r: int, c: int| #[trigger]
                            self.compared(r, c) && r < row ==> self.entry(r, c).near(
                                self.entry(c, r).mirror(),
                                tolerance,
                            ),
                        forall|c: int| #[trigger]
                            self.compared(row as int, c) && c < column ==> self.entry(
                                row as int,
                                c,
                            ).near(self.entry(c, row as int).mirror(), tolerance),
                    decreases dimension - column,
                {
                    let value: V = self.value_at(row, column);
                    let mirrored: V = self.value_at(column, row).conjugate();
                    if !value.within(mirrored, tolerance) {
                        assert(self.compared(row as int, column as int));
                        return false;
                    }
                    column = column + 1;
                }
                row = row + 1;
            }
            return true;
        }
        let list: Vec<Triplet<V>> = self.triplets();
        let mut index: usize = 0;
        while index < list.len()
            invariant
                self.wf(),
                self.spelled(list@),
                dimension == self.shape.0,
                dimension == self.shape.1,
                self.format != MatrixFormat::Dense,
                index <= list@.len(),
                forall|i: int|
                    0 <= i < index ==> {
                        let entry = #[trigger] list@[i];
                        entry.value.near(
                            self.entry(entry.column as int, entry.row as int).mirror(),
                            tolerance,
                        )
                    },
            decreases list@.len() - index,
        {
            let entry: Triplet<V> = list[index];
            let mirrored: V = self.value_at(entry.column, entry.row).conjugate();
            if !entry.value.within(mirrored, tolerance) {
                assert(self.compared(entry.row as int, entry.column as int));
                return false;
            }
            index = index + 1;
        }
        proof {
            assert forall|row: int, column: int| #[trigger]
                self.compared(row, column) implies self.entry(row, column).near(
                self.entry(column, row).mirror(),
                tolerance,
            ) by {
                let i = choose|i: int|
                    0 <= i < list@.len() && triplets::stands_at(#[trigger] list@[i], row, column);
                assert(list@[i].value == self.entry(row, column));
            }
        }
        true
    }
}

fn product_of(count: usize, size: usize) -> (bytes: usize)
    requires
        count * size <= usize::MAX,
    ensures
        bytes == count * size,
{
    count * size
}

fn lists_of(offsets: usize, indices: usize, values: usize, index: usize, number: usize) -> (bytes:
    usize)
    requires
        offsets * index + indices * index + values * number <= usize::MAX,
    ensures
        bytes == offsets * index + indices * index + values * number,
{
    assert(0 <= offsets * index && 0 <= indices * index && 0 <= values * number)
        by (nonlinear_arith);
    offsets * index + indices * index + values * number
}

} // verus!
