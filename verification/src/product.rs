//! Products and powers of matrices.

use vstd::prelude::*;
use crate::algebra;
use crate::composition;
use crate::compressed::Compressed;
use crate::compressed;
use crate::error::{QmbedError, Result};
use crate::folds;
use crate::operator::Operator;
use crate::operator;
use crate::scalar::Scalar;
use crate::scalar;
use crate::triplets::Triplet;
use crate::triplets;

verus! {

/// What an entry of a row adds to a cell of the product in the given column.
pub open spec fn product_term<V: Scalar>(right: &Operator<V>, column: int) -> folds::Term<V> {
    |middle: int, value: V|
        if right.entry(middle, column).tiny() {
            None
        } else {
            Some(value.product(right.entry(middle, column)))
        }
}

/// The sum over the middle index, in ascending order, over the pairs of entries that
/// do not count as zero.
pub open spec fn cell_product<V: Scalar>(
    left: &Operator<V>,
    right: &Operator<V>,
    row: int,
    column: int,
) -> V {
    folds::ascending_fold(
        false,
        |middle: int| left.entry(row, middle),
        product_term(right, column),
        left.columns() as nat,
    )
}

/// Some pair of entries contributes to a cell of the product.
pub open spec fn meets<V: Scalar>(
    left: &Operator<V>,
    right: &Operator<V>,
    row: int,
    column: int,
) -> bool {
    exists|middle: int|
        0 <= middle < left.columns() && !(#[trigger] left.entry(row, middle)).tiny()
            && !right.entry(middle, column).tiny()
}

/// A cell of the product.
pub open spec fn product_entry<V: Scalar>(
    left: &Operator<V>,
    right: &Operator<V>,
    row: int,
    column: int,
) -> V {
    operator::settled(
        left.format,
        if meets(left, right, row, column) {
            V::zero_value().sum(cell_product(left, right, row, column))
        } else {
            V::zero_value()
        },
    )
}

/// All sums that make up the product are finite.
pub open spec fn multiplies_finitely<V: Scalar>(left: &Operator<V>, right: &Operator<V>) -> bool {
    forall|row: int, column: int|
        0 <= row < left.rows() && 0 <= column < right.columns() && #[trigger] meets(
            left,
            right,
            row,
            column,
        ) ==> cell_product(left, right, row, column).proper()
}

/// The products that the entries of a list contribute to a cell, in order.
spec fn collected<V: Scalar>(
    list: Seq<Triplet<V>>,
    right: &Operator<V>,
    row: int,
    column: int,
) -> Seq<V>
    decreases list.len(),
{
    if list.len() == 0 {
        Seq::empty()
    } else {
        let front = collected(list.drop_last(), right, row, column);
        let last = list.last();
        if last.row == row && !right.entry(last.column as int, column).tiny() {
            front.push(last.value.product(right.entry(last.column as int, column)))
        } else {
            front
        }
    }
}

proof fn lemma_collected_sum<V: Scalar>(
    list: Seq<Triplet<V>>,
    right: &Operator<V>,
    row: int,
    column: int,
)
    ensures
        triplets::summed(collected(list, right, row, column)) == folds::line_fold(
            list,
            row,
            false,
            product_term(right, column),
        ),
    decreases list.len(),
{
    if list.len() > 0 {
        lemma_collected_sum(list.drop_last(), right, row, column);
        let front = collected(list.drop_last(), right, row, column);
        let last = list.last();
        if last.row == row && !right.entry(last.column as int, column).tiny() {
            let value = last.value.product(right.entry(last.column as int, column));
            assert(front.push(value).drop_last() =~= front);
        }
    }
}

proof fn lemma_collected_some<V: Scalar>(
    list: Seq<Triplet<V>>,
    right: &Operator<V>,
    row: int,
    column: int,
)
    ensures
        (collected(list, right, row, column).len() > 0) == (exists|i: int|
            0 <= i < list.len() && (#[trigger] list[i]).row == row && !right.entry(
                list[i].column as int,
                column,
            ).tiny()),
    decreases list.len(),
{
    if list.len() > 0 {
        let short = list.drop_last();
        lemma_collected_some(short, right, row, column);
        if exists|i: int|
            0 <= i < short.len() && (#[trigger] short[i]).row == row && !right.entry(
                short[i].column as int,
                column,
            ).tiny() {
            let i = choose|i: int|
                0 <= i < short.len() && (#[trigger] short[i]).row == row && !right.entry(
                    short[i].column as int,
                    column,
                ).tiny();
            assert(list[i] == short[i]);
        } else {
            assert forall|i: int|
                0 <= i < list.len() && (#[trigger] list[i]).row == row && !right.entry(
                    list[i].column as int,
                    column,
                ).tiny() implies i == list.len() - 1 by {
                if i < short.len() {
                    assert(short[i] == list[i]);
                }
            }
            assert(list.last() == list[list.len() - 1]);
        }
    }
}

/// What the first entries of one row of the right factor contribute.
spec fn partly<V: Scalar>(
    filed: &Compressed<V>,
    begin: int,
    end: int,
    entry: Triplet<V>,
    row: int,
    column: int,
) -> Seq<V> {
    if entry.row == row && exists|q: int| begin <= q < end && #[trigger] filed.minors@[q] == column {
        let q = choose|q: int| begin <= q < end && #[trigger] filed.minors@[q] == column;
        seq![entry.value.product(filed.values@[q])]
    } else {
        Seq::empty()
    }
}

/// Multiplies one entry with a row of the right factor.
fn append_products<V: Scalar>(
    filed: &Compressed<V>,
    majors: usize,
    entry: Triplet<V>,
    output: &mut Vec<Triplet<V>>,
)
    requires
        filed.sound(majors as int),
        triplets::strictly_ordered(filed.entries(false), false),
        entry.column < majors,
    ensures
        forall|row: int, column: int| #[trigger]
            triplets::values_at(final(output)@, row, column) == triplets::values_at(
                old(output)@,
                row,
                column,
            ) + partly(
                filed,
                filed.offsets@[entry.column as int] as int,
                filed.offsets@[entry.column + 1] as int,
                entry,
                row,
                column,
            ),
        forall|i: int|
            0 <= i < old(output)@.len() ==> #[trigger] final(output)@[i] == old(output)@[i],
        final(output)@.len() >= old(output)@.len(),
        forall|i: int|
            old(output)@.len() <= i < final(output)@.len() ==> (#[trigger] final(output)@[i]).row
                == entry.row && filed.minors@.contains(final(output)@[i].column),
{
    let ghost start = output@;
    let begin: usize = filed.offsets[entry.column];
    let end: usize = filed.offsets[entry.column + 1];
    let mut position: usize = begin;
    proof {
        assert(filed.offsets@[entry.column + 1] <= filed.offsets@[majors as int]);
        assert forall|row: int, column: int| #[trigger]
            triplets::values_at(output@, row, column) == triplets::values_at(start, row, column)
                + partly(filed, begin as int, begin as int, entry, row, column) by {
            assert(triplets::values_at(start, row, column) + Seq::<V>::empty()
                =~= triplets::values_at(start, row, column));
        }
    }
    while position < end
        invariant
            filed.sound(majors as int),
            triplets::strictly_ordered(filed.entries(false), false),
            entry.column < majors,
            begin == filed.offsets@[entry.column as int],
            end == filed.offsets@[entry.column + 1],
            begin <= position <= end,
            end <= filed.values@.len(),
            output@.len() >= start.len(),
            forall|i: int| 0 <= i < start.len() ==> #[trigger] output@[i] == start[i],
            forall|i: int|
                start.len() <= i < output@.len() ==> (#[trigger] output@[i]).row == entry.row
                    && filed.minors@.contains(output@[i].column),
            forall|row: int, column: int| #[trigger]
                triplets::values_at(output@, row, column) == triplets::values_at(
                    start,
                    row,
                    column,
                ) + partly(filed, begin as int, position as int, entry, row, column),
        decreases end - position,
    {
        let ghost before = output@;
        let minor: usize = filed.minors[position];
        let value: V = entry.value.times(filed.values[position]);
        output.push(Triplet { row: entry.row, column: minor, value });
        proof {
            assert(filed.minors@[position as int] == minor);
            assert forall|row: int, column: int| #[trigger]
                triplets::values_at(output@, row, column) == triplets::values_at(
                    start,
                    row,
                    column,
                ) + partly(filed, begin as int, position + 1, entry, row, column) by {
                assert(output@.drop_last() =~= before);
                let old_part = partly(filed, begin as int, position as int, entry, row, column);
                let new_part = partly(filed, begin as int, position + 1, entry, row, column);
                assert(triplets::values_at(before, row, column) == triplets::values_at(
                    start,
                    row,
                    column,
                ) + old_part);
                if entry.row == row && minor == column {
                    assert forall|q: int| begin <= q < position implies #[trigger] filed.minors@[q]
                        != column by {
                        assert(filed.files(q, entry.column as int));
                        assert(filed.files(position as int, entry.column as int));
                        filed.lemma_major(majors as int, q, entry.column as int);
                        filed.lemma_major(majors as int, position as int, entry.column as int);
                        assert(triplets::comes_before(
                            filed.entries(false)[q],
                            filed.entries(false)[position as int],
                            false,
                        ));
                    }
                    assert(old_part =~= Seq::<V>::empty());
                    assert(begin <= position < position + 1 && filed.minors@[position as int]
                        == column);
                    let q = choose|q: int|
                        begin <= q < position + 1 && #[trigger] filed.minors@[q] == column;
                    assert(q == position);
                    assert(new_part == seq![value]);
                    assert((triplets::values_at(start, row, column) + old_part).push(value)
                        =~= triplets::values_at(start, row, column) + new_part);
                } else {
                    assert(!triplets::stands_at(output@.last(), row, column));
                    if entry.row == row && exists|q: int|
                        begin <= q < position + 1 && #[trigger] filed.minors@[q] == column {
                        let q = choose|q: int|
                            begin <= q < position + 1 && #[trigger] filed.minors@[q] == column;
                        assert(q != position);
                        let k = choose|k: int|
                            begin <= k < position && #[trigger] filed.minors@[k] == column;
                        assert(begin <= q < position && filed.minors@[q] == column);
                        assert(filed.files(q, entry.column as int));
                        assert(filed.files(k, entry.column as int));
                        filed.lemma_major(majors as int, q, entry.column as int);
                        filed.lemma_major(majors as int, k, entry.column as int);
                        if q < k {
                            assert(triplets::comes_before(
                                filed.entries(false)[q],
                                filed.entries(false)[k],
                                false,
                            ));
                        } else if k < q {
                            assert(triplets::comes_before(
                                filed.entries(false)[k],
                                filed.entries(false)[q],
                                false,
                            ));
                        }
                    }
                    assert(new_part == old_part);
                }
            }
            assert forall|i: int| start.len() <= i < output@.len() implies (
            #[trigger] output@[i]).row == entry.row && filed.minors@.contains(
                output@[i].column,
            ) by {
                if i < before.len() {
                    assert(output@[i] == before[i]);
                } else {
                    assert(filed.minors@[position as int] == output@[i].column);
                }
            }
        }
        position = position + 1;
    }
}

/// What one row of the right factor contributes, by its cells.
proof fn lemma_row_part<V: Scalar>(
    right: &Operator<V>,
    list: Seq<Triplet<V>>,
    filed: &Compressed<V>,
    entry: Triplet<V>,
    row: int,
    column: int,
)
    requires
        right.spelled(list),
        filed.sound(right.rows()),
        filed.entries(false) == list,
        entry.column < right.rows(),
        0 <= column < right.columns(),
    ensures
        partly(
            filed,
            filed.offsets@[entry.column as int] as int,
            filed.offsets@[entry.column + 1] as int,
            entry,
            row,
            column,
        ) == (if entry.row == row && !right.entry(entry.column as int, column).tiny() {
            seq![entry.value.product(right.entry(entry.column as int, column))]
        } else {
            Seq::<V>::empty()
        }),
{
    let begin = filed.offsets@[entry.column as int] as int;
    let end = filed.offsets@[entry.column + 1] as int;
    let middle = entry.column as int;
    assert(right.inside(middle, column));
    if exists|q: int| begin <= q < end && #[trigger] filed.minors@[q] == column {
        let q = choose|q: int| begin <= q < end && #[trigger] filed.minors@[q] == column;
        assert(filed.files(q, middle));
        filed.lemma_major(right.rows(), q, middle);
        assert(list[q] == filed.entries(false)[q]);
        assert(list[q].value == right.entry(middle, column));
        assert(!list[q].value.tiny());
        assert(filed.values@[q] == right.entry(middle, column));
        assert forall|k: int| begin <= k < end && #[trigger] filed.minors@[k] == column implies k
            == q by {
            assert(filed.files(k, middle));
            filed.lemma_major(right.rows(), k, middle);
            if k < q {
                assert(triplets::comes_before(list[k], list[q], false));
            } else if q < k {
                assert(triplets::comes_before(list[q], list[k], false));
            }
        }
        assert(partly(filed, begin, end, entry, row, column) == (if entry.row == row {
            seq![entry.value.product(filed.values@[q])]
        } else {
            Seq::<V>::empty()
        }));
    } else {
        if !right.entry(middle, column).tiny() {
            let i = choose|i: int|
                0 <= i < list.len() && triplets::stands_at(#[trigger] list[i], middle, column);
            filed.lemma_filed(right.rows(), i);
            filed.lemma_major(right.rows(), i, filed.major_of(i));
            assert(list[i] == filed.entries(false)[i]);
            assert(begin <= i < end && filed.minors@[i] == column);
        }
    }
}

impl<V: Scalar> Operator<V> {
    /// The matrix product, in the format of the left factor.
    pub fn product(&self, right: &Self) -> (result: Result<Self>)
        requires
            self.wf(),
            right.wf(),
            right.shape.0 < usize::MAX,
            operator::storable(self.shape.0, right.shape.1, self.format),
        ensures
            match result {
                Ok(product) => {
                    &&& self.shape.1 == right.shape.0
                    &&& multiplies_finitely(self, right)
                    &&& product.wf()
                    &&& composition::is_product(self, right, &product)
                },
                Err(QmbedError::DimensionMismatch(_)) => self.shape.1 != right.shape.0,
                Err(QmbedError::InvalidCoupling(_)) => self.shape.1 == right.shape.0
                    && !multiplies_finitely(self, right),
                Err(_) => false,
            },
    {
        if self.shape.1 != right.shape.0 {
            return Err(
                QmbedError::DimensionMismatch(
                    "operator product has incompatible inner dimensions".to_string(),
                ),
            );
        }
        let rows: usize = self.shape.0;
        let columns: usize = right.shape.1;
        let right_list: Vec<Triplet<V>> = right.triplets();
        let filed: Compressed<V> = compressed::compress(&right_list, right.shape.0, false);
        let left_list: Vec<Triplet<V>> = self.triplets();
        let mut raw: Vec<Triplet<V>> = Vec::new();
        let mut index: usize = 0;
        proof {
            assert(left_list@.subrange(0, 0) =~= Seq::<Triplet<V>>::empty());
        }
        while index < left_list.len()
            invariant
                self.wf(),
                right.wf(),
                self.spelled(left_list@),
                right.spelled(right_list@),
                filed.sound(right.rows()),
                filed.entries(false) == right_list@,
                self.shape.1 == right.shape.0,
                rows == self.shape.0,
                columns == right.shape.1,
                index <= left_list@.len(),
                triplets::fits(raw@, rows as int, columns as int),
                forall|row: int, column: int|
                    0 <= column < columns ==> #[trigger] triplets::values_at(raw@, row, column)
                        == collected(
                        left_list@.subrange(0, index as int),
                        right,
                        row,
                        column,
                    ),
            decreases left_list@.len() - index,
        {
            let entry: Triplet<V> = left_list[index];
            let ghost before = raw@;
            append_products(&filed, right.shape.0, entry, &mut raw);
            proof {
                let longer = left_list@.subrange(0, index + 1);
                assert(longer.drop_last() =~= left_list@.subrange(0, index as int));
                assert(longer.last() == entry);
                assert forall|row: int, column: int| 0 <= column < columns implies #[trigger]
                    triplets::values_at(raw@, row, column) == collected(
                    longer,
                    right,
                    row,
                    column,
                ) by {
                    lemma_row_part(right, right_list@, &filed, entry, row, column);
                    assert(triplets::values_at(before, row, column) == collected(
                        left_list@.subrange(0, index as int),
                        right,
                        row,
                        column,
                    ));
                    assert(triplets::values_at(raw@, row, column) =~= collected(
                        longer,
                        right,
                        row,
                        column,
                    ));
                }
                assert forall|i: int| 0 <= i < raw@.len() implies (#[trigger] raw@[i]).row < rows
                    && raw@[i].column < columns by {
                    if i < before.len() {
                        assert(raw@[i] == before[i]);
                    } else {
                        assert(filed.minors@.contains(raw@[i].column));
                        let q = filed.minors@.index_of(raw@[i].column);
                        assert(filed.minors@[q] == raw@[i].column);
                        filed.lemma_filed(right.rows(), q);
                        filed.lemma_major(right.rows(), q, filed.major_of(q));
                        assert(right_list@[q] == filed.entries(false)[q]);
                        assert(right_list@[q].column < columns);
                    }
                }
            }
            index = index + 1;
        }
        assert(left_list@.subrange(0, index as int) =~= left_list@);
        let list: Vec<Triplet<V>> = triplets::sum_places(raw.as_slice(), false, true);
        proof {
            assert forall|row: int, column: int|
                0 <= row < rows && 0 <= column < columns implies ({
                &&& #[trigger] triplets::cell_sum(raw@, row, column) == cell_product(
                    self,
                    right,
                    row,
                    column,
                )
                &&& (triplets::values_at(raw@, row, column).len() > 0) == meets(
                    self,
                    right,
                    row,
                    column,
                )
            }) by {
                assert(triplets::values_at(raw@, row, column) == collected(
                    left_list@,
                    right,
                    row,
                    column,
                ));
                lemma_collected_sum(left_list@, right, row, column);
                lemma_collected_some(left_list@, right, row, column);
                lemma_row_spelled(self, left_list@, row);
                folds::lemma_line_fold(
                    false,
                    left_list@,
                    false,
                    row,
                    false,
                    |middle: int| self.entry(row, middle),
                    product_term(right, column),
                    self.columns() as nat,
                );
                lemma_meets(self, right, left_list@, row, column);
            }
            lemma_sums(self, right, raw@, list@);
        }
        let result: Result<Operator<V>> = Self::from_triplets(
            rows,
            columns,
            list.as_slice(),
            self.format,
        );
        proof {
            if let Ok(product) = &result {
                assert forall|row: int, column: int| product.inside(row, column) implies #[trigger]
                    product.entry(row, column) == product_entry(self, right, row, column) by {
                    lemma_place_sum(raw@, list@, row, column);
                    assert(triplets::cell_sum(raw@, row, column) == cell_product(
                        self,
                        right,
                        row,
                        column,
                    ));
                }
            }
        }
        result
    }
}

/// A row of a spelled list spells the row.
pub proof fn lemma_row_spelled<V: Scalar>(matrix: &Operator<V>, list: Seq<Triplet<V>>, row: int)
    requires
        matrix.spelled(list),
        0 <= row < matrix.rows(),
    ensures
        folds::spells_line(
            false,
            list,
            row,
            false,
            |middle: int| matrix.entry(row, middle),
            matrix.columns() as nat,
        ),
{
    let cell = |middle: int| matrix.entry(row, middle);
    assert forall|at: int|
        0 <= at < matrix.columns() && !(#[trigger] cell(at)).tiny() implies exists|i: int|
        0 <= i < list.len() && compressed::major(#[trigger] list[i], false) == row
            && compressed::minor(list[i], false) == at by {
        assert(matrix.inside(row, at));
        assert(!matrix.entry(row, at).tiny());
        let i = choose|i: int|
            0 <= i < list.len() && triplets::stands_at(#[trigger] list[i], row, at);
        assert(compressed::major(list[i], false) == row);
    }
}

/// A column of a spelled list spells the column.
pub proof fn lemma_column_spelled<V: Scalar>(
    matrix: &Operator<V>,
    exact: bool,
    list: Seq<Triplet<V>>,
    column: int,
)
    requires
        matrix.spelled_as(exact, list),
        0 <= column < matrix.columns(),
    ensures
        folds::spells_line(
            exact,
            list,
            column,
            true,
            |middle: int| matrix.entry(middle, column),
            matrix.rows() as nat,
        ),
{
    let cell = |middle: int| matrix.entry(middle, column);
    assert forall|at: int|
        0 <= at < matrix.rows() && !scalar::blank(exact, #[trigger] cell(at)) implies exists|i: int|
        0 <= i < list.len() && compressed::major(#[trigger] list[i], true) == column
            && compressed::minor(list[i], true) == at by {
        assert(matrix.inside(at, column));
        assert(!scalar::blank(exact, matrix.entry(at, column)));
        let i = choose|i: int|
            0 <= i < list.len() && triplets::stands_at(#[trigger] list[i], at, column);
        assert(compressed::major(list[i], true) == column);
    }
}

proof fn lemma_meets<V: Scalar>(
    left: &Operator<V>,
    right: &Operator<V>,
    list: Seq<Triplet<V>>,
    row: int,
    column: int,
)
    requires
        left.spelled(list),
        0 <= row < left.rows(),
    ensures
        meets(left, right, row, column) == (exists|i: int|
            0 <= i < list.len() && (#[trigger] list[i]).row == row && !right.entry(
                list[i].column as int,
                column,
            ).tiny()),
{
    if meets(left, right, row, column) {
        let middle = choose|middle: int|
            0 <= middle < left.columns() && !(#[trigger] left.entry(row, middle)).tiny()
                && !right.entry(middle, column).tiny();
        assert(left.inside(row, middle));
        let i = choose|i: int|
            0 <= i < list.len() && triplets::stands_at(#[trigger] list[i], row, middle);
        assert(list[i].row == row && !right.entry(list[i].column as int, column).tiny());
    }
    if exists|i: int|
        0 <= i < list.len() && (#[trigger] list[i]).row == row && !right.entry(
            list[i].column as int,
            column,
        ).tiny() {
        let i = choose|i: int|
            0 <= i < list.len() && (#[trigger] list[i]).row == row && !right.entry(
                list[i].column as int,
                column,
            ).tiny();
        assert(!left.entry(row, list[i].column as int).tiny());
    }
}

/// The sums are acceptable exactly if the product is finite.
proof fn lemma_sums<V: Scalar>(
    left: &Operator<V>,
    right: &Operator<V>,
    raw: Seq<Triplet<V>>,
    list: Seq<Triplet<V>>,
)
    requires
        triplets::fits(raw, left.rows(), right.columns()),
        forall|row: int, column: int|
            0 <= row < left.rows() && 0 <= column < right.columns() ==> {
                &&& #[trigger] triplets::cell_sum(raw, row, column) == cell_product(
                    left,
                    right,
                    row,
                    column,
                )
                &&& (triplets::values_at(raw, row, column).len() > 0) == meets(
                    left,
                    right,
                    row,
                    column,
                )
            },
        forall|i: int|
            0 <= i < list.len() ==> {
                let entry = #[trigger] list[i];
                &&& entry.value == triplets::cell_sum(raw, entry.row as int, entry.column as int)
                &&& triplets::values_at(raw, entry.row as int, entry.column as int).len() > 0
            },
        forall|row: int, column: int|
            (#[trigger] triplets::values_at(raw, row, column)).len() > 0 ==> exists|i: int|
                0 <= i < list.len() && triplets::stands_at(#[trigger] list[i], row, column),
    ensures
        operator::acceptable(list, left.rows(), right.columns()) == multiplies_finitely(
            left,
            right,
        ),
{
    assert forall|i: int| 0 <= i < list.len() implies (#[trigger] list[i]).row < left.rows()
        && list[i].column < right.columns() by {
        let row = list[i].row as int;
        let column = list[i].column as int;
        triplets::lemma_some_entry(raw, row, column);
        let k = choose|k: int|
            0 <= k < raw.len() && triplets::stands_at(#[trigger] raw[k], row, column);
        assert(raw[k].row < left.rows());
    }
    if operator::acceptable(list, left.rows(), right.columns()) {
        assert forall|row: int, column: int|
            0 <= row < left.rows() && 0 <= column < right.columns() && #[trigger] meets(
                left,
                right,
                row,
                column,
            ) implies cell_product(left, right, row, column).proper() by {
            assert(triplets::cell_sum(raw, row, column) == cell_product(left, right, row, column));
            assert(triplets::values_at(raw, row, column).len() > 0);
            let i = choose|i: int|
                0 <= i < list.len() && triplets::stands_at(#[trigger] list[i], row, column);
            assert(list[i].value.proper());
        }
    } else {
        let i = choose|i: int|
            0 <= i < list.len() && !((#[trigger] list[i]).row < left.rows() && list[i].column
                < right.columns() && list[i].value.proper());
        let row = list[i].row as int;
        let column = list[i].column as int;
        assert(triplets::cell_sum(raw, row, column) == cell_product(left, right, row, column));
        assert(meets(left, right, row, column));
    }
}

/// The sum over a place of a list of sums.
proof fn lemma_place_sum<V: Scalar>(
    raw: Seq<Triplet<V>>,
    list: Seq<Triplet<V>>,
    row: int,
    column: int,
)
    requires
        triplets::strictly_ordered(list, false),
        forall|i: int|
            0 <= i < list.len() ==> {
                let entry = #[trigger] list[i];
                &&& entry.value == triplets::cell_sum(raw, entry.row as int, entry.column as int)
                &&& triplets::values_at(raw, entry.row as int, entry.column as int).len() > 0
            },
        forall|r: int, c: int|
            (#[trigger] triplets::values_at(raw, r, c)).len() > 0 ==> exists|i: int|
                0 <= i < list.len() && triplets::stands_at(#[trigger] list[i], r, c),
    ensures
        triplets::cell_sum(list, row, column) == (if triplets::values_at(raw, row, column).len()
            > 0 {
            V::zero_value().sum(triplets::cell_sum(raw, row, column))
        } else {
            V::zero_value()
        }),
{
    if triplets::values_at(raw, row, column).len() > 0 {
        let i = choose|i: int|
            0 <= i < list.len() && triplets::stands_at(#[trigger] list[i], row, column);
        triplets::lemma_unique_value(list, false, i);
        algebra::lemma_sum_one(list[i].value);
    } else {
        assert forall|i: int| 0 <= i < list.len() implies !triplets::stands_at(
            #[trigger] list[i],
            row,
            column,
        ) by {}
        triplets::lemma_no_values(list, row, column);
    }
}

} // verus!
