//! Matrices acting on vectors.

use vstd::prelude::*;
use crate::bands::Bands;
use crate::bands;
use crate::compressed;
use crate::error::{QmbedError, Result};
use crate::error;
use crate::folds;
use crate::operator::{MatrixFormat, Operator, Storage};
use crate::operator;
use crate::product;
use crate::scalar::Scalar;
use crate::scalar;
use crate::triplets::Triplet;
use crate::triplets;

verus! {

/// A cell times the component of the vector that it meets.
pub open spec fn action_term<V: Scalar>(input: Seq<V>) -> folds::Term<V> {
    |at: int, value: V| Some(value.product(input[at]))
}

/// The sum over all cells of a row, in ascending order.
pub open spec fn full_fold<V: Scalar>(matrix: &Operator<V>, row: int, input: Seq<V>, upto: nat) -> V
    decreases upto,
{
    if upto == 0 {
        V::zero_value()
    } else {
        full_fold(matrix, row, input, (upto - 1) as nat).sum(
            matrix.entry(row, upto - 1).product(input[upto - 1]),
        )
    }
}

/// The sum over the diagonals that a row meets, in ascending order.
pub open spec fn band_fold<V: Scalar>(
    diagonals: &Bands<V>,
    rows: int,
    columns: int,
    row: int,
    input: Seq<V>,
    upto: nat,
) -> V
    decreases upto,
{
    if upto == 0 {
        V::zero_value()
    } else {
        let sum = band_fold(diagonals, rows, columns, row, input, (upto - 1) as nat);
        let column = row - diagonals.offsets@[upto - 1];
        if 0 <= column < columns {
            sum.sum(diagonals.values@[bands::slot(upto - 1, rows, row)].product(input[column]))
        } else {
            sum
        }
    }
}

impl<V: Scalar> Operator<V> {
    /// A component of the image of a vector: the sum over the stored cells of a row, by
    /// ascending column, or by ascending diagonal in diagonal storage.
    pub open spec fn row_action(&self, row: int, input: Seq<V>) -> V {
        match self.storage {
            Storage::Dense(_) => full_fold(self, row, input, self.columns() as nat),
            Storage::Dia(diagonals) => band_fold(
                &diagonals,
                self.rows(),
                self.columns(),
                row,
                input,
                diagonals.offsets@.len(),
            ),
            _ => folds::ascending_fold(
                true,
                |column: int| self.entry(row, column),
                action_term(input),
                self.columns() as nat,
            ),
        }
    }

    /// The image of a vector.
    pub open spec fn image(&self, input: Seq<V>) -> Seq<V> {
        Seq::new(self.rows() as nat, |row: int| self.row_action(row, input))
    }

    /// The entries are stored one by one.
    pub open spec fn listed(&self) -> bool {
        match self.format {
            MatrixFormat::Dense => false,
            MatrixFormat::Dia => false,
            _ => true,
        }
    }

    /// A component of the image under the transpose: the sum over the stored cells of a
    /// column, those that count as zero left out where cells are stored as a whole.
    pub open spec fn column_action(&self, column: int, input: Seq<V>) -> V {
        folds::ascending_fold(
            self.listed(),
            |row: int| self.entry(row, column),
            action_term(input),
            self.rows() as nat,
        )
    }

    /// The image of a vector under the transpose.
    pub open spec fn transposed_image(&self, input: Seq<V>) -> Seq<V> {
        Seq::new(self.columns() as nat, |column: int| self.column_action(column, input))
    }

    /// The image of a vector under the adjoint.
    pub open spec fn adjoint_image(&self, input: Seq<V>) -> Seq<V> {
        mirrored(self.transposed_image(mirrored(input)))
    }
}

/// Sets all components to zero.
pub(crate) fn clear<V: Scalar>(output: &mut [V])
    ensures
        final(output)@.len() == old(output)@.len(),
        forall|i: int|
            0 <= i < final(output)@.len() ==> #[trigger] final(output)@[i] == V::zero_value(),
{
    let length: usize = output.len();
    let mut index: usize = 0;
    while index < length
        invariant
            index <= length,
            length == output@.len(),
            length == old(output)@.len(),
            forall|i: int| 0 <= i < index ==> #[trigger] output@[i] == V::zero_value(),
        decreases length - index,
    {
        output[index] = V::zero();
        index = index + 1;
    }
}

/// Adds each entry times a component of the vector to the component of its row, or of
/// its column.
pub(crate) fn spread_entries<V: Scalar>(
    list: &Vec<Triplet<V>>,
    by_column: bool,
    input: &[V],
    output: &mut [V],
)
    requires
        forall|i: int|
            0 <= i < list@.len() ==> compressed::major(#[trigger] list@[i], by_column)
                < old(output)@.len() && compressed::minor(list@[i], by_column) < input@.len(),
        forall|i: int|
            0 <= i < old(output)@.len() ==> #[trigger] old(output)@[i] == V::zero_value(),
    ensures
        final(output)@.len() == old(output)@.len(),
        forall|line: int|
            0 <= line < final(output)@.len() ==> #[trigger] final(output)@[line]
                == folds::line_fold(list@, line, by_column, action_term(input@)),
{
    let mut position: usize = 0;
    let ghost size = output@.len();
    proof {
        assert(list@.subrange(0, 0) =~= Seq::<Triplet<V>>::empty());
    }
    while position < list.len()
        invariant
            position <= list@.len(),
            size == output@.len(),
            size == old(output)@.len(),
            forall|i: int|
                0 <= i < list@.len() ==> compressed::major(#[trigger] list@[i], by_column) < size
                    && compressed::minor(list@[i], by_column) < input@.len(),
            forall|line: int|
                0 <= line < size ==> #[trigger] output@[line] == folds::line_fold(
                    list@.subrange(0, position as int),
                    line,
                    by_column,
                    action_term(input@),
                ),
        decreases list@.len() - position,
    {
        let entry: Triplet<V> = list[position];
        let ghost before = output@;
        assert(compressed::major(list@[position as int], by_column) < size);
        let (target, source): (usize, usize) = if by_column {
            (entry.column, entry.row)
        } else {
            (entry.row, entry.column)
        };
        let sum: V = output[target].plus(entry.value.times(input[source]));
        output[target] = sum;
        proof {
            let longer = list@.subrange(0, position + 1);
            assert(longer.drop_last() =~= list@.subrange(0, position as int));
            assert(longer.last() == entry);
            assert forall|line: int| 0 <= line < size implies #[trigger] output@[line]
                == folds::line_fold(longer, line, by_column, action_term(input@)) by {
                assert(before[line] == folds::line_fold(
                    longer.drop_last(),
                    line,
                    by_column,
                    action_term(input@),
                ));
            }
        }
        position = position + 1;
    }
    assert(list@.subrange(0, position as int) =~= list@);
}

fn mismatch(shape: (usize, usize), input: usize, output: usize) -> (error: QmbedError)
    ensures
        error is DimensionMismatch,
{
    QmbedError::DimensionMismatch(
        error::weave(
            vec!["shape (", ", ", ") requires input length ", " and output length ", ", got ", " and "],
            vec![shape.0, shape.1, shape.1, shape.0, input, output],
        ),
    )
}

fn transposed_mismatch(shape: (usize, usize)) -> (error: QmbedError)
    ensures
        error is DimensionMismatch,
{
    QmbedError::DimensionMismatch(
        error::weave(
            vec!["transpose of shape (", ", ", ") requires input length ", " and output length "],
            vec![shape.0, shape.1, shape.0, shape.1],
        ),
    )
}

impl<V: Scalar> Operator<V> {
    /// Applies dense storage.
    fn apply_dense(&self, input: &[V], output: &mut [V])
        requires
            self.wf(),
            self.format == MatrixFormat::Dense,
            input@.len() == self.columns(),
            old(output)@.len() == self.rows(),
        ensures
            final(output)@.len() == self.rows(),
            forall|row: int|
                0 <= row < self.rows() ==> #[trigger] final(output)@[row] == full_fold(
                    self,
                    row,
                    input@,
                    self.columns() as nat,
                ),
    {
        let rows: usize = self.shape.0;
        let columns: usize = self.shape.1;
        let mut row: usize = 0;
        while row < rows
            invariant
                self.wf(),
                rows == self.shape.0,
                columns == self.shape.1,
                input@.len() == columns,
                output@.len() == rows,
                row <= rows,
                forall|r: int|
                    0 <= r < row ==> #[trigger] output@[r] == full_fold(
                        self,
                        r,
                        input@,
                        columns as nat,
                    ),
            decreases rows - row,
        {
            let mut sum: V = V::zero();
            let mut column: usize = 0;
            while column < columns
                invariant
                    self.wf(),
                    rows == self.shape.0,
                    columns == self.shape.1,
                    input@.len() == columns,
                    row < rows,
                    column <= columns,
                    sum == full_fold(self, row as int, input@, column as nat),
                decreases columns - column,
            {
                sum = sum.plus(self.value_at(row, column).times(input[column]));
                column = column + 1;
            }
            output[row] = sum;
            row = row + 1;
        }
    }

    /// Applies diagonal storage.
    fn apply_bands(&self, diagonals: &Bands<V>, input: &[V], output: &mut [V])
        requires
            diagonals.sound(self.rows(), self.columns()),
            input@.len() == self.columns(),
            old(output)@.len() == self.rows(),
        ensures
            final(output)@.len() == self.rows(),
            forall|row: int|
                0 <= row < self.rows() ==> #[trigger] final(output)@[row] == band_fold(
                    diagonals,
                    self.rows(),
                    self.columns(),
                    row,
                    input@,
                    diagonals.offsets@.len(),
                ),
    {
        let rows: usize = self.shape.0;
        let columns: usize = self.shape.1;
        let total: usize = diagonals.values.len();
        let mut row: usize = 0;
        while row < rows
            invariant
                diagonals.sound(rows as int, columns as int),
                rows == self.shape.0,
                columns == self.shape.1,
                total == diagonals.values@.len(),
                input@.len() == columns,
                output@.len() == rows,
                row <= rows,
                forall|r: int|
                    0 <= r < row ==> #[trigger] output@[r] == band_fold(
                        diagonals,
                        rows as int,
                        columns as int,
                        r,
                        input@,
                        diagonals.offsets@.len(),
                    ),
            decreases rows - row,
        {
            let mut sum: V = V::zero();
            let mut band: usize = 0;
            while band < diagonals.offsets.len()
                invariant
                    diagonals.sound(rows as int, columns as int),
                    total == diagonals.values@.len(),
                    input@.len() == columns,
                    row < rows,
                    band <= diagonals.offsets@.len(),
                    sum == band_fold(
                        diagonals,
                        rows as int,
                        columns as int,
                        row as int,
                        input@,
                        band as nat,
                    ),
                decreases diagonals.offsets@.len() - band,
            {
                let offset: i128 = diagonals.offsets[band];
                assert(-columns < diagonals.offsets@[band as int] < rows);
                let column: i128 = row as i128 - offset;
                if 0 <= column && column < columns as i128 {
                    proof {
                        bands::lemma_slot(
                            diagonals.offsets@.len() as int,
                            rows as int,
                            band as int,
                            row as int,
                        );
                    }
                    sum = sum.plus(
                        diagonals.values[band * rows + row].times(input[column as usize]),
                    );
                }
                band = band + 1;
            }
            output[row] = sum;
            row = row + 1;
        }
    }

    /// Replaces the output by the image of the input.
    pub fn apply(&self, input: &[V], output: &mut [V]) -> (result: Result<()>)
        requires
            self.wf(),
        ensures
            match result {
                Ok(()) => {
                    &&& input@.len() == self.columns()
                    &&& old(output)@.len() == self.rows()
                    &&& final(output)@ == self.image(input@)
                },
                Err(error) => {
                    &&& error is DimensionMismatch
                    &&& input@.len() != self.columns() || old(output)@.len() != self.rows()
                    &&& final(output)@ == old(output)@
                },
            },
    {
        if input.len() != self.shape.1 || output.len() != self.shape.0 {
            return Err(mismatch(self.shape, input.len(), output.len()));
        }
        match &self.storage {
            Storage::Dense(_) => {
                self.apply_dense(input, output);
            },
            Storage::Dia(diagonals) => {
                self.apply_bands(diagonals, input, output);
            },
            Storage::Csc(filed) => {
                clear(output);
                let list: Vec<Triplet<V>> = filed.expand(self.shape.1, true);
                spread_entries(&list, false, input, output);
                proof {
                    lemma_rows(self, list@, true, input@);
                }
            },
            Storage::Csr(filed) => {
                clear(output);
                let list: Vec<Triplet<V>> = filed.expand(self.shape.0, false);
                spread_entries(&list, false, input, output);
                proof {
                    lemma_rows(self, list@, false, input@);
                }
            },
            Storage::MatrixFree(list) => {
                clear(output);
                spread_entries(list, false, input, output);
                proof {
                    lemma_rows(self, list@, false, input@);
                }
            },
        }
        assert(output@ =~= self.image(input@));
        Ok(())
    }

    /// Replaces the output by the image of the input under the transpose.
    pub fn apply_transpose(&self, input: &[V], output: &mut [V]) -> (result: Result<()>)
        requires
            self.wf(),
        ensures
            match result {
                Ok(()) => {
                    &&& input@.len() == self.rows()
                    &&& old(output)@.len() == self.columns()
                    &&& final(output)@ == self.transposed_image(input@)
                },
                Err(error) => {
                    &&& error is DimensionMismatch
                    &&& input@.len() != self.rows() || old(output)@.len() != self.columns()
                    &&& final(output)@ == old(output)@
                },
            },
    {
        if input.len() != self.shape.0 || output.len() != self.shape.1 {
            return Err(transposed_mismatch(self.shape));
        }
        clear(output);
        let list: Vec<Triplet<V>> = match self.format {
            MatrixFormat::Dense => self.triplets(),
            MatrixFormat::Dia => self.triplets(),
            _ => self.stored_entries(),
        };
        spread_entries(&list, true, input, output);
        proof {
            assert forall|column: int| 0 <= column < self.columns() implies folds::line_fold(
                list@,
                column,
                true,
                action_term(input@),
            ) == #[trigger] self.column_action(column, input@) by {
                product::lemma_column_spelled(self, self.listed(), list@, column);
                folds::lemma_line_fold(
                    self.listed(),
                    list@,
                    false,
                    column,
                    true,
                    |row: int| self.entry(row, column),
                    action_term(input@),
                    self.rows() as nat,
                );
            }
            assert(output@ =~= self.transposed_image(input@)) by {
                assert forall|column: int| 0 <= column < self.columns() implies output@[column]
                    == self.transposed_image(input@)[column] by {
                    assert(self.column_action(column, input@)
                        == self.transposed_image(input@)[column]);
                }
            }
        }
        Ok(())
    }

    /// Replaces the output by the image of the input under the adjoint.
    pub fn apply_adjoint(&self, input: &[V], output: &mut [V]) -> (result: Result<()>)
        requires
            self.wf(),
        ensures
            match result {
                Ok(()) => {
                    &&& input@.len() == self.rows()
                    &&& old(output)@.len() == self.columns()
                    &&& final(output)@ == self.adjoint_image(input@)
                },
                Err(error) => {
                    &&& error is DimensionMismatch
                    &&& input@.len() != self.rows() || old(output)@.len() != self.columns()
                    &&& final(output)@ == old(output)@
                },
            },
    {
        let conjugated: Vec<V> = conjugates(input);
        match self.apply_transpose(conjugated.as_slice(), output) {
            Ok(()) => {},
            Err(error) => {
                return Err(error);
            },
        }
        conjugate_all(output);
        Ok(())
    }

    /// The image of a row vector.
    pub fn right_apply(&self, input: &[V]) -> (result: Result<Vec<V>>)
        requires
            self.wf(),
        ensures
            match result {
                Ok(output) => input@.len() == self.rows() && output@ == self.transposed_image(
                    input@,
                ),
                Err(error) => error is DimensionMismatch && input@.len() != self.rows(),
            },
    {
        if input.len() != self.shape.0 {
            return Err(
                QmbedError::DimensionMismatch(
                    "right-apply input must match the operator row count".to_string(),
                ),
            );
        }
        let mut output: Vec<V> = operator::zeros(self.shape.1);
        match self.apply_transpose(input, output.as_mut_slice()) {
            Ok(()) => Ok(output),
            Err(error) => Err(error),
        }
    }
}

/// All components conjugated.
pub open spec fn mirrored<V: Scalar>(values: Seq<V>) -> Seq<V> {
    Seq::new(values.len(), |i: int| values[i].mirror())
}

pub(crate) fn conjugates<V: Scalar>(values: &[V]) -> (result: Vec<V>)
    ensures
        result@ == mirrored(values@),
{
    let mut result: Vec<V> = Vec::new();
    let mut index: usize = 0;
    while index < values.len()
        invariant
            index <= values@.len(),
            result@.len() == index,
            forall|i: int| 0 <= i < index ==> #[trigger] result@[i] == values@[i].mirror(),
        decreases values@.len() - index,
    {
        result.push(values[index].conjugate());
        index = index + 1;
    }
    assert(result@ =~= mirrored(values@));
    result
}

pub(crate) fn conjugate_all<V: Scalar>(values: &mut [V])
    ensures
        final(values)@ == mirrored(old(values)@),
{
    let length: usize = values.len();
    let ghost start = values@;
    let mut index: usize = 0;
    while index < length
        invariant
            index <= length,
            length == values@.len(),
            length == start.len(),
            forall|i: int| 0 <= i < index ==> #[trigger] values@[i] == start[i].mirror(),
            forall|i: int| index <= i < length ==> #[trigger] values@[i] == start[i],
        decreases length - index,
    {
        let value: V = values[index].conjugate();
        values[index] = value;
        index = index + 1;
    }
    assert(values@ =~= mirrored(start));
}

/// The sums over the rows of stored entries make up the image.
proof fn lemma_rows<V: Scalar>(
    matrix: &Operator<V>,
    list: Seq<Triplet<V>>,
    by_column: bool,
    input: Seq<V>,
)
    requires
        operator::good_list(true, list, by_column, matrix.rows(), matrix.columns()),
        forall|row: int, column: int|
            matrix.inside(row, column) ==> #[trigger] matrix.entry(row, column)
                == compressed::list_cell(list, row, column),
    ensures
        forall|row: int|
            0 <= row < matrix.rows() ==> #[trigger] folds::line_fold(
                list,
                row,
                false,
                action_term(input),
            ) == folds::ascending_fold(
                true,
                |column: int| matrix.entry(row, column),
                action_term(input),
                matrix.columns() as nat,
            ),
{
    assert forall|row: int| 0 <= row < matrix.rows() implies #[trigger] folds::line_fold(
        list,
        row,
        false,
        action_term(input),
    ) == folds::ascending_fold(
        true,
        |column: int| matrix.entry(row, column),
        action_term(input),
        matrix.columns() as nat,
    ) by {
        let cell = |column: int| matrix.entry(row, column);
        assert(folds::spells_line(true, list, row, false, cell, matrix.columns() as nat)) by {
            assert forall|i: int|
                0 <= i < list.len() && compressed::major(#[trigger] list[i], false)
                    == row implies ({
                let at = compressed::minor(list[i], false) as int;
                at < matrix.columns() && list[i].value == cell(at) && !scalar::blank(true, list[i].value)
            }) by {
                compressed::lemma_list_cell_at(list, by_column, i);
                assert(matrix.inside(row, list[i].column as int));
                assert(matrix.entry(row, list[i].column as int) == list[i].value);
            }
            assert forall|at: int|
                0 <= at < matrix.columns() && !scalar::blank(true, #[trigger] cell(at)) implies exists|i: int|
                0 <= i < list.len() && compressed::major(#[trigger] list[i], false) == row
                    && compressed::minor(list[i], false) == at by {
                assert(matrix.inside(row, at));
                compressed::lemma_list_cell_some(list, row, at);
                let i = choose|i: int|
                    0 <= i < list.len() && triplets::stands_at(#[trigger] list[i], row, at);
                assert(compressed::major(list[i], false) == row);
            }
        }
        folds::lemma_line_fold(
            true,
            list,
            by_column,
            row,
            false,
            cell,
            action_term(input),
            matrix.columns() as nat,
        );
    }
}

} // verus!
