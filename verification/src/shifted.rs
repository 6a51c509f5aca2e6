//! Sparse square matrices with a shifted diagonal.

use vstd::prelude::*;
use crate::error::{QmbedError, Result};
use crate::scalar::Scalar;
use crate::triplets::Triplet;
use crate::triplets;

verus! {

/// The stored values of a column, by row, lie within the lists.
pub open spec fn in_reach(offsets: Seq<usize>, stored: nat, column: int) -> bool {
    offsets[column] <= offsets[column + 1] ==> offsets[column + 1] <= stored
}

/// One stored value, shifted where it stands on the diagonal.
pub open spec fn shifted_entry<V: Scalar>(row: usize, column: usize, value: V, negative: V) -> Triplet<
    V,
> {
    Triplet {
        row,
        column,
        value: if row == column {
            value.sum(negative)
        } else {
            value
        },
    }
}

/// The stored values of a column from one place up to another.
pub open spec fn stored_run<V: Scalar>(
    rows: Seq<usize>,
    values: Seq<V>,
    column: usize,
    negative: V,
    from: int,
    to: int,
) -> Seq<Triplet<V>> {
    Seq::new(
        if from <= to {
            (to - from) as nat
        } else {
            0
        },
        |k: int| shifted_entry(rows[from + k], column, values[from + k], negative),
    )
}

/// Some stored value of the column from one place up to another stands on the diagonal.
pub open spec fn meets_diagonal(rows: Seq<usize>, column: usize, from: int, to: int) -> bool {
    exists|p: int| from <= p < to && #[trigger] rows[p] == column
}

/// The entries of a column of the shifted matrix: the stored ones in order, and the
/// shift alone where the diagonal was not stored.
pub open spec fn shifted_column<V: Scalar>(
    offsets: Seq<usize>,
    rows: Seq<usize>,
    values: Seq<V>,
    negative: V,
    column: int,
) -> Seq<Triplet<V>> {
    let from = offsets[column] as int;
    let to = offsets[column + 1] as int;
    let stored = stored_run(rows, values, column as usize, negative, from, to);
    if meets_diagonal(rows, column as usize, from, to) {
        stored
    } else {
        stored.push(Triplet { row: column as usize, column: column as usize, value: negative })
    }
}

/// The entries of the first columns of the shifted matrix.
pub open spec fn shifted_columns<V: Scalar>(
    offsets: Seq<usize>,
    rows: Seq<usize>,
    values: Seq<V>,
    negative: V,
    upto: nat,
) -> Seq<Triplet<V>>
    decreases upto,
{
    if upto == 0 {
        Seq::empty()
    } else {
        shifted_columns(offsets, rows, values, negative, (upto - 1) as nat) + shifted_column(
            offsets,
            rows,
            values,
            negative,
            upto - 1,
        )
    }
}

/// The entries of a matrix with a number taken from its diagonal.
pub open spec fn shifted_entries<V: Scalar>(
    dimension: usize,
    offsets: Seq<usize>,
    rows: Seq<usize>,
    values: Seq<V>,
    shift: V,
) -> Seq<Triplet<V>> {
    shifted_columns(
        offsets,
        rows,
        values,
        shift.product(V::minus_one_value()),
        dimension as nat,
    )
}

/// The lists describe the columns of a square matrix, and the shift is finite.
pub open spec fn describes<V: Scalar>(
    dimension: usize,
    offsets: Seq<usize>,
    rows: Seq<usize>,
    values: Seq<V>,
    shift: V,
) -> bool {
    &&& offsets.len() == dimension + 1
    &&& rows.len() == values.len()
    &&& shift.proper()
}

/// The entries of a square matrix, stored by columns, with a number taken from its
/// diagonal.
pub fn shifted_triplets<V: Scalar>(
    dimension: usize,
    column_offsets: &[usize],
    row_indices: &[usize],
    values: &[V],
    shift: V,
) -> (result: Result<Vec<Triplet<V>>>)
    requires
        describes(dimension, column_offsets@, row_indices@, values@, shift) ==> forall|c: int|
            0 <= c < dimension ==> #[trigger] in_reach(column_offsets@, values@.len(), c),
    ensures
        match result {
            Ok(list) => describes(dimension, column_offsets@, row_indices@, values@, shift)
                && list@ == shifted_entries(
                dimension,
                column_offsets@,
                row_indices@,
                values@,
                shift,
            ),
            Err(error) => error is DimensionMismatch && !describes(
                dimension,
                column_offsets@,
                row_indices@,
                values@,
                shift,
            ),
        },
{
    let offsets: usize = column_offsets.len();
    if offsets == 0 || offsets - 1 != dimension || row_indices.len() != values.len()
        || !shift.is_finite() {
        return Err(
            QmbedError::DimensionMismatch(
                "invalid CSC storage for shifted factorization".to_string(),
            ),
        );
    }
    let negative: V = shift.times(V::minus_one());
    let mut list: Vec<Triplet<V>> = Vec::new();
    let mut column: usize = 0;
    while column < dimension
        invariant
            describes(dimension, column_offsets@, row_indices@, values@, shift),
            forall|c: int|
                0 <= c < dimension ==> #[trigger] in_reach(column_offsets@, values@.len(), c),
            column <= dimension,
            list@ == shifted_columns(
                column_offsets@,
                row_indices@,
                values@,
                negative,
                column as nat,
            ),
        decreases dimension - column,
    {
        let from: usize = column_offsets[column];
        let to: usize = column_offsets[column + 1];
        assert(in_reach(column_offsets@, values@.len(), column as int));
        let ghost head = list@;
        let mut on_diagonal: bool = false;
        let mut position: usize = from;
        assert(head + stored_run(
            row_indices@,
            values@,
            column,
            negative,
            from as int,
            from as int,
        ) =~= head);
        while position < to
            invariant
                describes(dimension, column_offsets@, row_indices@, values@, shift),
                from <= position,
                from <= to ==> position <= to <= values@.len(),
                from > to ==> position == from,
                list@ == head + stored_run(
                    row_indices@,
                    values@,
                    column,
                    negative,
                    from as int,
                    position as int,
                ),
                on_diagonal == meets_diagonal(row_indices@, column, from as int, position as int),
            decreases to - position,
        {
            let row: usize = row_indices[position];
            let ghost run = stored_run(
                row_indices@,
                values@,
                column,
                negative,
                from as int,
                position as int,
            );
            let mut value: V = values[position];
            if row == column {
                value = value.plus(negative);
                on_diagonal = true;
                assert(row_indices@[position as int] == column);
            }
            list.push(Triplet { row, column, value });
            proof {
                let longer = stored_run(
                    row_indices@,
                    values@,
                    column,
                    negative,
                    from as int,
                    position + 1,
                );
                assert(longer =~= run.push(Triplet { row, column, value }));
                assert((head + run).push(Triplet { row, column, value }) =~= head + longer);
                if meets_diagonal(row_indices@, column, from as int, position + 1) {
                    let p = choose|p: int|
                        from <= p < position + 1 && #[trigger] row_indices@[p] == column;
                    assert(row_indices@[p] == column);
                }
            }
            position = position + 1;
        }
        proof {
            assert(stored_run(row_indices@, values@, column, negative, from as int, to as int)
                =~= stored_run(
                row_indices@,
                values@,
                column,
                negative,
                from as int,
                position as int,
            ));
            if from > to {
                assert(!meets_diagonal(row_indices@, column, from as int, to as int));
            }
        }
        if !on_diagonal {
            let ghost run = stored_run(
                row_indices@,
                values@,
                column,
                negative,
                from as int,
                to as int,
            );
            list.push(Triplet { row: column, column, value: negative });
            assert((head + run).push(Triplet { row: column, column, value: negative }) =~= head
                + run.push(Triplet { row: column, column, value: negative }));
        }
        column = column + 1;
    }
    Ok(list)
}

/// Every column of the shifted matrix has an entry on the diagonal.
pub proof fn diagonal_is_filled<V: Scalar>(
    dimension: usize,
    offsets: Seq<usize>,
    rows: Seq<usize>,
    values: Seq<V>,
    shift: V,
    negative: V,
    column: int,
)
    requires
        describes(dimension, offsets, rows, values, shift),
        0 <= column < dimension,
    ensures
        exists|i: int|
            0 <= i < shifted_columns(offsets, rows, values, negative, dimension as nat).len()
                && triplets::stands_at(
                #[trigger] shifted_columns(offsets, rows, values, negative, dimension as nat)[i],
                column,
                column,
            ),
{
    lemma_diagonal_filled(offsets, rows, values, negative, dimension as nat, column);
}

proof fn lemma_diagonal_filled<V: Scalar>(
    offsets: Seq<usize>,
    rows: Seq<usize>,
    values: Seq<V>,
    negative: V,
    upto: nat,
    column: int,
)
    requires
        0 <= column < upto <= usize::MAX,
    ensures
        exists|i: int|
            0 <= i < shifted_columns(offsets, rows, values, negative, upto).len()
                && triplets::stands_at(
                #[trigger] shifted_columns(offsets, rows, values, negative, upto)[i],
                column,
                column,
            ),
    decreases upto,
{
    let head = shifted_columns(offsets, rows, values, negative, (upto - 1) as nat);
    let tail = shifted_column(offsets, rows, values, negative, upto - 1);
    let list = shifted_columns(offsets, rows, values, negative, upto);
    if column < upto - 1 {
        lemma_diagonal_filled(offsets, rows, values, negative, (upto - 1) as nat, column);
        let i = choose|i: int|
            0 <= i < head.len() && triplets::stands_at(#[trigger] head[i], column, column);
        assert(list[i] == head[i]);
    } else {
        let from = offsets[column] as int;
        let to = offsets[column + 1] as int;
        if meets_diagonal(rows, column as usize, from, to) {
            let p = choose|p: int| from <= p < to && #[trigger] rows[p] == column as usize;
            assert(tail[p - from].row == column);
            assert(list[head.len() + (p - from)] == tail[p - from]);
        } else {
            assert(tail[tail.len() - 1].row == column);
            assert(list[head.len() + (tail.len() - 1)] == tail[tail.len() - 1]);
        }
    }
}

} // verus!
