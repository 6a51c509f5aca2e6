//! Matrices from the images of unit vectors.

use vstd::prelude::*;
use crate::algebra;
use crate::error::{QmbedError, Result};
use crate::linear::LinearOperator;
use crate::linear;
use crate::operator::{MatrixFormat, Operator};
use crate::operator;
use crate::projector;
use crate::scalar::Scalar;
use crate::timed::{Moment, TimeDependentOperator, TimeOperator};
use crate::triplets::Triplet;
use crate::triplets;

verus! {

/// All columns have the given number of rows.
pub open spec fn level<V>(columns: Seq<Vec<V>>, rows: usize) -> bool {
    forall|c: int| 0 <= c < columns.len() ==> (#[trigger] columns[c])@.len() == rows
}

/// The entries of the first rows of a column that do not count as zero.
pub open spec fn column_list<V: Scalar>(values: Seq<V>, column: usize, upto: nat) -> Seq<Triplet<V>>
    decreases upto,
{
    if upto == 0 {
        Seq::empty()
    } else {
        let front = column_list(values, column, (upto - 1) as nat);
        if values[upto - 1].tiny() {
            front
        } else {
            front.push(Triplet { row: (upto - 1) as usize, column, value: values[upto - 1] })
        }
    }
}

/// The entries of the first columns.
spec fn whole_list<V: Scalar>(columns: Seq<Vec<V>>, upto: nat) -> Seq<Triplet<V>>
    decreases upto,
{
    if upto == 0 {
        Seq::empty()
    } else {
        whole_list(columns, (upto - 1) as nat) + column_list(
            columns[upto - 1]@,
            (upto - 1) as usize,
            columns[upto - 1]@.len(),
        )
    }
}

/// The values that the list of a column holds for a place.
pub proof fn lemma_column_list<V: Scalar>(
    values: Seq<V>,
    at: usize,
    upto: nat,
    row: int,
    column: int,
)
    requires
        upto <= values.len() <= usize::MAX,
        0 <= row,
        0 <= column,
    ensures
        triplets::values_at(column_list(values, at, upto), row, column) == (if column == at && row
            < upto && !values[row].tiny() {
            seq![values[row]]
        } else {
            Seq::<V>::empty()
        }),
        forall|i: int|
            0 <= i < column_list(values, at, upto).len() ==> (#[trigger] column_list(
                values,
                at,
                upto,
            )[i]).row < upto && column_list(values, at, upto)[i].column == at && column_list(
                values,
                at,
                upto,
            )[i].value == values[column_list(values, at, upto)[i].row as int] && !column_list(
                values,
                at,
                upto,
            )[i].value.tiny(),
    decreases upto,
{
    if upto > 0 {
        lemma_column_list(values, at, (upto - 1) as nat, row, column);
        let front = column_list(values, at, (upto - 1) as nat);
        let list = column_list(values, at, upto);
        if !values[upto - 1].tiny() {
            assert(list.drop_last() =~= front);
            assert forall|i: int| 0 <= i < list.len() implies (#[trigger] list[i]).row < upto
                && list[i].column == at && list[i].value == values[list[i].row as int]
                && !list[i].value.tiny() by {
                if i < front.len() {
                    assert(list[i] == front[i]);
                }
            }
            if column == at && row == upto - 1 {
                assert(triplets::values_at(list, row, column) =~= seq![values[row]]);
            }
        }
    }
}

/// A value of the matrix before it is stored.
pub open spec fn kept_value<V: Scalar>(value: V) -> V {
    if value.tiny() {
        V::zero_value()
    } else {
        V::zero_value().sum(value)
    }
}

/// Every value that does not count as zero is finite.
pub open spec fn finite_columns<V: Scalar>(columns: Seq<Vec<V>>) -> bool {
    forall|c: int, r: int|
        0 <= c < columns.len() && 0 <= r < columns[c]@.len() && !(#[trigger] columns[c]@[r]).tiny()
            ==> columns[c]@[r].proper()
}

proof fn lemma_whole_list<V: Scalar>(
    columns: Seq<Vec<V>>,
    rows: usize,
    upto: nat,
    row: int,
    column: int,
)
    requires
        level(columns, rows),
        upto <= columns.len() <= usize::MAX,
        0 <= row < rows,
        0 <= column,
    ensures
        triplets::values_at(whole_list(columns, upto), row, column) == (if column < upto
            && !columns[column]@[row].tiny() {
            seq![columns[column]@[row]]
        } else {
            Seq::<V>::empty()
        }),
    decreases upto,
{
    if upto > 0 {
        lemma_whole_list(columns, rows, (upto - 1) as nat, row, column);
        assert(columns[upto - 1]@.len() == rows);
        lemma_column_list(
            columns[upto - 1]@,
            (upto - 1) as usize,
            rows as nat,
            row,
            column,
        );
        let head = whole_list(columns, (upto - 1) as nat);
        let tail = column_list(columns[upto - 1]@, (upto - 1) as usize, rows as nat);
        triplets::lemma_values_concat(head, tail, row, column);
        assert(triplets::values_at(head + tail, row, column) =~= (if column < upto
            && !columns[column]@[row].tiny() {
            seq![columns[column]@[row]]
        } else {
            Seq::<V>::empty()
        }));
    }
}

proof fn lemma_whole_entries<V: Scalar>(columns: Seq<Vec<V>>, rows: usize, upto: nat)
    requires
        level(columns, rows),
        upto <= columns.len() <= usize::MAX,
    ensures
        forall|i: int|
            0 <= i < whole_list(columns, upto).len() ==> (#[trigger] whole_list(
                columns,
                upto,
            )[i]).row < rows && whole_list(columns, upto)[i].column < upto && whole_list(
                columns,
                upto,
            )[i].value == columns[whole_list(columns, upto)[i].column as int]@[whole_list(
                columns,
                upto,
            )[i].row as int] && !whole_list(columns, upto)[i].value.tiny(),
    decreases upto,
{
    if upto > 0 {
        lemma_whole_entries(columns, rows, (upto - 1) as nat);
        assert(columns[upto - 1]@.len() == rows);
        lemma_column_list(columns[upto - 1]@, (upto - 1) as usize, rows as nat, 0, 0);
        let head = whole_list(columns, (upto - 1) as nat);
        let tail = column_list(columns[upto - 1]@, (upto - 1) as usize, rows as nat);
        let list = whole_list(columns, upto);
        assert forall|i: int| 0 <= i < list.len() implies (#[trigger] list[i]).row < rows
            && list[i].column < upto && list[i].value
            == columns[list[i].column as int]@[list[i].row as int] && !list[i].value.tiny() by {
            if i < head.len() {
                assert(list[i] == head[i]);
            } else {
                assert(list[i] == tail[i - head.len()]);
            }
        }
    }
}

/// The matrix holds the columns.
pub open spec fn holds_columns<V: Scalar>(
    matrix: &Operator<V>,
    rows: usize,
    columns: Seq<Vec<V>>,
    format: MatrixFormat,
) -> bool {
    &&& matrix.wf()
    &&& matrix.shape == (rows, columns.len() as usize)
    &&& matrix.format == format
    &&& forall|row: int, column: int|
        matrix.inside(row, column) ==> #[trigger] matrix.entry(row, column) == operator::settled(
            format,
            kept_value(columns[column]@[row]),
        )
}

/// A matrix from its columns, what counts as zero left out.
pub fn from_columns<V: Scalar>(rows: usize, columns: &Vec<Vec<V>>, format: MatrixFormat) -> (result:
    Result<Operator<V>>)
    requires
        level(columns@, rows),
        operator::storable(rows, columns@.len() as usize, format),
    ensures
        match result {
            Ok(matrix) => finite_columns(columns@) && holds_columns(
                &matrix,
                rows,
                columns@,
                format,
            ),
            Err(error) => error is InvalidCoupling && !finite_columns(columns@),
        },
{
    let count: usize = columns.len();
    let ghost all = columns@;
    let mut list: Vec<Triplet<V>> = Vec::new();
    let mut column: usize = 0;
    while column < count
        invariant
            all == columns@,
            count == all.len(),
            level(all, rows),
            column <= count,
            list@ == whole_list(all, column as nat),
        decreases count - column,
    {
        let ghost head = list@;
        let ghost values = all[column as int]@;
        let mut row: usize = 0;
        assert(all[column as int]@.len() == rows);
        assert(head + column_list(values, column, 0) =~= head);
        while row < rows
            invariant
                all == columns@,
                count == all.len(),
                column < count,
                values == all[column as int]@,
                values.len() == rows,
                row <= rows,
                list@ == head + column_list(values, column, row as nat),
            decreases rows - row,
        {
            let value: V = columns[column][row];
            let ghost front = column_list(values, column, row as nat);
            if !value.is_negligible() {
                list.push(Triplet { row, column, value });
                assert((head + front).push(Triplet { row, column, value }) =~= head + front.push(
                    Triplet { row, column, value },
                ));
            }
            row = row + 1;
        }
        column = column + 1;
    }
    proof {
        lemma_whole_entries(all, rows, count as nat);
        if operator::acceptable(list@, rows as int, count as int) {
            assert forall|c: int, r: int|
                0 <= c < all.len() && 0 <= r < all[c]@.len() && !(
                #[trigger] all[c]@[r]).tiny() implies all[c]@[r].proper() by {
                assert(all[c]@.len() == rows);
                lemma_whole_list(all, rows, count as nat, r, c);
                triplets::lemma_some_entry(list@, r, c);
                let i = choose|i: int|
                    0 <= i < list@.len() && triplets::stands_at(#[trigger] list@[i], r, c);
                assert(list@[i].value.proper());
            }
        } else {
            let i = choose|i: int|
                0 <= i < list@.len() && !((#[trigger] list@[i]).row < rows && list@[i].column
                    < count && list@[i].value.proper());
            assert(all[list@[i].column as int]@.len() == rows);
            assert(!all[list@[i].column as int]@[list@[i].row as int].proper());
        }
    }
    let result: Result<Operator<V>> = Operator::from_triplets(rows, count, list.as_slice(), format);
    proof {
        if let Ok(matrix) = &result {
            assert forall|row: int, column: int| matrix.inside(row, column) implies #[trigger]
                matrix.entry(row, column) == operator::settled(
                format,
                kept_value(all[column]@[row]),
            ) by {
                lemma_whole_list(all, rows, count as nat, row, column);
                if !all[column]@[row].tiny() {
                    algebra::lemma_sum_one(all[column]@[row]);
                }
            }
        }
    }
    result
}

/// The columns are the images of the unit vectors at a moment.
pub open spec fn images_at<T: Moment, V: Scalar, O: TimeDependentOperator<T, V>>(
    operator: &O,
    time: T,
    columns: Seq<Vec<V>>,
) -> bool {
    &&& columns.len() <= operator.extent().1
    &&& forall|c: int|
        0 <= c < columns.len() ==> imaged_at(operator, time, c, #[trigger] columns[c]@)
}

pub open spec fn imaged_at<T: Moment, V: Scalar, O: TimeDependentOperator<T, V>>(
    operator: &O,
    time: T,
    column: int,
    image: Seq<V>,
) -> bool {
    &&& image.len() == operator.extent().0
    &&& operator.maps_at(time, projector::unit(operator.extent().1 as nat, column)) == Some(image)
}

/// The unit vector is the first that is refused at a moment, and it is refused with the
/// error.
pub open spec fn refuses_first_at<T: Moment, V: Scalar, O: TimeDependentOperator<T, V>>(
    operator: &O,
    time: T,
    column: int,
    error: QmbedError,
) -> bool {
    let count = operator.extent().1;
    &&& 0 <= column < count
    &&& operator.maps_at(time, projector::unit(count as nat, column)) is None
    &&& operator.refuses_at(time, projector::unit(count as nat, column), error)
    &&& forall|before: int|
        0 <= before < column ==> (#[trigger] operator.maps_at(
            time,
            projector::unit(count as nat, before),
        )) is Some
}

/// What the matrix of a map at a moment is.
pub open spec fn evaluated<T: Moment, V: Scalar, O: TimeDependentOperator<T, V>>(
    operator: &O,
    time: T,
    format: MatrixFormat,
    result: Result<Operator<V>>,
) -> bool {
    match result {
        Ok(matrix) => time.settled_time() && exists|columns: Seq<Vec<V>>|
            {
                &&& columns.len() == operator.extent().1
                &&& #[trigger] images_at(operator, time, columns)
                &&& holds_columns(&matrix, operator.extent().0, columns, format)
            },
        Err(error) => if !time.settled_time() {
            error is InvalidOptions
        } else {
            ||| exists|c: int| #[trigger] refuses_first_at(operator, time, c, error)
            ||| error is InvalidCoupling && exists|columns: Seq<Vec<V>>|
                {
                    &&& columns.len() == operator.extent().1
                    &&& #[trigger] images_at(operator, time, columns)
                    &&& !finite_columns(columns)
                }
        },
    }
}

/// The matrix of a map at a moment.
pub fn evaluate<T: Moment, V: Scalar, O: TimeDependentOperator<T, V>>(
    operator: &O,
    time: T,
    format: MatrixFormat,
) -> (result: Result<Operator<V>>)
    requires
        operator.usable(),
        operator::storable(operator.extent().0, operator.extent().1, format),
    ensures
        evaluated(operator, time, format, result),
{
    if !time.is_settled() {
        return Err(QmbedError::InvalidOptions("evaluation time must be finite".to_string()));
    }
    let (rows, count): (usize, usize) = operator.shape();
    let mut columns: Vec<Vec<V>> = Vec::new();
    while columns.len() < count
        invariant
            time.settled_time(),
            operator.usable(),
            operator.extent() == (rows, count),
            columns@.len() <= count,
            images_at(operator, time, columns@),
        decreases count - columns@.len(),
    {
        let column: usize = columns.len();
        let mut start: Vec<V> = operator::zeros(count);
        start.set(column, V::one());
        assert(start@ =~= projector::unit(count as nat, column as int));
        let mut image: Vec<V> = operator::zeros(rows);
        match operator.apply_at(time, start.as_slice(), image.as_mut_slice()) {
            Ok(()) => {},
            Err(error) => {
                proof {
                    assert forall|c: int| 0 <= c < column implies (#[trigger] operator.maps_at(
                        time,
                        projector::unit(count as nat, c),
                    )) is Some by {
                        assert(imaged_at(operator, time, c, columns@[c]@));
                    }
                    assert(refuses_first_at(operator, time, column as int, error));
                }
                return Err(error);
            },
        }
        assert(imaged_at(operator, time, column as int, image@));
        columns.push(image);
    }
    proof {
        assert forall|c: int| 0 <= c < columns@.len() implies (#[trigger] columns@[c])@.len()
            == rows by {
            assert(imaged_at(operator, time, c, columns@[c]@));
        }
    }
    from_columns(rows, &columns, format)
}

impl<O, V: Scalar> TimeOperator<O, V> {
    /// The matrix of the map at a moment.
    pub fn evaluate<T: Moment>(&self, time: T, format: MatrixFormat) -> (result: Result<
        Operator<V>,
    >) where O: TimeDependentOperator<T, V>
        requires
            self.sound::<T>(),
            operator::storable(self.size().0, self.size().1, format),
        ensures
            evaluated(self, time, format, result),
    {
        evaluate(self, time, format)
    }
}

/// The values are the images of the unit vectors, row by row.
pub open spec fn dense_images<V: Scalar, O: LinearOperator<V>>(
    operator: &O,
    values: Seq<V>,
) -> bool {
    &&& values.len() == operator.extent().0 * operator.extent().1
    &&& forall|row: int, column: int|
        0 <= row < operator.extent().0 && 0 <= column < operator.extent().1 ==> cell_imaged(
            operator,
            row,
            column,
            #[trigger] values[operator::cell_index(operator.extent().1 as int, row, column)],
        )
}

/// The value is a component of the image of a unit vector.
pub open spec fn cell_imaged<V: Scalar, O: LinearOperator<V>>(
    operator: &O,
    row: int,
    column: int,
    value: V,
) -> bool {
    let image = operator.maps(projector::unit(operator.extent().1 as nat, column));
    image is Some && value == image->0[row]
}

/// A map whose images of the unit vectors are known refuses none of them.
pub proof fn lemma_dense_images<V: Scalar, O: LinearOperator<V>>(operator: &O, values: Seq<V>)
    requires
        dense_images(operator, values),
        operator.extent().0 > 0,
    ensures
        !linear::refuses_unit(operator),
{
    assert forall|column: int| 0 <= column < operator.extent().1 implies (
    #[trigger] operator.maps(projector::unit(operator.extent().1 as nat, column))) is Some by {
        assert(cell_imaged(
            operator,
            0,
            column,
            values[operator::cell_index(operator.extent().1 as int, 0, column)],
        ));
    }
}

/// All values of a map, row by row.
pub fn materialize_dense<V: Scalar, O: LinearOperator<V>>(operator: &O) -> (result: Result<Vec<V>>)
    requires
        operator.usable(),
        operator.extent().0 * operator.extent().1 <= usize::MAX,
    ensures
        match result {
            Ok(values) => dense_images(operator, values@),
            Err(error) => linear::refuses_unit_with(operator, error),
        },
{
    let (rows, count): (usize, usize) = operator.shape();
    let mut columns: Vec<Vec<V>> = Vec::new();
    while columns.len() < count
        invariant
            operator.usable(),
            operator.extent() == (rows, count),
            columns@.len() <= count,
            forall|c: int|
                0 <= c < columns@.len() ==> (#[trigger] columns@[c])@.len() == rows
                    && operator.maps(projector::unit(count as nat, c)) == Some(columns@[c]@),
        decreases count - columns@.len(),
    {
        let column: usize = columns.len();
        let mut start: Vec<V> = operator::zeros(count);
        start.set(column, V::one());
        assert(start@ =~= projector::unit(count as nat, column as int));
        let mut image: Vec<V> = operator::zeros(rows);
        match operator.apply(start.as_slice(), image.as_mut_slice()) {
            Ok(()) => {},
            Err(error) => {
                proof {
                    assert forall|c: int| 0 <= c < column implies (#[trigger] operator.maps(
                        projector::unit(count as nat, c),
                    )) is Some by {
                        assert(columns@[c]@.len() == rows);
                    }
                    assert(linear::refuses_first(operator, column as int, error));
                }
                return Err(error);
            },
        }
        assert(operator.maps(projector::unit(count as nat, column as int)) == Some(image@));
        columns.push(image);
    }
    let mut values: Vec<V> = Vec::new();
    let mut row: usize = 0;
    assert(0 * count == 0) by (nonlinear_arith);
    while row < rows
        invariant
            operator.extent() == (rows, count),
            columns@.len() == count,
            level(columns@, rows),
            forall|c: int|
                0 <= c < columns@.len() ==> (#[trigger] columns@[c])@.len() == rows
                    && operator.maps(projector::unit(count as nat, c)) == Some(columns@[c]@),
            row <= rows,
            values@.len() == row * count,
            forall|r: int, c: int|
                0 <= r < row && 0 <= c < count ==> #[trigger] values@[operator::cell_index(
                    count as int,
                    r,
                    c,
                )] == columns@[c]@[r],
        decreases rows - row,
    {
        let ghost before = values@;
        let mut column: usize = 0;
        while column < count
            invariant
                columns@.len() == count,
                level(columns@, rows),
                row < rows,
                column <= count,
                before.len() == row * count,
                values@.len() == row * count + column,
                forall|i: int| 0 <= i < before.len() ==> #[trigger] values@[i] == before[i],
                forall|c: int|
                    0 <= c < column ==> #[trigger] values@[row * count + c]
                        == columns@[c]@[row as int],
            decreases count - column,
        {
            assert(columns@[column as int]@.len() == rows);
            values.push(columns[column][row]);
            column = column + 1;
        }
        proof {
            assert((row + 1) * count == row * count + count) by (nonlinear_arith);
            assert forall|r: int, c: int| 0 <= r < row + 1 && 0 <= c < count implies
                #[trigger] values@[operator::cell_index(count as int, r, c)]
                == columns@[c]@[r] by {
                if r < row {
                    operator::lemma_cell_index(row as int, count as int, r, c);
                    assert(values@[operator::cell_index(count as int, r, c)]
                        == before[operator::cell_index(count as int, r, c)]);
                } else {
                    assert(values@[row * count + c] == columns@[c]@[row as int]);
                }
            }
        }
        row = row + 1;
    }
    proof {
        assert forall|r: int, c: int| 0 <= r < rows && 0 <= c < count implies cell_imaged(
            operator,
            r,
            c,
            #[trigger] values@[operator::cell_index(count as int, r, c)],
        ) by {
            assert(columns@[c]@.len() == rows);
        }
    }
    Ok(values)
}

/// The image of a unit vector.
pub open spec fn probed_column<V: Scalar, O: LinearOperator<V>>(operator: &O, column: int) -> Seq<
    V,
> {
    operator.maps(projector::unit(operator.extent().1 as nat, column))->0
}

/// The entries of the images of the first unit vectors that do not count as zero.
pub open spec fn probed_list<V: Scalar, O: LinearOperator<V>>(operator: &O, upto: nat) -> Seq<
    Triplet<V>,
>
    decreases upto,
{
    if upto == 0 {
        Seq::empty()
    } else {
        probed_list(operator, (upto - 1) as nat) + column_list(
            probed_column(operator, upto - 1),
            (upto - 1) as usize,
            operator.extent().0 as nat,
        )
    }
}

/// The entries of a map: the stored ones, or else those of the images of the unit vectors.
pub open spec fn streams<V: Scalar, O: LinearOperator<V>>(
    operator: &O,
    list: Seq<Triplet<V>>,
) -> bool {
    ||| operator.offers(Some(list))
    ||| operator.offers(None) && !linear::refuses_unit(operator) && list == probed_list(
        operator,
        operator.extent().1 as nat,
    )
}

/// The entries of a map cannot be had, and the error says why.
pub open spec fn unstreamable<V: Scalar, O: LinearOperator<V>>(
    operator: &O,
    error: QmbedError,
) -> bool {
    operator.withholds(error) || (operator.offers(None) && linear::refuses_unit_with(
        operator,
        error,
    ))
}

/// The entries of a map, from the images of unit vectors only where none are stored.
pub fn streamed_triplets<V: Scalar, O: LinearOperator<V>>(operator: &O) -> (result: Result<
    Vec<Triplet<V>>,
>)
    requires
        operator.usable(),
    ensures
        match result {
            Ok(list) => streams(operator, list@) && triplets::fits(
                list@,
                operator.extent().0 as int,
                operator.extent().1 as int,
            ),
            Err(error) => unstreamable(operator, error),
        },
{
    match operator.stored_triplets() {
        Ok(Some(list)) => {
            return Ok(list);
        },
        Ok(None) => {},
        Err(error) => {
            return Err(error);
        },
    }
    let (rows, count): (usize, usize) = operator.shape();
    let mut list: Vec<Triplet<V>> = Vec::new();
    let mut column: usize = 0;
    while column < count
        invariant
            operator.usable(),
            operator.offers(None),
            operator.extent() == (rows, count),
            column <= count,
            forall|c: int|
                0 <= c < column ==> (#[trigger] operator.maps(
                    projector::unit(operator.extent().1 as nat, c),
                )) is Some,
            triplets::fits(list@, rows as int, count as int),
            list@ == probed_list(operator, column as nat),
        decreases count - column,
    {
        let mut start: Vec<V> = operator::zeros(count);
        start.set(column, V::one());
        assert(start@ =~= projector::unit(count as nat, column as int));
        let mut image: Vec<V> = operator::zeros(rows);
        match operator.apply(start.as_slice(), image.as_mut_slice()) {
            Ok(()) => {},
            Err(error) => {
                assert(linear::refuses_first(operator, column as int, error));
                return Err(error);
            },
        }
        let ghost head = list@;
        let ghost values = image@;
        assert(values == probed_column(operator, column as int));
        let mut row: usize = 0;
        assert(head + column_list(values, column, 0) =~= head);
        while row < rows
            invariant
                values == image@,
                values.len() == rows,
                row <= rows,
                column < count,
                triplets::fits(list@, rows as int, count as int),
                list@ == head + column_list(values, column, row as nat),
            decreases rows - row,
        {
            let value: V = image[row];
            let ghost front = column_list(values, column, row as nat);
            if !value.is_negligible() {
                list.push(Triplet { row, column, value });
                assert((head + front).push(Triplet { row, column, value }) =~= head + front.push(
                    Triplet { row, column, value },
                ));
            }
            row = row + 1;
        }
        column = column + 1;
    }
    assert(!linear::refuses_unit(operator));
    Ok(list)
}

} // verus!
