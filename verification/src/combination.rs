//! Linear combinations of matrices of one shape.

use vstd::prelude::*;
use crate::algebra::Change;
use crate::algebra;
use crate::error::Result;
use crate::operator::{MatrixFormat, Operator};
use crate::operator;
use crate::scalar::Scalar;
use crate::triplets::Triplet;
use crate::triplets;

verus! {

/// A matrix and what is done to its values before they are added.
#[verifier::ext_equal]
pub struct Part<V> {
    pub change: Change<V>,
    pub matrix: Operator<V>,
}

/// What the first parts contribute to a place, what counts as zero left out.
pub open spec fn contributions<V: Scalar>(
    parts: Seq<Part<V>>,
    row: int,
    column: int,
    upto: nat,
) -> Seq<V>
    decreases upto,
{
    if upto == 0 {
        Seq::empty()
    } else {
        let front = contributions(parts, row, column, (upto - 1) as nat);
        let part = parts[upto - 1];
        if part.matrix.entry(row, column).tiny() {
            front
        } else {
            front.push(algebra::changed(part.change, part.matrix.entry(row, column)))
        }
    }
}

/// The value of a place of the combination.
pub open spec fn combined_value<V: Scalar>(parts: Seq<Part<V>>, row: int, column: int) -> V {
    triplets::summed(contributions(parts, row, column, parts.len()))
}

/// Every contribution is finite.
pub open spec fn finite_parts<V: Scalar>(parts: Seq<Part<V>>) -> bool {
    forall|i: int|
        0 <= i < parts.len() ==> (#[trigger] parts[i]).matrix.stays_finite(parts[i].change)
}

/// The matrix is the combination of the parts.
pub open spec fn sums_up<V: Scalar>(
    matrix: &Operator<V>,
    shape: (usize, usize),
    format: MatrixFormat,
    parts: Seq<Part<V>>,
) -> bool {
    &&& matrix.wf()
    &&& matrix.shape == shape
    &&& matrix.format == format
    &&& forall|row: int, column: int|
        matrix.inside(row, column) ==> #[trigger] matrix.entry(row, column) == operator::settled(
            format,
            combined_value(parts, row, column),
        )
}

proof fn lemma_contributions_front<V: Scalar>(
    parts: Seq<Part<V>>,
    part: Part<V>,
    row: int,
    column: int,
    upto: nat,
)
    requires
        upto <= parts.len(),
    ensures
        contributions(parts.push(part), row, column, upto) == contributions(
            parts,
            row,
            column,
            upto,
        ),
    decreases upto,
{
    if upto > 0 {
        lemma_contributions_front(parts, part, row, column, (upto - 1) as nat);
        assert(parts.push(part)[upto - 1] == parts[upto - 1]);
    }
}

/// A combination in the making.
pub struct Combination<V> {
    rows: usize,
    columns: usize,
    list: Vec<Triplet<V>>,
    parts: Ghost<Seq<Part<V>>>,
}

impl<V: Scalar> Combination<V> {
    pub closed spec fn shape(&self) -> (usize, usize) {
        (self.rows, self.columns)
    }

    pub closed spec fn parts(&self) -> Seq<Part<V>> {
        self.parts@
    }

    pub closed spec fn wf(&self) -> bool {
        &&& forall|row: int, column: int|
            0 <= row < self.rows && 0 <= column < self.columns ==> #[trigger] triplets::values_at(
                self.list@,
                row,
                column,
            ) == contributions(self.parts@, row, column, self.parts@.len())
        &&& operator::acceptable(self.list@, self.rows as int, self.columns as int)
            == finite_parts(self.parts@)
    }

    /// No part yet.
    pub fn new(rows: usize, columns: usize) -> (combination: Self)
        ensures
            combination.wf(),
            combination.shape() == (rows, columns),
            combination.parts().len() == 0,
    {
        let list: Vec<Triplet<V>> = Vec::new();
        Combination { rows, columns, list, parts: Ghost(Seq::empty()) }
    }

    /// One more part.
    pub fn append(&mut self, matrix: &Operator<V>, change: Change<V>)
        requires
            old(self).wf(),
            matrix.wf(),
            matrix.shape == old(self).shape(),
        ensures
            final(self).wf(),
            final(self).shape() == old(self).shape(),
            final(self).parts() == old(self).parts().push(Part { change, matrix: *matrix }),
    {
        let ghost before = *self;
        let ghost part = Part { change, matrix: *matrix };
        let ghost longer = before.parts@.push(part);
        let entries: Vec<Triplet<V>> = matrix.triplets();
        algebra::append_moved(&entries, false, change, &mut self.list);
        self.parts = Ghost(longer);
        proof {
            let head = before.list@;
            let tail = self.list@.subrange(head.len() as int, self.list@.len() as int);
            assert(self.list@ =~= head + tail) by {
                assert(self.list@.subrange(0, head.len() as int) == head);
            }
            assert forall|i: int| 0 <= i < entries@.len() implies #[trigger] tail[i]
                == algebra::moved(entries@[i], false, change) by {
                assert(self.list@[head.len() + i] == algebra::moved(entries@[i], false, change));
            }
            assert forall|row: int, column: int|
                0 <= row < self.rows && 0 <= column < self.columns implies
                #[trigger] triplets::values_at(self.list@, row, column) == contributions(
                longer,
                row,
                column,
                longer.len(),
            ) by {
                triplets::lemma_values_concat(head, tail, row, column);
                algebra::lemma_moved_values(entries@, tail, false, change, row, column);
                algebra::lemma_spelled_values(matrix, entries@, row, column);
                lemma_contributions_front(before.parts@, part, row, column, before.parts@.len());
                assert(longer[longer.len() - 1] == part);
                assert(triplets::values_at(head, row, column) == contributions(
                    before.parts@,
                    row,
                    column,
                    before.parts@.len(),
                ));
                assert(triplets::values_at(self.list@, row, column) =~= contributions(
                    longer,
                    row,
                    column,
                    longer.len(),
                ));
            }
            lemma_acceptable(before, self.list@, head, tail, entries@, matrix, change, longer);
        }
    }

    /// The combination in a storage format.
    pub fn finish(self, format: MatrixFormat) -> (result: Result<Operator<V>>)
        requires
            self.wf(),
            operator::storable(self.shape().0, self.shape().1, format),
        ensures
            match result {
                Ok(matrix) => finite_parts(self.parts()) && sums_up(
                    &matrix,
                    self.shape(),
                    format,
                    self.parts(),
                ),
                Err(error) => error is InvalidCoupling && !finite_parts(self.parts()),
            },
    {
        Operator::from_triplets(self.rows, self.columns, self.list.as_slice(), format)
    }
}

proof fn lemma_acceptable<V: Scalar>(
    before: Combination<V>,
    list: Seq<Triplet<V>>,
    head: Seq<Triplet<V>>,
    tail: Seq<Triplet<V>>,
    entries: Seq<Triplet<V>>,
    matrix: &Operator<V>,
    change: Change<V>,
    longer: Seq<Part<V>>,
)
    requires
        before.wf(),
        head == before.list@,
        list == head + tail,
        matrix.wf(),
        matrix.shape == before.shape(),
        matrix.spelled(entries),
        tail.len() == entries.len(),
        forall|i: int|
            0 <= i < entries.len() ==> #[trigger] tail[i] == algebra::moved(
                entries[i],
                false,
                change,
            ),
        longer == before.parts@.push(Part { change, matrix: *matrix }),
    ensures
        operator::acceptable(list, before.rows as int, before.columns as int) == finite_parts(
            longer,
        ),
{
    let rows = before.rows as int;
    let columns = before.columns as int;
    let part = Part { change, matrix: *matrix };
    if operator::acceptable(list, rows, columns) {
        assert(operator::acceptable(head, rows, columns)) by {
            assert forall|i: int| 0 <= i < head.len() implies (#[trigger] head[i]).row < rows
                && head[i].column < columns && head[i].value.proper() by {
                assert(list[i] == head[i]);
            }
        }
        assert(matrix.stays_finite(change)) by {
            assert forall|row: int, column: int|
                matrix.inside(row, column) && !(#[trigger] matrix.entry(
                    row,
                    column,
                )).tiny() implies algebra::changed(change, matrix.entry(row, column)).proper() by {
                let i = choose|i: int|
                    0 <= i < entries.len() && triplets::stands_at(#[trigger] entries[i], row, column);
                assert(list[head.len() + i] == tail[i]);
                assert(list[head.len() + i].value.proper());
            }
        }
        assert forall|i: int| 0 <= i < longer.len() implies (
        #[trigger] longer[i]).matrix.stays_finite(longer[i].change) by {
            if i < before.parts@.len() {
                assert(longer[i] == before.parts@[i]);
            }
        }
    } else {
        let i = choose|i: int|
            0 <= i < list.len() && !((#[trigger] list[i]).row < rows && list[i].column < columns
                && list[i].value.proper());
        if i < head.len() {
            assert(list[i] == head[i]);
            assert(!operator::acceptable(head, rows, columns));
            let k = choose|k: int|
                0 <= k < before.parts@.len() && !(#[trigger] before.parts@[k]).matrix.stays_finite(
                    before.parts@[k].change,
                );
            assert(longer[k] == before.parts@[k]);
        } else {
            let k = i - head.len();
            assert(list[i] == tail[k]);
            assert(matrix.inside(entries[k].row as int, entries[k].column as int));
            assert(!algebra::changed(
                change,
                matrix.entry(entries[k].row as int, entries[k].column as int),
            ).proper());
            assert(longer[longer.len() - 1] == part);
            assert(!part.matrix.stays_finite(part.change));
        }
    }
}

} // verus!
