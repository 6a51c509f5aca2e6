//! Sums, products and adjoints of matrices.

use vstd::prelude::*;
use crate::composition;
use crate::error::{QmbedError, Result};
use crate::operator::{MatrixFormat, Operator, Storage};
use crate::operator;
use crate::scalar::Scalar;
use crate::scalar;
use crate::triplets::Triplet;
use crate::triplets;

verus! {

/// What is done to every value of a matrix.
#[derive(Clone, Copy, Debug)]
pub enum Change<V> {
    Keep,
    Conjugate,
    Scale(V),
}

pub open spec fn changed<V: Scalar>(change: Change<V>, value: V) -> V {
    match change {
        Change::Keep => value,
        Change::Conjugate => value.mirror(),
        Change::Scale(factor) => factor.product(value),
    }
}

/// The factor of a change, where it has one, is finite.
pub open spec fn admissible<V: Scalar>(change: Change<V>) -> bool {
    change matches Change::Scale(factor) ==> factor.proper()
}

fn change_value<V: Scalar>(change: Change<V>, value: V) -> (result: V)
    ensures
        result == changed(change, value),
{
    match change {
        Change::Keep => value,
        Change::Conjugate => value.conjugate(),
        Change::Scale(factor) => factor.times(value),
    }
}

/// The new value of a cell that is written anew, zero where it counts as zero.
pub open spec fn rewritten<V: Scalar>(change: Change<V>, value: V) -> V {
    if value.tiny() {
        V::zero_value()
    } else {
        V::zero_value().sum(changed(change, value))
    }
}

/// The sum of two cells, the second one scaled, what counts as zero left out.
pub open spec fn combined<V: Scalar>(left: V, right: V, scale: V) -> V {
    let first = if left.tiny() {
        V::zero_value()
    } else {
        V::zero_value().sum(left)
    };
    if right.tiny() {
        first
    } else {
        first.sum(scale.product(right))
    }
}

/// The matrix with rows and columns exchanged.
pub open spec fn is_transpose<V: Scalar>(matrix: &Operator<V>, image: &Operator<V>) -> bool {
    &&& image.wf()
    &&& image.shape == (matrix.shape.1, matrix.shape.0)
    &&& image.format == matrix.format
    &&& forall|row: int, column: int|
        image.inside(row, column) ==> #[trigger] image.entry(row, column) == operator::settled(
            matrix.format,
            rewritten(Change::Keep, matrix.entry(column, row)),
        )
}

/// The matrix with rows and columns exchanged and conjugated.
pub open spec fn is_adjoint<V: Scalar>(matrix: &Operator<V>, image: &Operator<V>) -> bool {
    &&& image.wf()
    &&& image.shape == (matrix.shape.1, matrix.shape.0)
    &&& image.format == matrix.format
    &&& forall|row: int, column: int|
        image.inside(row, column) ==> #[trigger] image.entry(row, column) == operator::settled(
            matrix.format,
            rewritten(Change::Conjugate, matrix.entry(column, row)),
        )
}

/// The matrix with every cell conjugated.
pub open spec fn is_conjugate<V: Scalar>(matrix: &Operator<V>, image: &Operator<V>) -> bool {
    &&& image.wf()
    &&& image.shape == matrix.shape
    &&& image.format == matrix.format
    &&& forall|row: int, column: int|
        image.inside(row, column) ==> #[trigger] image.entry(row, column) == operator::settled(
            matrix.format,
            rewritten(Change::Conjugate, matrix.entry(row, column)),
        )
}

/// The matrix times a number.
pub open spec fn is_multiple<V: Scalar>(
    matrix: &Operator<V>,
    coefficient: V,
    image: &Operator<V>,
) -> bool {
    &&& image.wf()
    &&& image.shape == matrix.shape
    &&& image.format == matrix.format
    &&& forall|row: int, column: int|
        image.inside(row, column) ==> #[trigger] image.entry(row, column) == operator::settled(
            matrix.format,
            rewritten(Change::Scale(coefficient), matrix.entry(row, column)),
        )
}

/// The sum of two matrices.
pub open spec fn is_plus<V: Scalar>(
    left: &Operator<V>,
    right: &Operator<V>,
    sum: &Operator<V>,
) -> bool {
    sum.wf() && composition::is_sum(left, right, V::one_value(), sum)
}

/// The difference of two matrices.
pub open spec fn is_minus<V: Scalar>(
    left: &Operator<V>,
    right: &Operator<V>,
    difference: &Operator<V>,
) -> bool {
    difference.wf() && composition::is_sum(left, right, V::minus_one_value(), difference)
}

/// The place of an entry, mirrored at the diagonal or not.
pub open spec fn moved<V: Scalar>(entry: Triplet<V>, transposed: bool, change: Change<V>) -> Triplet<V> {
    if transposed {
        Triplet { row: entry.column, column: entry.row, value: changed(change, entry.value) }
    } else {
        Triplet { row: entry.row, column: entry.column, value: changed(change, entry.value) }
    }
}

pub proof fn lemma_moved_values<V: Scalar>(
    list: Seq<Triplet<V>>,
    image: Seq<Triplet<V>>,
    transposed: bool,
    change: Change<V>,
    row: int,
    column: int,
)
    requires
        image.len() == list.len(),
        forall|i: int|
            0 <= i < list.len() ==> #[trigger] image[i] == moved(list[i], transposed, change),
    ensures
        triplets::values_at(
            image,
            if transposed { column } else { row },
            if transposed { row } else { column },
        ) == triplets::values_at(list, row, column).map_values(|v: V| changed(change, v)),
    decreases list.len(),
{
    let r = if transposed { column } else { row };
    let c = if transposed { row } else { column };
    if list.len() == 0 {
        assert(triplets::values_at(image, r, c) =~= triplets::values_at(
            list,
            row,
            column,
        ).map_values(|v: V| changed(change, v)));
    } else {
        let short = list.drop_last();
        let short_image = image.drop_last();
        assert forall|i: int| 0 <= i < short.len() implies #[trigger] short_image[i] == moved(
            short[i],
            transposed,
            change,
        ) by {
            assert(short_image[i] == image[i]);
        }
        lemma_moved_values(short, short_image, transposed, change, row, column);
        assert(image.last() == image[image.len() - 1]);
        assert(triplets::values_at(image, r, c) =~= triplets::values_at(
            list,
            row,
            column,
        ).map_values(|v: V| changed(change, v)));
    }
}

/// The values that a spelled list holds for a place.
pub proof fn lemma_spelled_values<V: Scalar>(
    matrix: &Operator<V>,
    list: Seq<Triplet<V>>,
    row: int,
    column: int,
)
    requires
        matrix.spelled(list),
        matrix.inside(row, column),
    ensures
        triplets::values_at(list, row, column) == (if matrix.entry(row, column).tiny() {
            Seq::<V>::empty()
        } else {
            seq![matrix.entry(row, column)]
        }),
{
    if exists|i: int| 0 <= i < list.len() && triplets::stands_at(#[trigger] list[i], row, column) {
        let i = choose|i: int|
            0 <= i < list.len() && triplets::stands_at(#[trigger] list[i], row, column);
        triplets::lemma_unique_value(list, false, i);
        assert(!list[i].value.tiny());
    } else {
        triplets::lemma_no_values(list, row, column);
    }
}

pub proof fn lemma_sum_one<V: Scalar>(value: V)
    ensures
        triplets::summed(seq![value]) == V::zero_value().sum(value),
{
    reveal_with_fuel(triplets::summed, 2);
    assert(seq![value].drop_last() =~= Seq::<V>::empty());
}

proof fn lemma_sum_two<V: Scalar>(first: V, second: V)
    ensures
        triplets::summed(seq![first, second]) == V::zero_value().sum(first).sum(second),
{
    lemma_sum_one(first);
    assert(seq![first, second].drop_last() =~= seq![first]);
}

/// Appends the changed entries of a list.
pub(crate) fn append_moved<V: Scalar>(
    list: &Vec<Triplet<V>>,
    transposed: bool,
    change: Change<V>,
    output: &mut Vec<Triplet<V>>,
)
    ensures
        final(output)@.len() == old(output)@.len() + list@.len(),
        final(output)@.subrange(0, old(output)@.len() as int) == old(output)@,
        forall|i: int|
            0 <= i < list@.len() ==> #[trigger] final(output)@[old(output)@.len() + i] == moved(
                list@[i],
                transposed,
                change,
            ),
{
    let ghost start = output@;
    let mut index: usize = 0;
    assert(output@.subrange(0, start.len() as int) =~= start);
    while index < list.len()
        invariant
            index <= list@.len(),
            output@.len() == start.len() + index,
            output@.subrange(0, start.len() as int) == start,
            forall|i: int|
                0 <= i < index ==> #[trigger] output@[start.len() + i] == moved(
                    list@[i],
                    transposed,
                    change,
                ),
        decreases list@.len() - index,
    {
        let ghost before = output@;
        let entry: Triplet<V> = list[index];
        let value: V = change_value(change, entry.value);
        if transposed {
            output.push(Triplet { row: entry.column, column: entry.row, value });
        } else {
            output.push(Triplet { row: entry.row, column: entry.column, value });
        }
        proof {
            assert(output@.subrange(0, start.len() as int) =~= before.subrange(
                0,
                start.len() as int,
            ));
            assert forall|i: int| 0 <= i < index + 1 implies #[trigger] output@[start.len() + i]
                == moved(list@[i], transposed, change) by {
                if i < index {
                    assert(output@[start.len() + i] == before[start.len() + i]);
                }
            }
        }
        index = index + 1;
    }
}

/// The value counts as zero or is finite.
pub open spec fn passes<V: Scalar>(value: V) -> bool {
    value.tiny() || value.proper()
}

fn all_finite<V: Scalar>(list: &Vec<Triplet<V>>) -> (all: bool)
    ensures
        all == (forall|i: int| 0 <= i < list@.len() ==> passes((#[trigger] list@[i]).value)),
{
    let mut index: usize = 0;
    while index < list.len()
        invariant
            index <= list@.len(),
            forall|i: int| 0 <= i < index ==> passes((#[trigger] list@[i]).value),
        decreases list@.len() - index,
    {
        let value: V = list[index].value;
        if !value.is_negligible() && !value.is_finite() {
            assert(!passes(list@[index as int].value));
            return false;
        }
        index = index + 1;
    }
    true
}

impl<V: Scalar> Operator<V> {
    /// All values that do not count as zero stay finite under a change.
    pub open spec fn stays_finite(&self, change: Change<V>) -> bool {
        forall|row: int, column: int|
            self.inside(row, column) && !(#[trigger] self.entry(row, column)).tiny() ==> changed(
                change,
                self.entry(row, column),
            ).proper()
    }

    /// Writes the matrix anew, mirrored at the diagonal or not.
    fn rewrite(&self, transposed: bool, change: Change<V>, format: MatrixFormat) -> (result: Result<
        Self,
    >)
        requires
            self.wf(),
            operator::storable(
                if transposed { self.shape.1 } else { self.shape.0 },
                if transposed { self.shape.0 } else { self.shape.1 },
                format,
            ),
        ensures
            match result {
                Ok(image) => {
                    &&& self.stays_finite(change)
                    &&& image.wf()
                    &&& image.shape == (
                        if transposed { self.shape.1 } else { self.shape.0 },
                        if transposed { self.shape.0 } else { self.shape.1 },
                    )
                    &&& image.format == format
                    &&& forall|row: int, column: int|
                        image.inside(row, column) ==> #[trigger] image.entry(row, column)
                            == operator::settled(
                            format,
                            rewritten(
                                change,
                                self.entry(
                                    if transposed { column } else { row },
                                    if transposed { row } else { column },
                                ),
                            ),
                        )
                },
                Err(error) => error is InvalidCoupling && !self.stays_finite(change),
            },
    {
        let rows: usize = if transposed {
            self.shape.1
        } else {
            self.shape.0
        };
        let columns: usize = if transposed {
            self.shape.0
        } else {
            self.shape.1
        };
        let list: Vec<Triplet<V>> = self.triplets();
        let mut image: Vec<Triplet<V>> = Vec::new();
        append_moved(&list, transposed, change, &mut image);
        proof {
            assert forall|i: int| 0 <= i < list@.len() implies #[trigger] image@[i] == moved(
                list@[i],
                transposed,
                change,
            ) by {
                assert(image@[0 + i] == moved(list@[i], transposed, change));
            }
            if operator::acceptable(image@, rows as int, columns as int) {
                assert forall|row: int, column: int|
                    self.inside(row, column) && !(#[trigger] self.entry(
                        row,
                        column,
                    )).tiny() implies changed(change, self.entry(row, column)).proper() by {
                    let i = choose|i: int|
                        0 <= i < list@.len() && triplets::stands_at(
                            #[trigger] list@[i],
                            row,
                            column,
                        );
                    assert(image@[i].value.proper());
                }
            } else {
                let i = choose|i: int|
                    0 <= i < image@.len() && !((#[trigger] image@[i]).row < rows
                        && image@[i].column < columns && image@[i].value.proper());
                assert(list@[i].row < self.shape.0);
                assert(self.inside(list@[i].row as int, list@[i].column as int));
                assert(!changed(
                    change,
                    self.entry(list@[i].row as int, list@[i].column as int),
                ).proper());
            }
        }
        let result: Result<Operator<V>> = Self::from_triplets(
            rows,
            columns,
            image.as_slice(),
            format,
        );
        proof {
            if let Ok(matrix) = &result {
                assert forall|row: int, column: int| matrix.inside(row, column) implies #[trigger]
                    matrix.entry(row, column) == operator::settled(
                    format,
                    rewritten(
                        change,
                        self.entry(
                            if transposed { column } else { row },
                            if transposed { row } else { column },
                        ),
                    ),
                ) by {
                    let r = if transposed { column } else { row };
                    let c = if transposed { row } else { column };
                    lemma_moved_values(list@, image@, transposed, change, r, c);
                    lemma_spelled_values(self, list@, r, c);
                    let value = self.entry(r, c);
                    let found = triplets::values_at(image@, row, column);
                    if value.tiny() {
                        assert(found =~= Seq::<V>::empty());
                    } else {
                        assert(found =~= seq![changed(change, value)]);
                        lemma_sum_one(changed(change, value));
                    }
                }
            }
        }
        result
    }

    /// A copy of the matrix.
    pub fn duplicate(&self) -> (copy: Self)
        requires
            self.wf(),
        ensures
            copy.wf(),
            copy.shape == self.shape,
            copy.format == self.format,
            forall|row: int, column: int|
                self.inside(row, column) ==> #[trigger] copy.entry(row, column) == self.entry(
                    row,
                    column,
                ),
    {
        if let Storage::Dense(values) = &self.storage {
            let same: Vec<V> = crate::inspection::copy_values(values.as_slice());
            let copy = Operator {
                shape: self.shape,
                format: self.format,
                storage: Storage::Dense(same),
                real_valued: self.real_valued,
            };
            proof {
                assert forall|row: int, column: int| self.inside(row, column) implies #[trigger]
                    copy.entry(row, column) == self.entry(row, column) by {}
                if self.real_valued {
                    assert forall|row: int, column: int| copy.inside(row, column) implies (
                    #[trigger] copy.entry(row, column)).imaginary_free() by {
                        assert(self.entry(row, column).imaginary_free());
                    }
                } else {
                    let (row, column) = choose|row: int, column: int|
                        self.inside(row, column) && !(#[trigger] self.entry(
                            row,
                            column,
                        )).imaginary_free();
                    assert(!copy.entry(row, column).imaginary_free());
                }
            }
            return copy;
        }
        let list: Vec<Triplet<V>> = self.stored_entries();
        proof {
            assert(operator::storable(self.shape.0, self.shape.1, self.format)) by {
                match &self.storage {
                    Storage::Csc(filed) => {
                        assert(filed.offsets@.len() == self.columns() + 1);
                        assert(filed.offsets.len() <= usize::MAX);
                    },
                    Storage::Csr(filed) => {
                        assert(filed.offsets@.len() == self.rows() + 1);
                        assert(filed.offsets.len() <= usize::MAX);
                    },
                    _ => {},
                }
            }
        }
        let copy: Operator<V> = operator::store_list(self.shape.0, self.shape.1, list, self.format);
        proof {
            assert forall|row: int, column: int| self.inside(row, column) implies #[trigger]
                copy.entry(row, column) == self.entry(row, column) by {
                assert(copy.inside(row, column));
                operator::lemma_spelled_cell(self, list@, row, column);
            }
        }
        copy
    }

    /// The matrix in another format, every value kept.
    pub fn converted(&self, format: MatrixFormat) -> (result: Result<Self>)
        requires
            self.wf(),
            operator::storable(self.shape.0, self.shape.1, format),
        ensures
            match result {
                Ok(image) => {
                    &&& format == self.format || self.stays_finite(Change::Keep)
                    &&& image.wf()
                    &&& image.shape == self.shape
                    &&& image.format == format
                    &&& forall|row: int, column: int|
                        image.inside(row, column) ==> #[trigger] image.entry(row, column)
                            == self.entry(row, column)
                },
                Err(error) => error is InvalidCoupling && format != self.format
                    && !self.stays_finite(Change::Keep),
            },
    {
        if format == self.format {
            return Ok(self.duplicate());
        }
        let list: Vec<Triplet<V>> = self.stored_entries();
        if !all_finite(&list) {
            proof {
                let i = choose|i: int| 0 <= i < list@.len() && !passes((#[trigger] list@[i]).value);
                assert(self.inside(list@[i].row as int, list@[i].column as int));
                assert(!passes(self.entry(list@[i].row as int, list@[i].column as int)));
            }
            return Err(
                QmbedError::InvalidCoupling(
                    "triplet index is out of bounds or its value is non-finite".to_string(),
                ),
            );
        }
        proof {
            assert forall|row: int, column: int|
                self.inside(row, column) && !(#[trigger] self.entry(
                    row,
                    column,
                )).tiny() implies changed(Change::Keep, self.entry(row, column)).proper() by {
                V::lemma_zero();
                assert(!scalar::blank(true, self.entry(row, column)));
                let i = choose|i: int|
                    0 <= i < list@.len() && triplets::stands_at(#[trigger] list@[i], row, column);
                assert(passes(list@[i].value));
            }
        }
        let image: Operator<V> = operator::store_list(self.shape.0, self.shape.1, list, format);
        proof {
            assert forall|row: int, column: int| image.inside(row, column) implies #[trigger]
                image.entry(row, column) == self.entry(row, column) by {
                operator::lemma_spelled_cell(self, list@, row, column);
            }
        }
        Ok(image)
    }

    /// The matrix with every value conjugated.
    pub fn conjugated(&self) -> (result: Result<Self>)
        requires
            self.wf(),
            operator::storable(self.shape.0, self.shape.1, self.format),
        ensures
            match result {
                Ok(image) => {
                    &&& self.stays_finite(Change::Conjugate)
                    &&& is_conjugate(self, &image)
                },
                Err(error) => error is InvalidCoupling && !self.stays_finite(Change::Conjugate),
            },
    {
        self.rewrite(false, Change::Conjugate, self.format)
    }

    /// The matrix mirrored at the diagonal.
    pub fn transpose(&self) -> (result: Result<Self>)
        requires
            self.wf(),
            operator::storable(self.shape.1, self.shape.0, self.format),
        ensures
            match result {
                Ok(image) => {
                    &&& self.stays_finite(Change::Keep)
                    &&& is_transpose(self, &image)
                },
                Err(error) => error is InvalidCoupling && !self.stays_finite(Change::Keep),
            },
    {
        self.rewrite(true, Change::Keep, self.format)
    }

    /// The conjugate of the matrix, mirrored at the diagonal.
    pub fn adjoint(&self) -> (result: Result<Self>)
        requires
            self.wf(),
            operator::storable(self.shape.1, self.shape.0, self.format),
        ensures
            match result {
                Ok(image) => {
                    &&& self.stays_finite(Change::Conjugate)
                    &&& is_adjoint(self, &image)
                },
                Err(error) => error is InvalidCoupling && !self.stays_finite(Change::Conjugate),
            },
    {
        self.rewrite(true, Change::Conjugate, self.format)
    }

    /// The matrix with every value multiplied from the left by a number.
    pub fn scaled(&self, coefficient: V) -> (result: Result<Self>)
        requires
            self.wf(),
            operator::storable(self.shape.0, self.shape.1, self.format),
        ensures
            match result {
                Ok(image) => {
                    &&& coefficient.proper()
                    &&& self.stays_finite(Change::Scale(coefficient))
                    &&& is_multiple(self, coefficient, &image)
                },
                Err(QmbedError::InvalidOptions(_)) => !coefficient.proper(),
                Err(QmbedError::InvalidCoupling(_)) => coefficient.proper() && !self.stays_finite(
                    Change::Scale(coefficient),
                ),
                Err(_) => false,
            },
    {
        if !coefficient.is_finite() {
            return Err(QmbedError::InvalidOptions("operator scale must be finite".to_string()));
        }
        self.rewrite(false, Change::Scale(coefficient), self.format)
    }

    /// The values of both summands stay finite.
    pub open spec fn sums_finitely(&self, right: &Self, scale: V) -> bool {
        self.stays_finite(Change::Keep) && right.stays_finite(Change::Scale(scale))
    }

    /// The sum with a scaled matrix of the same shape, in the format of the first.
    pub fn combine(&self, right: &Self, right_scale: V) -> (result: Result<Self>)
        requires
            self.wf(),
            right.wf(),
            operator::storable(self.shape.0, self.shape.1, self.format),
        ensures
            match result {
                Ok(sum) => {
                    &&& self.shape == right.shape
                    &&& self.sums_finitely(right, right_scale)
                    &&& sum.wf()
                    &&& sum.shape == self.shape
                    &&& sum.format == self.format
                    &&& forall|row: int, column: int|
                        sum.inside(row, column) ==> #[trigger] sum.entry(row, column)
                            == operator::settled(
                            self.format,
                            combined(
                                self.entry(row, column),
                                right.entry(row, column),
                                right_scale,
                            ),
                        )
                },
                Err(QmbedError::DimensionMismatch(_)) => self.shape != right.shape,
                Err(QmbedError::InvalidCoupling(_)) => self.shape == right.shape
                    && !self.sums_finitely(right, right_scale),
                Err(_) => false,
            },
    {
        if self.shape.0 != right.shape.0 || self.shape.1 != right.shape.1 {
            return Err(
                QmbedError::DimensionMismatch(
                    "operator addition requires equal shapes".to_string(),
                ),
            );
        }
        let first: Vec<Triplet<V>> = self.triplets();
        let second: Vec<Triplet<V>> = right.triplets();
        let mut list: Vec<Triplet<V>> = Vec::new();
        append_moved(&first, false, Change::Keep, &mut list);
        let ghost head = list@;
        append_moved(&second, false, Change::Scale(right_scale), &mut list);
        let ghost tail = list@.subrange(head.len() as int, list@.len() as int);
        proof {
            assert(list@ =~= head + tail) by {
                assert(list@.subrange(0, head.len() as int) == head);
            }
            assert forall|i: int| 0 <= i < first@.len() implies #[trigger] head[i] == moved(
                first@[i],
                false,
                Change::Keep,
            ) by {
                assert(head[0 + i] == moved(first@[i], false, Change::Keep));
            }
            assert forall|i: int| 0 <= i < second@.len() implies #[trigger] tail[i] == moved(
                second@[i],
                false,
                Change::Scale(right_scale),
            ) by {
                assert(list@[head.len() + i] == moved(
                    second@[i],
                    false,
                    Change::Scale(right_scale),
                ));
            }
            if operator::acceptable(list@, self.rows(), self.columns()) {
                assert forall|row: int, column: int|
                    self.inside(row, column) && !(#[trigger] self.entry(
                        row,
                        column,
                    )).tiny() implies changed(
                    Change::Keep,
                    self.entry(row, column),
                ).proper() by {
                    let i = choose|i: int|
                        0 <= i < first@.len() && triplets::stands_at(
                            #[trigger] first@[i],
                            row,
                            column,
                        );
                    assert(list@[i] == head[i]);
                    assert(list@[i].value.proper());
                }
                assert forall|row: int, column: int|
                    right.inside(row, column) && !(#[trigger] right.entry(
                        row,
                        column,
                    )).tiny() implies changed(
                    Change::Scale(right_scale),
                    right.entry(row, column),
                ).proper() by {
                    let i = choose|i: int|
                        0 <= i < second@.len() && triplets::stands_at(
                            #[trigger] second@[i],
                            row,
                            column,
                        );
                    assert(list@[head.len() + i] == tail[i]);
                    assert(list@[head.len() + i].value.proper());
                }
            } else {
                let i = choose|i: int|
                    0 <= i < list@.len() && !((#[trigger] list@[i]).row < self.shape.0
                        && list@[i].column < self.shape.1 && list@[i].value.proper());
                if i < head.len() {
                    assert(list@[i] == head[i]);
                    assert(self.inside(first@[i].row as int, first@[i].column as int));
                    assert(!changed(
                        Change::Keep,
                        self.entry(first@[i].row as int, first@[i].column as int),
                    ).proper());
                } else {
                    let k = i - head.len();
                    assert(list@[i] == tail[k]);
                    assert(right.inside(second@[k].row as int, second@[k].column as int));
                    assert(!changed(
                        Change::Scale(right_scale),
                        right.entry(second@[k].row as int, second@[k].column as int),
                    ).proper());
                }
            }
        }
        let result: Result<Operator<V>> = Self::from_triplets(
            self.shape.0,
            self.shape.1,
            list.as_slice(),
            self.format,
        );
        proof {
            if let Ok(sum) = &result {
                assert forall|row: int, column: int| sum.inside(row, column) implies #[trigger]
                    sum.entry(row, column) == operator::settled(
                    self.format,
                    combined(self.entry(row, column), right.entry(row, column), right_scale),
                ) by {
                    lemma_moved_values(first@, head, false, Change::Keep, row, column);
                    lemma_moved_values(
                        second@,
                        tail,
                        false,
                        Change::Scale(right_scale),
                        row,
                        column,
                    );
                    lemma_spelled_values(self, first@, row, column);
                    lemma_spelled_values(right, second@, row, column);
                    triplets::lemma_values_concat(head, tail, row, column);
                    let a = self.entry(row, column);
                    let b = right_scale.product(right.entry(row, column));
                    let found = triplets::values_at(list@, row, column);
                    if self.entry(row, column).tiny() {
                        if right.entry(row, column).tiny() {
                            assert(found =~= Seq::<V>::empty());
                        } else {
                            assert(found =~= seq![b]);
                            lemma_sum_one(b);
                        }
                    } else if right.entry(row, column).tiny() {
                        assert(found =~= seq![a]);
                        lemma_sum_one(a);
                    } else {
                        assert(found =~= seq![a, b]);
                        lemma_sum_two(a, b);
                    }
                }
            }
        }
        result
    }

    /// The sum of two matrices.
    pub fn add(&self, right: &Self) -> (result: Result<Self>)
        requires
            self.wf(),
            right.wf(),
            operator::storable(self.shape.0, self.shape.1, self.format),
        ensures
            match result {
                Ok(sum) => {
                    &&& self.shape == right.shape
                    &&& self.sums_finitely(right, V::one_value())
                    &&& is_plus(self, right, &sum)
                },
                Err(QmbedError::DimensionMismatch(_)) => self.shape != right.shape,
                Err(QmbedError::InvalidCoupling(_)) => self.shape == right.shape
                    && !self.sums_finitely(right, V::one_value()),
                Err(_) => false,
            },
    {
        self.combine(right, V::one())
    }

    /// The difference of two matrices.
    pub fn subtract(&self, right: &Self) -> (result: Result<Self>)
        requires
            self.wf(),
            right.wf(),
            operator::storable(self.shape.0, self.shape.1, self.format),
        ensures
            match result {
                Ok(sum) => {
                    &&& self.shape == right.shape
                    &&& self.sums_finitely(right, V::minus_one_value())
                    &&& is_minus(self, right, &sum)
                },
                Err(QmbedError::DimensionMismatch(_)) => self.shape != right.shape,
                Err(QmbedError::InvalidCoupling(_)) => self.shape == right.shape
                    && !self.sums_finitely(right, V::minus_one_value()),
                Err(_) => false,
            },
    {
        self.combine(right, V::minus_one())
    }
}

} // verus!
