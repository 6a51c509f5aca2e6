//! Matrices as mathematical objects, and chains of matrix operations.

use vstd::prelude::*;
use crate::algebra::Change;
use crate::algebra;
use crate::error::{QmbedError, Result};
use crate::folds;
use crate::operator::{MatrixFormat, Operator};
use crate::operator;
use crate::product;
use crate::scalar::Scalar;
use crate::triplets::Triplet;
use crate::triplets;

verus! {

/// A matrix by its shape and cells, zero outside the shape.
#[verifier::ext_equal]
pub ghost struct Matrix<V> {
    pub format: MatrixFormat,
    pub rows: int,
    pub columns: int,
    pub cells: spec_fn(int, int) -> V,
}

impl<V: Scalar> Matrix<V> {
    pub open spec fn inside(self, row: int, column: int) -> bool {
        0 <= row < self.rows && 0 <= column < self.columns
    }

    /// The cells within the shape taken from a function.
    pub open spec fn of(
        format: MatrixFormat,
        rows: int,
        columns: int,
        cells: spec_fn(int, int) -> V,
    ) -> Self {
        Matrix {
            format,
            rows,
            columns,
            cells: |row: int, column: int|
                if 0 <= row < rows && 0 <= column < columns {
                    cells(row, column)
                } else {
                    V::zero_value()
                },
        }
    }

    /// The matrix written anew, mirrored at the diagonal or not.
    pub open spec fn rewritten(self, transposed: bool, change: Change<V>) -> Self {
        Matrix::of(
            self.format,
            if transposed { self.columns } else { self.rows },
            if transposed { self.rows } else { self.columns },
            |row: int, column: int|
                operator::settled(
                    self.format,
                    algebra::rewritten(
                        change,
                        (self.cells)(
                            if transposed { column } else { row },
                            if transposed { row } else { column },
                        ),
                    ),
                ),
        )
    }

    pub open spec fn stays_finite(self, change: Change<V>) -> bool {
        forall|row: int, column: int|
            self.inside(row, column) && !(#[trigger] (self.cells)(row, column)).tiny()
                ==> algebra::changed(change, (self.cells)(row, column)).proper()
    }

    pub open spec fn meets(self, right: Self, row: int, column: int) -> bool {
        exists|middle: int|
            0 <= middle < self.columns && !(#[trigger] (self.cells)(row, middle)).tiny()
                && !(right.cells)(middle, column).tiny()
    }

    pub open spec fn cell_product(self, right: Self, row: int, column: int) -> V {
        folds::ascending_fold(
            false,
            |middle: int| (self.cells)(row, middle),
            |middle: int, value: V|
                if (right.cells)(middle, column).tiny() {
                    None
                } else {
                    Some(value.product((right.cells)(middle, column)))
                },
            self.columns as nat,
        )
    }

    /// The matrix product, in the format of the left factor.
    pub open spec fn times(self, right: Self) -> Self {
        Matrix::of(
            self.format,
            self.rows,
            right.columns,
            |row: int, column: int|
                operator::settled(
                    self.format,
                    if self.meets(right, row, column) {
                        V::zero_value().sum(self.cell_product(right, row, column))
                    } else {
                        V::zero_value()
                    },
                ),
        )
    }

    pub open spec fn multiplies_finitely(self, right: Self) -> bool {
        forall|row: int, column: int|
            0 <= row < self.rows && 0 <= column < right.columns && #[trigger] self.meets(
                right,
                row,
                column,
            ) ==> self.cell_product(right, row, column).proper()
    }

    /// The sum with a scaled matrix.
    pub open spec fn plus_scaled(self, right: Self, scale: V) -> Self {
        Matrix::of(
            self.format,
            self.rows,
            self.columns,
            |row: int, column: int|
                operator::settled(
                    self.format,
                    algebra::combined((self.cells)(row, column), (right.cells)(row, column), scale),
                ),
        )
    }

    /// The matrix with ones on the diagonal.
    pub open spec fn identity(format: MatrixFormat, dimension: int) -> Self {
        Matrix::of(
            format,
            dimension,
            dimension,
            |row: int, column: int|
                operator::settled(
                    format,
                    if row == column {
                        V::zero_value().sum(V::one_value())
                    } else {
                        V::zero_value()
                    },
                ),
        )
    }

    /// The product of a matrix with a power of another, by repeated squaring; nothing
    /// where a number on the way is not finite.
    pub open spec fn raised(self, base: Self, exponent: nat) -> Option<Self>
        decreases exponent,
    {
        if exponent == 0 {
            Some(self)
        } else if exponent % 2 == 1 && !self.multiplies_finitely(base) {
            None
        } else {
            let next = if exponent % 2 == 1 {
                self.times(base)
            } else {
                self
            };
            if exponent / 2 == 0 {
                Some(next)
            } else if !base.multiplies_finitely(base) {
                None
            } else {
                next.raised(base.times(base), exponent / 2)
            }
        }
    }

    /// Every cell is within a tolerance of the identity's.
    pub open spec fn near_identity(self, tolerance: V::Tolerance) -> bool {
        forall|row: int, column: int|
            self.inside(row, column) ==> (#[trigger] (self.cells)(row, column)).near(
                if row == column {
                    V::one_value()
                } else {
                    V::zero_value()
                },
                tolerance,
            )
    }
}

impl<V: Scalar> Operator<V> {
    /// The matrix as a mathematical object.
    pub open spec fn matrix(&self) -> Matrix<V> {
        Matrix::of(
            self.format,
            self.rows(),
            self.columns(),
            |row: int, column: int| self.entry(row, column),
        )
    }
}

proof fn lemma_same_folds<V: Scalar>(
    cell: spec_fn(int) -> V,
    other: spec_fn(int) -> V,
    term: folds::Term<V>,
    other_term: folds::Term<V>,
    upto: nat,
)
    requires
        forall|at: int| 0 <= at < upto ==> #[trigger] cell(at) == other(at),
        forall|at: int, value: V|
            0 <= at < upto ==> #[trigger] term(at, value) == other_term(at, value),
    ensures
        folds::ascending_fold(false, cell, term, upto) == folds::ascending_fold(false, other, other_term, upto),
    decreases upto,
{
    if upto > 0 {
        lemma_same_folds(cell, other, term, other_term, (upto - 1) as nat);
        assert(cell(upto - 1) == other(upto - 1));
        assert(term(upto - 1, cell(upto - 1)) == other_term(upto - 1, cell(upto - 1)));
    }
}

/// Products of operators are products of their matrices.
pub proof fn lemma_product_cells<V: Scalar>(left: &Operator<V>, right: &Operator<V>, row: int, column: int)
    requires
        left.shape.1 == right.shape.0,
        0 <= row < left.rows(),
        0 <= column < right.columns(),
    ensures
        left.matrix().meets(right.matrix(), row, column) == product::meets(
            left,
            right,
            row,
            column,
        ),
        left.matrix().cell_product(right.matrix(), row, column) == product::cell_product(
            left,
            right,
            row,
            column,
        ),
{
    let a = left.matrix();
    let b = right.matrix();
    if a.meets(b, row, column) {
        let middle = choose|middle: int|
            0 <= middle < a.columns && !(#[trigger] (a.cells)(row, middle)).tiny()
                && !(b.cells)(middle, column).tiny();
        assert(!left.entry(row, middle).tiny());
    }
    if product::meets(left, right, row, column) {
        let middle = choose|middle: int|
            0 <= middle < left.columns() && !(#[trigger] left.entry(row, middle)).tiny()
                && !right.entry(middle, column).tiny();
        assert(!(a.cells)(row, middle).tiny());
    }
    lemma_same_folds(
        |middle: int| (a.cells)(row, middle),
        |middle: int| left.entry(row, middle),
        |middle: int, value: V|
            if (b.cells)(middle, column).tiny() {
                None
            } else {
                Some(value.product((b.cells)(middle, column)))
            },
        product::product_term(right, column),
        left.columns() as nat,
    );
}

pub proof fn lemma_product_matrix<V: Scalar>(
    left: &Operator<V>,
    right: &Operator<V>,
    result: &Operator<V>,
)
    requires
        left.shape.1 == right.shape.0,
        result.shape == (left.shape.0, right.shape.1),
        result.format == left.format,
        forall|row: int, column: int|
            result.inside(row, column) ==> #[trigger] result.entry(row, column)
                == product::product_entry(left, right, row, column),
    ensures
        result.matrix() == left.matrix().times(right.matrix()),
{
    let a = result.matrix();
    let b = left.matrix().times(right.matrix());
    assert forall|row: int, column: int| #[trigger] (a.cells)(row, column) == (b.cells)(
        row,
        column,
    ) by {
        if result.inside(row, column) {
            lemma_product_cells(left, right, row, column);
            assert(result.entry(row, column) == product::product_entry(left, right, row, column));
        }
    }
    assert(a.cells =~= b.cells);
}

pub proof fn lemma_finite_product<V: Scalar>(left: &Operator<V>, right: &Operator<V>)
    requires
        left.shape.1 == right.shape.0,
    ensures
        left.matrix().multiplies_finitely(right.matrix()) == product::multiplies_finitely(
            left,
            right,
        ),
{
    let a = left.matrix();
    let b = right.matrix();
    if product::multiplies_finitely(left, right) {
        assert forall|row: int, column: int|
            0 <= row < a.rows && 0 <= column < b.columns && #[trigger] a.meets(
                b,
                row,
                column,
            ) implies a.cell_product(b, row, column).proper() by {
            lemma_product_cells(left, right, row, column);
            assert(product::meets(left, right, row, column));
        }
    } else {
        let (row, column) = choose|row: int, column: int|
            0 <= row < left.rows() && 0 <= column < right.columns() && #[trigger] product::meets(
                left,
                right,
                row,
                column,
            ) && !product::cell_product(left, right, row, column).proper();
        lemma_product_cells(left, right, row, column);
        assert(a.meets(b, row, column));
    }
}

impl<V: Scalar> Operator<V> {
    /// Machine limits on products of the matrix with matrices of the same shape.
    pub open spec fn multipliable(&self) -> bool {
        self.shape.0 < usize::MAX && operator::storable(self.shape.0, self.shape.0, self.format)
    }

    /// A power of a square matrix.
    pub fn pow(&self, exponent: u32) -> (result: Result<Self>)
        requires
            self.wf(),
            self.multipliable(),
        ensures
            match result {
                Ok(power) => {
                    &&& self.shape.0 == 0 || V::one_value().proper()
                    &&& is_power(self, exponent as nat, &power)
                },
                Err(QmbedError::DimensionMismatch(_)) => self.shape.0 != self.shape.1,
                Err(QmbedError::InvalidCoupling(_)) => self.shape.0 == self.shape.1 && (
                Matrix::identity(self.format, self.rows()).raised(self.matrix(), exponent as nat)
                    is None || (self.shape.0 > 0 && !V::one_value().proper())),
                Err(_) => false,
            },
    {
        if self.shape.0 != self.shape.1 {
            return Err(
                QmbedError::DimensionMismatch(
                    "operator powers require a square operator".to_string(),
                ),
            );
        }
        let dimension: usize = self.shape.0;
        let mut power: Operator<V> = match identity(dimension, self.format) {
            Ok(matrix) => matrix,
            Err(error) => {
                return Err(error);
            },
        };
        let mut base: Operator<V> = self.duplicate();
        let mut remaining: u32 = exponent;
        let ghost goal = Matrix::identity(self.format, self.rows()).raised(
            self.matrix(),
            exponent as nat,
        );
        proof {
            assert(base.matrix().cells =~= self.matrix().cells) by {
                assert forall|row: int, column: int| #[trigger]
                    (base.matrix().cells)(row, column) == (self.matrix().cells)(row, column) by {
                    if self.inside(row, column) {
                        assert(base.entry(row, column) == self.entry(row, column));
                    }
                }
            }
        }
        while remaining > 0
            invariant
                dimension < usize::MAX,
                operator::storable(dimension, dimension, self.format),
                self.shape.0 == self.shape.1,
                dimension == self.shape.0,
                dimension == 0 || V::one_value().proper(),
                power.wf(),
                base.wf(),
                power.shape == (dimension, dimension),
                base.shape == (dimension, dimension),
                power.format == self.format,
                base.format == self.format,
                goal == Matrix::identity(self.format, self.rows()).raised(
                    self.matrix(),
                    exponent as nat,
                ),
                power.matrix().raised(base.matrix(), remaining as nat) == goal,
            decreases remaining,
        {
            if remaining % 2 == 1 {
                proof {
                    lemma_finite_product(&power, &base);
                }
                let next: Operator<V> = match power.product(&base) {
                    Ok(matrix) => matrix,
                    Err(error) => {
                        return Err(error);
                    },
                };
                proof {
                    lemma_product_matrix(&power, &base, &next);
                }
                power = next;
            }
            remaining = remaining / 2;
            if remaining > 0 {
                proof {
                    lemma_finite_product(&base, &base);
                }
                let squared: Operator<V> = match base.product(&base) {
                    Ok(matrix) => matrix,
                    Err(error) => {
                        return Err(error);
                    },
                };
                proof {
                    lemma_product_matrix(&base, &base, &squared);
                }
                base = squared;
            }
        }
        Ok(power)
    }

    /// The adjoint of a matrix that is unitary within a tolerance.
    pub fn unitary_adjoint(&self, tolerance: V::Tolerance) -> (result: Result<Self>)
        requires
            self.wf(),
            self.multipliable(),
            self.shape.0 == self.shape.1,
        ensures
            match result {
                Ok(mirrored) => {
                    &&& self.stays_finite(Change::Conjugate)
                    &&& self.matrix().rewritten(true, Change::Conjugate).multiplies_finitely(
                        self.matrix(),
                    )
                    &&& mirrored.wf()
                    &&& mirrored.shape == self.shape
                    &&& mirrored.format == self.format
                    &&& mirrored.matrix() == self.matrix().rewritten(true, Change::Conjugate)
                    &&& mirrored.matrix().times(self.matrix()).near_identity(tolerance)
                },
                Err(QmbedError::InvalidOptions(_)) => !self.matrix().rewritten(
                    true,
                    Change::Conjugate,
                ).times(self.matrix()).near_identity(tolerance),
                Err(QmbedError::InvalidCoupling(_)) => !(self.stays_finite(Change::Conjugate)
                    && self.matrix().rewritten(true, Change::Conjugate).multiplies_finitely(
                    self.matrix(),
                )),
                Err(_) => false,
            },
    {
        let dimension: usize = self.shape.0;
        let mirrored: Operator<V> = match self.adjoint() {
            Ok(matrix) => matrix,
            Err(error) => {
                return Err(error);
            },
        };
        let ghost mirrored_matrix = self.matrix().rewritten(true, Change::Conjugate);
        proof {
            assert forall|row: int, column: int| #[trigger]
                (mirrored.matrix().cells)(row, column) == (mirrored_matrix.cells)(row, column) by {
                if mirrored.inside(row, column) {
                    assert(mirrored.entry(row, column) == operator::settled(
                        self.format,
                        algebra::rewritten(Change::Conjugate, self.entry(column, row)),
                    ));
                }
            }
            assert(mirrored.matrix().cells =~= mirrored_matrix.cells);
            assert(mirrored.matrix() == mirrored_matrix);
            lemma_finite_product(&mirrored, self);
        }
        let closeness: Operator<V> = match mirrored.product(self) {
            Ok(matrix) => matrix,
            Err(error) => {
                return Err(error);
            },
        };
        proof {
            lemma_product_matrix(&mirrored, self, &closeness);
        }
        let mut row: usize = 0;
        while row < dimension
            invariant
                closeness.wf(),
                closeness.shape == (dimension, dimension),
                row <= dimension,
                closeness.matrix() == mirrored_matrix.times(self.matrix()),
                mirrored_matrix == self.matrix().rewritten(true, Change::Conjugate),
                self.shape.0 == self.shape.1,
                forall|r: int, c: int|
                    0 <= r < row && 0 <= c < dimension ==> (#[trigger] closeness.entry(r, c)).near(
                        if r == c {
                            V::one_value()
                        } else {
                            V::zero_value()
                        },
                        tolerance,
                    ),
            decreases dimension - row,
        {
            let mut column: usize = 0;
            while column < dimension
                invariant
                    closeness.wf(),
                    closeness.shape == (dimension, dimension),
                    row < dimension,
                    column <= dimension,
                    closeness.matrix() == mirrored_matrix.times(self.matrix()),
                    mirrored_matrix == self.matrix().rewritten(true, Change::Conjugate),
                    self.shape.0 == self.shape.1,
                    forall|r: int, c: int|
                        0 <= r < row && 0 <= c < dimension ==> (#[trigger] closeness.entry(r, c)).near(
                            if r == c {
                                V::one_value()
                            } else {
                                V::zero_value()
                            },
                            tolerance,
                        ),
                    forall|c: int|
                        0 <= c < column ==> (#[trigger] closeness.entry(row as int, c)).near(
                            if row == c {
                                V::one_value()
                            } else {
                                V::zero_value()
                            },
                            tolerance,
                        ),
                decreases dimension - column,
            {
                let expected: V = if row == column {
                    V::one()
                } else {
                    V::zero()
                };
                if !closeness.value_at(row, column).within(expected, tolerance) {
                    proof {
                        let m = closeness.matrix();
                        assert(m.inside(row as int, column as int));
                        assert((m.cells)(row as int, column as int) == closeness.entry(
                            row as int,
                            column as int,
                        ));
                        assert(!m.near_identity(tolerance));
                    }
                    return Err(
                        QmbedError::InvalidOptions("rotation matrix must be unitary".to_string()),
                    );
                }
                column = column + 1;
            }
            row = row + 1;
        }
        proof {
            let m = closeness.matrix();
            assert forall|r: int, c: int| m.inside(r, c) implies (#[trigger] (m.cells)(r, c)).near(
                if r == c {
                    V::one_value()
                } else {
                    V::zero_value()
                },
                tolerance,
            ) by {
                assert(closeness.entry(r, c) == (m.cells)(r, c));
            }
        }
        Ok(mirrored)
    }

    /// The matrix seen in the basis of the columns of a unitary matrix.
    pub fn rotated(&self, unitary: &Self, tolerance: V::Tolerance) -> (result: Result<Self>)
        requires
            self.wf(),
            unitary.wf(),
            self.multipliable(),
            unitary.multipliable(),
        ensures
            match result {
                Ok(rotated) => {
                    let mirrored = unitary.matrix().rewritten(true, Change::Conjugate);
                    &&& V::usable(tolerance)
                    &&& mirrored.times(unitary.matrix()).near_identity(tolerance)
                    &&& is_rotated(self, unitary, &rotated)
                },
                Err(QmbedError::DimensionMismatch(_)) => self.shape.0 != self.shape.1
                    || unitary.shape != self.shape,
                Err(QmbedError::InvalidOptions(_)) => {
                    let mirrored = unitary.matrix().rewritten(true, Change::Conjugate);
                    &&& self.shape.0 == self.shape.1
                    &&& unitary.shape == self.shape
                    &&& !V::usable(tolerance) || !mirrored.times(
                        unitary.matrix(),
                    ).near_identity(tolerance)
                },
                Err(QmbedError::InvalidCoupling(_)) => {
                    let mirrored = unitary.matrix().rewritten(true, Change::Conjugate);
                    &&& self.shape.0 == self.shape.1
                    &&& unitary.shape == self.shape
                    &&& !(unitary.stays_finite(Change::Conjugate) && mirrored.multiplies_finitely(
                        unitary.matrix(),
                    ) && mirrored.multiplies_finitely(self.matrix()) && mirrored.times(
                        self.matrix(),
                    ).multiplies_finitely(unitary.matrix()))
                },
                Err(_) => false,
            },
    {
        if self.shape.0 != self.shape.1 || unitary.shape.0 != self.shape.0 || unitary.shape.1
            != self.shape.1 {
            return Err(
                QmbedError::DimensionMismatch(
                    "operator rotation requires equal square shapes".to_string(),
                ),
            );
        }
        if !V::is_usable(tolerance) {
            return Err(
                QmbedError::InvalidOptions("unitarity tolerance must be positive".to_string()),
            );
        }
        let mirrored: Operator<V> = match unitary.unitary_adjoint(tolerance) {
            Ok(matrix) => matrix,
            Err(error) => {
                return Err(error);
            },
        };
        proof {
            lemma_finite_product(&mirrored, self);
        }
        let half: Operator<V> = match mirrored.product(self) {
            Ok(matrix) => matrix,
            Err(error) => {
                return Err(error);
            },
        };
        proof {
            lemma_product_matrix(&mirrored, self, &half);
            lemma_finite_product(&half, unitary);
        }
        match half.product(unitary) {
            Ok(matrix) => {
                proof {
                    lemma_product_matrix(&half, unitary, &matrix);
                }
                Ok(matrix)
            },
            Err(error) => Err(error),
        }
    }
}

/// The matrix with ones on the diagonal.
fn identity<V: Scalar>(dimension: usize, format: MatrixFormat) -> (result: Result<Operator<V>>)
    requires
        operator::storable(dimension, dimension, format),
    ensures
        match result {
            Ok(matrix) => {
                &&& dimension == 0 || V::one_value().proper()
                &&& matrix.wf()
                &&& matrix.shape == (dimension, dimension)
                &&& matrix.format == format
                &&& matrix.matrix() == Matrix::<V>::identity(format, dimension as int)
            },
            Err(error) => error is InvalidCoupling && dimension > 0 && !V::one_value().proper(),
        },
{
    let mut list: Vec<Triplet<V>> = Vec::new();
    let mut index: usize = 0;
    while index < dimension
        invariant
            index <= dimension,
            list@.len() == index,
            forall|i: int|
                0 <= i < index ==> #[trigger] list@[i] == (Triplet {
                    row: i as usize,
                    column: i as usize,
                    value: V::one_value(),
                }),
        decreases dimension - index,
    {
        list.push(Triplet { row: index, column: index, value: V::one() });
        index = index + 1;
    }
    proof {
        if dimension > 0 {
            assert(list@[0].value == V::one_value());
        }
        if V::one_value().proper() || dimension == 0 {
            assert(operator::acceptable(list@, dimension as int, dimension as int));
        } else {
            assert(!list@[0].value.proper());
        }
    }
    let result: Result<Operator<V>> = Operator::from_triplets(
        dimension,
        dimension,
        list.as_slice(),
        format,
    );
    proof {
        if let Ok(matrix) = &result {
            let a = matrix.matrix();
            let b = Matrix::<V>::identity(format, dimension as int);
            assert forall|row: int, column: int| #[trigger] (a.cells)(row, column) == (b.cells)(
                row,
                column,
            ) by {
                if matrix.inside(row, column) {
                    if row == column {
                        assert(triplets::strictly_ordered(list@, false));
                        assert(list@[row].row == row);
                        triplets::lemma_unique_value(list@, false, row);
                        algebra::lemma_sum_one(V::one_value());
                    } else {
                        assert forall|i: int| 0 <= i < list@.len() implies !triplets::stands_at(
                            #[trigger] list@[i],
                            row,
                            column,
                        ) by {}
                        triplets::lemma_no_values(list@, row, column);
                    }
                    assert(matrix.entry(row, column) == operator::settled(
                        format,
                        triplets::cell_sum(list@, row, column),
                    ));
                }
            }
            assert(a.cells =~= b.cells);
        }
    }
    result
}

/// Products in both orders, the second one scaled and added to the first.
fn symmetrized<V: Scalar>(left: &Operator<V>, right: &Operator<V>, scale: V) -> (result: Result<
    Operator<V>,
>)
    requires
        left.wf(),
        right.wf(),
        left.shape.0 < usize::MAX,
        right.shape.0 < usize::MAX,
        operator::storable(left.shape.0, right.shape.1, left.format),
        operator::storable(right.shape.0, left.shape.1, right.format),
    ensures
        match result {
            Ok(sum) => {
                &&& sum.wf()
                &&& left.shape == right.shape
                &&& left.shape.0 == left.shape.1
                &&& sum.shape == left.shape
                &&& sum.matrix() == left.matrix().times(right.matrix()).plus_scaled(
                    right.matrix().times(left.matrix()),
                    scale,
                )
            },
            Err(QmbedError::DimensionMismatch(_)) => left.shape != right.shape || left.shape.0
                != left.shape.1,
            Err(QmbedError::InvalidCoupling(_)) => {
                let first = left.matrix().times(right.matrix());
                let second = right.matrix().times(left.matrix());
                !(left.matrix().multiplies_finitely(right.matrix())
                    && right.matrix().multiplies_finitely(left.matrix()) && first.stays_finite(
                    Change::Keep,
                ) && second.stays_finite(Change::Scale(scale)))
            },
            Err(_) => false,
        },
{
    proof {
        if left.shape.1 == right.shape.0 {
            lemma_finite_product(left, right);
        }
        if right.shape.1 == left.shape.0 {
            lemma_finite_product(right, left);
        }
    }
    let first: Operator<V> = match left.product(right) {
        Ok(matrix) => matrix,
        Err(error) => {
            return Err(error);
        },
    };
    let second: Operator<V> = match right.product(left) {
        Ok(matrix) => matrix,
        Err(error) => {
            return Err(error);
        },
    };
    proof {
        lemma_product_matrix(left, right, &first);
        lemma_product_matrix(right, left, &second);
        lemma_stays_finite(&first, Change::Keep);
        lemma_stays_finite(&second, Change::Scale(scale));
    }
    let result: Result<Operator<V>> = first.combine(&second, scale);
    proof {
        if let Ok(sum) = &result {
            let a = sum.matrix();
            let b = first.matrix().plus_scaled(second.matrix(), scale);
            assert forall|row: int, column: int| #[trigger] (a.cells)(row, column) == (b.cells)(
                row,
                column,
            ) by {
                if sum.inside(row, column) {
                    assert(sum.entry(row, column) == operator::settled(
                        first.format,
                        algebra::combined(
                            first.entry(row, column),
                            second.entry(row, column),
                            scale,
                        ),
                    ));
                }
            }
            assert(a.cells =~= b.cells);
        }
    }
    result
}

proof fn lemma_stays_finite<V: Scalar>(matrix: &Operator<V>, change: Change<V>)
    ensures
        matrix.matrix().stays_finite(change) == matrix.stays_finite(change),
{
    let m = matrix.matrix();
    if matrix.stays_finite(change) {
        assert forall|row: int, column: int|
            m.inside(row, column) && !(#[trigger] (m.cells)(row, column)).tiny() implies
            algebra::changed(change, (m.cells)(row, column)).proper() by {
            assert(!matrix.entry(row, column).tiny());
        }
    } else {
        let (row, column) = choose|row: int, column: int|
            matrix.inside(row, column) && !(#[trigger] matrix.entry(row, column)).tiny()
                && !algebra::changed(change, matrix.entry(row, column)).proper();
        assert(!(m.cells)(row, column).tiny());
    }
}

/// The matrix is the difference of the products in both orders.
pub open spec fn is_commutator<V: Scalar>(
    left: &Operator<V>,
    right: &Operator<V>,
    bracket: &Operator<V>,
) -> bool {
    &&& bracket.wf()
    &&& left.shape == right.shape
    &&& left.shape.0 == left.shape.1
    &&& bracket.shape == left.shape
    &&& bracket.matrix() == left.matrix().times(right.matrix()).plus_scaled(
        right.matrix().times(left.matrix()),
        V::minus_one_value(),
    )
}

/// The matrix is the sum of the products in both orders.
pub open spec fn is_anticommutator<V: Scalar>(
    left: &Operator<V>,
    right: &Operator<V>,
    bracket: &Operator<V>,
) -> bool {
    &&& bracket.wf()
    &&& left.shape == right.shape
    &&& left.shape.0 == left.shape.1
    &&& bracket.shape == left.shape
    &&& bracket.matrix() == left.matrix().times(right.matrix()).plus_scaled(
        right.matrix().times(left.matrix()),
        V::one_value(),
    )
}

/// The matrix is a power of another.
pub open spec fn is_power<V: Scalar>(
    matrix: &Operator<V>,
    exponent: nat,
    power: &Operator<V>,
) -> bool {
    &&& matrix.shape.0 == matrix.shape.1
    &&& power.wf()
    &&& Matrix::identity(matrix.format, matrix.rows()).raised(matrix.matrix(), exponent) == Some(
        power.matrix(),
    )
}

/// The matrix is another one seen in the basis of the columns of a unitary matrix.
pub open spec fn is_rotated<V: Scalar>(
    matrix: &Operator<V>,
    unitary: &Operator<V>,
    rotated: &Operator<V>,
) -> bool {
    &&& matrix.shape.0 == matrix.shape.1
    &&& unitary.shape == matrix.shape
    &&& rotated.wf()
    &&& rotated.matrix() == unitary.matrix().rewritten(true, Change::Conjugate).times(
        matrix.matrix(),
    ).times(unitary.matrix())
}

/// `left * right - right * left`.
pub fn commutator<V: Scalar>(left: &Operator<V>, right: &Operator<V>) -> (result: Result<
    Operator<V>,
>)
    requires
        left.wf(),
        right.wf(),
        left.shape.0 < usize::MAX,
        right.shape.0 < usize::MAX,
        operator::storable(left.shape.0, right.shape.1, left.format),
        operator::storable(right.shape.0, left.shape.1, right.format),
    ensures
        match result {
            Ok(sum) => is_commutator(left, right, &sum),
            Err(QmbedError::DimensionMismatch(_)) => left.shape != right.shape || left.shape.0
                != left.shape.1,
            Err(QmbedError::InvalidCoupling(_)) => {
                let first = left.matrix().times(right.matrix());
                let second = right.matrix().times(left.matrix());
                !(left.matrix().multiplies_finitely(right.matrix())
                    && right.matrix().multiplies_finitely(left.matrix()) && first.stays_finite(
                    Change::Keep,
                ) && second.stays_finite(Change::Scale(V::minus_one_value())))
            },
            Err(_) => false,
        },
{
    symmetrized(left, right, V::minus_one())
}

/// `left * right + right * left`.
pub fn anticommutator<V: Scalar>(left: &Operator<V>, right: &Operator<V>) -> (result: Result<
    Operator<V>,
>)
    requires
        left.wf(),
        right.wf(),
        left.shape.0 < usize::MAX,
        right.shape.0 < usize::MAX,
        operator::storable(left.shape.0, right.shape.1, left.format),
        operator::storable(right.shape.0, left.shape.1, right.format),
    ensures
        match result {
            Ok(sum) => is_anticommutator(left, right, &sum),
            Err(QmbedError::DimensionMismatch(_)) => left.shape != right.shape || left.shape.0
                != left.shape.1,
            Err(QmbedError::InvalidCoupling(_)) => {
                let first = left.matrix().times(right.matrix());
                let second = right.matrix().times(left.matrix());
                !(left.matrix().multiplies_finitely(right.matrix())
                    && right.matrix().multiplies_finitely(left.matrix()) && first.stays_finite(
                    Change::Keep,
                ) && second.stays_finite(Change::Scale(V::one_value())))
            },
            Err(_) => false,
        },
{
    symmetrized(left, right, V::one())
}

} // verus!
