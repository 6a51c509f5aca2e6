//! Generators of open dynamics over vectorized density matrices.

use vstd::prelude::*;
use crate::columns;
use crate::error::{QmbedError, Result};
use crate::linear::LinearOperator;
use crate::linear;
use crate::local::LocalFactor;
use crate::operator::MatrixFormat;
use crate::operator;
use crate::scalar::{Amplitude, Scalar};
use crate::triplets::Triplet;

verus! {

/// A value of a square matrix stored row by row.
pub open spec fn cell<V>(values: Seq<V>, size: int, row: int, column: int) -> V {
    values[operator::cell_index(size, row, column)]
}

/// The first terms of a cell of a matrix product.
pub open spec fn product_cell<V: Scalar>(
    left: Seq<V>,
    right: Seq<V>,
    size: int,
    row: int,
    column: int,
    upto: nat,
) -> V
    decreases upto,
{
    if upto == 0 {
        V::zero_value()
    } else {
        product_cell(left, right, size, row, column, (upto - 1) as nat).sum(
            cell(left, size, row, upto - 1).product(cell(right, size, upto - 1, column)),
        )
    }
}

/// A square matrix by its cells.
pub open spec fn filled_with<V>(values: Seq<V>, size: int, cells: spec_fn(int, int) -> V) -> bool {
    &&& values.len() == size * size
    &&& forall|row: int, column: int|
        0 <= row < size && 0 <= column < size ==> #[trigger] cell(values, size, row, column)
            == cells(row, column)
}

pub open spec fn product_cells<V: Scalar>(left: Seq<V>, right: Seq<V>, size: int) -> spec_fn(
    int,
    int,
) -> V {
    |row: int, column: int| product_cell(left, right, size, row, column, size as nat)
}

pub open spec fn adjoint_cells<V: Scalar>(matrix: Seq<V>, size: int) -> spec_fn(int, int) -> V {
    |row: int, column: int| cell(matrix, size, column, row).mirror()
}

pub open spec fn turned_cells<V: Scalar>(matrix: Seq<V>, size: int) -> spec_fn(int, int) -> V {
    |row: int, column: int| cell(matrix, size, column, row)
}

/// How the cells of a matrix are computed from those of others.
#[derive(Clone, Copy)]
enum Recipe {
    Product,
    Adjoint,
    Turned,
}

spec fn recipe_cells<V: Scalar>(
    recipe: Recipe,
    left: Seq<V>,
    right: Seq<V>,
    size: int,
) -> spec_fn(int, int) -> V {
    match recipe {
        Recipe::Product => product_cells(left, right, size),
        Recipe::Adjoint => adjoint_cells(left, size),
        Recipe::Turned => turned_cells(left, size),
    }
}

fn compute_cell<V: Scalar>(
    recipe: Recipe,
    left: &[V],
    right: &[V],
    size: usize,
    row: usize,
    column: usize,
) -> (value: V)
    requires
        left@.len() == size * size,
        right@.len() == size * size,
        row < size,
        column < size,
    ensures
        value == recipe_cells(recipe, left@, right@, size as int)(row as int, column as int),
{
    let length: usize = left.len();
    match recipe {
        Recipe::Product => {
            let mut sum: V = V::zero();
            let mut middle: usize = 0;
            while middle < size
                invariant
                    length == left@.len(),
                    left@.len() == size * size,
                    right@.len() == size * size,
                    row < size,
                    column < size,
                    middle <= size,
                    sum == product_cell(
                        left@,
                        right@,
                        size as int,
                        row as int,
                        column as int,
                        middle as nat,
                    ),
                decreases size - middle,
            {
                proof {
                    operator::lemma_cell_index(
                        size as int,
                        size as int,
                        row as int,
                        middle as int,
                    );
                    operator::lemma_cell_index(
                        size as int,
                        size as int,
                        middle as int,
                        column as int,
                    );
                }
                sum = sum.plus(left[row * size + middle].times(right[middle * size + column]));
                middle = middle + 1;
            }
            sum
        },
        Recipe::Adjoint => {
            proof {
                operator::lemma_cell_index(size as int, size as int, column as int, row as int);
            }
            left[column * size + row].conjugate()
        },
        Recipe::Turned => {
            proof {
                operator::lemma_cell_index(size as int, size as int, column as int, row as int);
            }
            left[column * size + row]
        },
    }
}

fn compute<V: Scalar>(recipe: Recipe, left: &[V], right: &[V], size: usize) -> (values: Vec<V>)
    requires
        left@.len() == size * size,
        right@.len() == size * size,
    ensures
        filled_with(values@, size as int, recipe_cells(recipe, left@, right@, size as int)),
{
    let ghost cells = recipe_cells(recipe, left@, right@, size as int);
    let ghost n = size as int;
    let mut values: Vec<V> = Vec::new();
    let mut row: usize = 0;
    assert(0 * n == 0) by (nonlinear_arith);
    while row < size
        invariant
            n == size,
            left@.len() == size * size,
            right@.len() == size * size,
            cells == recipe_cells(recipe, left@, right@, size as int),
            row <= size,
            values@.len() == row * n,
            forall|r: int, c: int|
                0 <= r < row && 0 <= c < n ==> #[trigger] cell(values@, n, r, c) == cells(r, c),
        decreases size - row,
    {
        let ghost before = values@;
        let mut column: usize = 0;
        while column < size
            invariant
                n == size,
                left@.len() == size * size,
                right@.len() == size * size,
                cells == recipe_cells(recipe, left@, right@, size as int),
                row < size,
                column <= size,
                before.len() == row * n,
                values@.len() == row * n + column,
                forall|i: int| 0 <= i < before.len() ==> #[trigger] values@[i] == before[i],
                forall|c: int|
                    0 <= c < column ==> #[trigger] values@[row * n + c] == cells(row as int, c),
            decreases size - column,
        {
            let value: V = compute_cell(recipe, left, right, size, row, column);
            values.push(value);
            column = column + 1;
        }
        proof {
            assert((row + 1) * n == row * n + n) by (nonlinear_arith);
            assert forall|r: int, c: int| 0 <= r < row + 1 && 0 <= c < n implies #[trigger] cell(
                values@,
                n,
                r,
                c,
            ) == cells(r, c) by {
                if r < row {
                    operator::lemma_cell_index(row as int, n, r, c);
                    assert(cell(before, n, r, c) == cells(r, c));
                } else {
                    assert(values@[row * n + c] == cells(row as int, c));
                }
            }
        }
        row = row + 1;
    }
    values
}

/// A jump operator with its adjoint and the product of both.
struct Jump<V> {
    operator: Vec<V>,
    adjoint: Vec<V>,
    product: Vec<V>,
}

/// The generator of the time evolution of a density matrix, stored column by column.
pub struct LindbladGenerator<V> {
    hamiltonian: Vec<V>,
    jumps: Vec<Jump<V>>,
    dimension: usize,
    area: usize,
}

/// Minus the imaginary unit.
pub open spec fn minus_i<V: Amplitude>() -> V {
    V::of_local(LocalFactor { quarter_turns: 3, numerator: 1, halved: false, radicand: 1 })
}

/// One half.
pub open spec fn one_half<V: Amplitude>() -> V {
    V::of_local(LocalFactor { quarter_turns: 0, numerator: 1, halved: true, radicand: 1 })
}

pub open spec fn minus<V: Scalar>(left: V, right: V) -> V {
    left.sum(right.product(V::minus_one_value()))
}

/// The values of a matrix product.
pub open spec fn dense_product<V: Scalar>(left: Seq<V>, right: Seq<V>, size: int) -> Seq<V> {
    Seq::new(
        (size * size) as nat,
        |i: int| product_cell(left, right, size, i / size, i % size, size as nat),
    )
}

/// The values of the adjoint.
pub open spec fn dense_adjoint<V: Scalar>(matrix: Seq<V>, size: int) -> Seq<V> {
    Seq::new((size * size) as nat, |i: int| cell(matrix, size, i % size, i / size).mirror())
}

/// The values of the matrix with rows and columns exchanged.
pub open spec fn dense_turned<V: Scalar>(matrix: Seq<V>, size: int) -> Seq<V> {
    Seq::new((size * size) as nat, |i: int| cell(matrix, size, i % size, i / size))
}

/// Turning a matrix from row order to column order and back gives it back.
pub proof fn turning_twice<V: Scalar>(matrix: Seq<V>, size: int)
    requires
        size >= 0,
        matrix.len() == size * size,
    ensures
        dense_turned(dense_turned(matrix, size), size) == matrix,
{
    let once = dense_turned(matrix, size);
    assert forall|i: int| 0 <= i < size * size implies dense_turned(once, size)[i] == matrix[i] by {
        if size == 0 {
            assert(size * size == 0);
        }
        operator::lemma_index_cell(size, size, i);
        let row = i / size;
        let column = i % size;
        operator::lemma_cell_index(size, size, column, row);
        let j = operator::cell_index(size, column, row);
        operator::lemma_index_cell(size, size, j);
        vstd::arithmetic::div_mod::lemma_fundamental_div_mod_converse(j, size, column, row);
        assert(j / size == column && j % size == row);
    }
    assert(dense_turned(once, size) =~= matrix);
}

/// What a jump adds to a value of the derivative.
pub open spec fn jump_part<V: Amplitude>(jump: Seq<V>, density: Seq<V>, size: int, at: int) -> V {
    let mirrored = dense_adjoint(jump, size);
    let both = dense_product(mirrored, jump, size);
    let gain = dense_product(dense_product(jump, density, size), mirrored, size);
    let left = dense_product(both, density, size);
    let right = dense_product(density, both, size);
    minus(gain[at], one_half::<V>().product(left[at].sum(right[at])))
}

/// A value of the derivative of the density matrix after the first jumps.
pub open spec fn derivative<V: Amplitude>(
    hamiltonian: Seq<V>,
    jumps: Seq<Seq<V>>,
    density: Seq<V>,
    size: int,
    at: int,
    upto: nat,
) -> V
    decreases upto,
{
    if upto == 0 {
        minus_i::<V>().product(
            minus(
                dense_product(hamiltonian, density, size)[at],
                dense_product(density, hamiltonian, size)[at],
            ),
        )
    } else {
        derivative(hamiltonian, jumps, density, size, at, (upto - 1) as nat).sum(
            jump_part(jumps[upto - 1], density, size, at),
        )
    }
}

/// The derivative of a density matrix, both stored column by column.
pub open spec fn flow<V: Amplitude>(
    hamiltonian: Seq<V>,
    jumps: Seq<Seq<V>>,
    size: int,
    input: Seq<V>,
) -> Seq<V> {
    let density = dense_turned(input, size);
    let whole = Seq::new(
        (size * size) as nat,
        |at: int| derivative(hamiltonian, jumps, density, size, at, jumps.len()),
    );
    dense_turned(whole, size)
}

proof fn lemma_filled<V: Scalar>(values: Seq<V>, size: int, cells: spec_fn(int, int) -> V)
    requires
        size >= 0,
        filled_with(values, size, cells),
    ensures
        values == Seq::new((size * size) as nat, |i: int| cells(i / size, i % size)),
{
    let other = Seq::new((size * size) as nat, |i: int| cells(i / size, i % size));
    assert(size * size >= 0) by (nonlinear_arith);
    assert forall|i: int| 0 <= i < size * size implies values[i] == other[i] by {
        if size == 0 {
            assert(size * size == 0) by (nonlinear_arith)
                requires
                    size == 0,
            ;
        }
        vstd::arithmetic::div_mod::lemma_fundamental_div_mod(i, size);
        vstd::arithmetic::div_mod::lemma_mod_bound(i, size);
        vstd::arithmetic::div_mod::lemma_multiply_divide_lt(i, size, size);
        vstd::arithmetic::div_mod::lemma_div_pos_is_pos(i, size);
        vstd::arithmetic::mul::lemma_mul_is_commutative(size, i / size);
        assert(cell(values, size, i / size, i % size) == cells(i / size, i % size));
    }
    assert(values =~= other);
}

fn multiply<V: Scalar>(left: &[V], right: &[V], size: usize) -> (values: Vec<V>)
    requires
        left@.len() == size * size,
        right@.len() == size * size,
    ensures
        values@ == dense_product(left@, right@, size as int),
{
    let values: Vec<V> = compute(Recipe::Product, left, right, size);
    proof {
        lemma_filled(values@, size as int, product_cells(left@, right@, size as int));
        assert(values@ =~= dense_product(left@, right@, size as int));
    }
    values
}

fn adjoint<V: Scalar>(matrix: &[V], size: usize) -> (values: Vec<V>)
    requires
        matrix@.len() == size * size,
    ensures
        values@ == dense_adjoint(matrix@, size as int),
{
    let values: Vec<V> = compute(Recipe::Adjoint, matrix, matrix, size);
    proof {
        lemma_filled(values@, size as int, adjoint_cells(matrix@, size as int));
        assert(values@ =~= dense_adjoint(matrix@, size as int));
    }
    values
}

/// Exchanges storage by rows and storage by columns.
fn turn<V: Scalar>(matrix: &[V], size: usize) -> (values: Vec<V>)
    requires
        matrix@.len() == size * size,
    ensures
        values@ == dense_turned(matrix@, size as int),
{
    let values: Vec<V> = compute(Recipe::Turned, matrix, matrix, size);
    proof {
        lemma_filled(values@, size as int, turned_cells(matrix@, size as int));
        assert(values@ =~= dense_turned(matrix@, size as int));
    }
    values
}

impl<V: Amplitude> LindbladGenerator<V> {
    pub closed spec fn size(&self) -> usize {
        self.dimension
    }

    pub closed spec fn still(&self) -> Seq<V> {
        self.hamiltonian@
    }

    pub closed spec fn leaps(&self) -> Seq<Seq<V>> {
        Seq::new(self.jumps@.len(), |k: int| self.jumps@[k].operator@)
    }

    pub closed spec fn wf(&self) -> bool {
        let size = self.dimension as int;
        &&& self.area == size * size
        &&& self.hamiltonian@.len() == size * size
        &&& forall|k: int|
            0 <= k < self.jumps@.len() ==> {
                &&& (#[trigger] self.jumps@[k]).operator@.len() == size * size
                &&& self.jumps@[k].adjoint@ == dense_adjoint(self.jumps@[k].operator@, size)
                &&& self.jumps@[k].product@ == dense_product(
                    self.jumps@[k].adjoint@,
                    self.jumps@[k].operator@,
                    size,
                )
            }
    }

    /// The generator of a Hamiltonian and jump operators of the same square shape.
    pub fn new<O: LinearOperator<V>>(hamiltonian: &O, jumps: &[O]) -> (result: Result<Self>)
        requires
            hamiltonian.usable(),
            forall|k: int| 0 <= k < jumps@.len() ==> (#[trigger] jumps@[k]).usable(),
            hamiltonian.extent().0 * hamiltonian.extent().1 <= usize::MAX,
        ensures
            match result {
                Ok(generator) => {
                    &&& generator.wf()
                    &&& hamiltonian.extent() == (generator.size(), generator.size())
                    &&& columns::dense_images(hamiltonian, generator.still())
                    &&& generator.leaps().len() == jumps@.len()
                    &&& forall|k: int|
                        0 <= k < jumps@.len() ==> (#[trigger] jumps@[k]).extent()
                            == hamiltonian.extent() && columns::dense_images(
                            &jumps@[k],
                            generator.leaps()[k],
                        )
                },
                Err(error) => if hamiltonian.extent().0 != hamiltonian.extent().1 || exists|k: int|
                    0 <= k < jumps@.len() && (#[trigger] jumps@[k]).extent()
                        != hamiltonian.extent() {
                    error is DimensionMismatch
                } else {
                    linear::refuses_unit_with(hamiltonian, error) || (
                    !linear::refuses_unit(hamiltonian) && exists|k: int| #[trigger]
                        refuses_jump(jumps@, k, error))
                },
            },
    {
        let (rows, columns): (usize, usize) = hamiltonian.shape();
        if rows != columns {
            return Err(
                QmbedError::DimensionMismatch(
                    "the Lindblad Hamiltonian must be square".to_string(),
                ),
            );
        }
        let mut index: usize = 0;
        while index < jumps.len()
            invariant
                hamiltonian.extent() == (rows, columns),
                index <= jumps@.len(),
                forall|k: int|
                    0 <= k < index ==> (#[trigger] jumps@[k]).extent() == (rows, columns),
            decreases jumps@.len() - index,
        {
            let (height, width): (usize, usize) = jumps[index].shape();
            if height != rows || width != columns {
                assert(jumps@[index as int].extent() != (rows, columns));
                return Err(
                    QmbedError::DimensionMismatch(
                        "all Lindblad jumps must match the Hamiltonian".to_string(),
                    ),
                );
            }
            index = index + 1;
        }
        let ghost n = rows as int;
        let still: Vec<V> = match columns::materialize_dense(hamiltonian) {
            Ok(values) => values,
            Err(error) => {
                return Err(error);
            },
        };
        let mut list: Vec<Jump<V>> = Vec::new();
        while list.len() < jumps.len()
            invariant
                n == rows,
                rows == columns,
                hamiltonian.extent() == (rows, columns),
                hamiltonian.extent().0 * hamiltonian.extent().1 <= usize::MAX,
                columns::dense_images(hamiltonian, still@),
                forall|k: int| 0 <= k < jumps@.len() ==> (#[trigger] jumps@[k]).usable(),
                forall|k: int|
                    0 <= k < jumps@.len() ==> (#[trigger] jumps@[k]).extent() == (rows, columns),
                list@.len() <= jumps@.len(),
                forall|k: int|
                    0 <= k < list@.len() ==> {
                        &&& columns::dense_images(&jumps@[k], (#[trigger] list@[k]).operator@)
                        &&& list@[k].operator@.len() == n * n
                        &&& list@[k].adjoint@ == dense_adjoint(list@[k].operator@, n)
                        &&& list@[k].product@ == dense_product(
                            list@[k].adjoint@,
                            list@[k].operator@,
                            n,
                        )
                    },
            decreases jumps@.len() - list@.len(),
        {
            let ghost at = list@.len() as int;
            assert(jumps@[at].usable());
            let operator: Vec<V> = match columns::materialize_dense(&jumps[list.len()]) {
                Ok(values) => values,
                Err(error) => {
                    proof {
                        assert forall|k: int| 0 <= k < at implies !linear::refuses_unit(
                            &#[trigger] jumps@[k],
                        ) by {
                            columns::lemma_dense_images(&jumps@[k], list@[k].operator@);
                        }
                        columns::lemma_dense_images(hamiltonian, still@);
                        assert(refuses_jump(jumps@, at, error));
                    }
                    return Err(error);
                },
            };
            let adjoint: Vec<V> = adjoint(operator.as_slice(), rows);
            let product: Vec<V> = multiply(adjoint.as_slice(), operator.as_slice(), rows);
            list.push(Jump { operator, adjoint, product });
        }
        let area: usize = still.len();
        let generator = LindbladGenerator {
            hamiltonian: still,
            jumps: list,
            dimension: rows,
            area,
        };
        proof {
            assert forall|k: int| 0 <= k < jumps@.len() implies columns::dense_images(
                &#[trigger] jumps@[k],
                generator.leaps()[k],
            ) by {
                assert(columns::dense_images(&jumps@[k], list@[k].operator@));
            }
        }
        Ok(generator)
    }

    /// The derivative of a density matrix stored by rows.
    fn derive(&self, density: &Vec<V>) -> (values: Vec<V>)
        requires
            self.wf(),
            density@.len() == self.dimension * self.dimension,
        ensures
            values@.len() == self.dimension * self.dimension,
            forall|at: int|
                0 <= at < values@.len() ==> #[trigger] values@[at] == derivative(
                    self.still(),
                    self.leaps(),
                    density@,
                    self.dimension as int,
                    at,
                    self.leaps().len(),
                ),
    {
        let size: usize = self.dimension;
        let length: usize = density.len();
        let ghost n = size as int;
        let turn: V = V::from_local(
            LocalFactor { quarter_turns: 3, numerator: 1, halved: false, radicand: 1 },
        );
        let half: V = V::from_local(
            LocalFactor { quarter_turns: 0, numerator: 1, halved: true, radicand: 1 },
        );
        let first: Vec<V> = multiply(self.hamiltonian.as_slice(), density.as_slice(), size);
        let second: Vec<V> = multiply(density.as_slice(), self.hamiltonian.as_slice(), size);
        let mut values: Vec<V> = Vec::new();
        while values.len() < length
            invariant
                n == size,
                length == n * n,
                turn == minus_i::<V>(),
                first@.len() == length,
                second@.len() == length,
                first@ == dense_product(self.still(), density@, n),
                second@ == dense_product(density@, self.still(), n),
                values@.len() <= length,
                forall|at: int|
                    0 <= at < values@.len() ==> #[trigger] values@[at] == derivative(
                        self.still(),
                        self.leaps(),
                        density@,
                        n,
                        at,
                        0,
                    ),
            decreases length - values@.len(),
        {
            let at: usize = values.len();
            let difference: V = first[at].plus(second[at].times(V::minus_one()));
            values.push(turn.times(difference));
        }
        let mut index: usize = 0;
        while index < self.jumps.len()
            invariant
                self.wf(),
                size == self.dimension,
                n == size,
                length == n * n,
                density@.len() == length,
                half == one_half::<V>(),
                index <= self.jumps@.len(),
                values@.len() == length,
                forall|at: int|
                    0 <= at < values@.len() ==> #[trigger] values@[at] == derivative(
                        self.still(),
                        self.leaps(),
                        density@,
                        n,
                        at,
                        index as nat,
                    ),
            decreases self.jumps@.len() - index,
        {
            let jump: &Jump<V> = &self.jumps[index];
            assert(self.jumps@[index as int].operator@.len() == n * n);
            assert(self.leaps()[index as int] == jump.operator@);
            let half_way: Vec<V> = multiply(jump.operator.as_slice(), density.as_slice(), size);
            let gain: Vec<V> = multiply(half_way.as_slice(), jump.adjoint.as_slice(), size);
            let left: Vec<V> = multiply(jump.product.as_slice(), density.as_slice(), size);
            let right: Vec<V> = multiply(density.as_slice(), jump.product.as_slice(), size);
            let ghost before = values@;
            let mut at: usize = 0;
            while at < length
                invariant
                    n == size,
                    length == n * n,
                    half == one_half::<V>(),
                    at <= length,
                    values@.len() == length,
                    before.len() == length,
                    gain@.len() == length,
                    left@.len() == length,
                    right@.len() == length,
                    forall|i: int|
                        0 <= i < at ==> #[trigger] values@[i] == before[i].sum(
                            minus(
                                gain@[i],
                                one_half::<V>().product(left@[i].sum(right@[i])),
                            ),
                        ),
                    forall|i: int| at <= i < length ==> #[trigger] values@[i] == before[i],
                decreases length - at,
            {
                let loss: V = half.times(left[at].plus(right[at]));
                let change: V = gain[at].plus(loss.times(V::minus_one()));
                let value: V = values[at].plus(change);
                values.set(at, value);
                at = at + 1;
            }
            proof {
                assert forall|i: int| 0 <= i < length implies #[trigger] values@[i] == derivative(
                    self.still(),
                    self.leaps(),
                    density@,
                    n,
                    i,
                    (index + 1) as nat,
                ) by {
                    assert(before[i] == derivative(
                        self.still(),
                        self.leaps(),
                        density@,
                        n,
                        i,
                        index as nat,
                    ));
                }
            }
            index = index + 1;
        }
        values
    }
}

/// The jump operator is the first that refuses a unit vector, and refuses it with the
/// error.
pub open spec fn refuses_jump<V: Amplitude, O: LinearOperator<V>>(
    jumps: Seq<O>,
    at: int,
    error: QmbedError,
) -> bool {
    &&& 0 <= at < jumps.len()
    &&& linear::refuses_unit_with(&jumps[at], error)
    &&& forall|k: int| 0 <= k < at ==> !linear::refuses_unit(&#[trigger] jumps[k])
}

impl<V: Amplitude> LinearOperator<V> for LindbladGenerator<V> {
    closed spec fn usable(&self) -> bool {
        self.wf()
    }

    closed spec fn extent(&self) -> (usize, usize) {
        (self.area, self.area)
    }

    open spec fn maps(&self, input: Seq<V>) -> Option<Seq<V>> {
        Some(flow(self.still(), self.leaps(), self.size() as int, input))
    }

    /// The transpose is known by the images of the unit vectors alone.
    open spec fn maps_back(&self, input: Seq<V>) -> Option<Seq<V>> {
        Some(
            Seq::new(
                self.extent().1 as nat,
                |column: int|
                    linear::dot(
                        flow(
                            self.still(),
                            self.leaps(),
                            self.size() as int,
                            crate::projector::unit(self.extent().1 as nat, column),
                        ),
                        input,
                        self.extent().0 as nat,
                    ),
            ),
        )
    }

    open spec fn stored_as(&self) -> MatrixFormat {
        MatrixFormat::MatrixFree
    }

    open spec fn offers(&self, entries: Option<Seq<Triplet<V>>>) -> bool {
        entries is None
    }

    open spec fn refuses(&self, input: Seq<V>, error: QmbedError) -> bool {
        false
    }

    open spec fn refuses_back(&self, input: Seq<V>, error: QmbedError) -> bool {
        false
    }

    open spec fn withholds(&self, error: QmbedError) -> bool {
        false
    }

    fn stored_triplets(&self) -> (result: Result<Option<Vec<Triplet<V>>>>) {
        Ok(None)
    }

    fn shape(&self) -> (shape: (usize, usize)) {
        (self.area, self.area)
    }

    fn format(&self) -> (format: MatrixFormat) {
        MatrixFormat::MatrixFree
    }

    fn apply(&self, input: &[V], output: &mut [V]) -> (result: Result<()>) {
        if input.len() != self.area || output.len() != self.area {
            return Err(wrong_size());
        }
        let image: Vec<V> = self.run(input);
        copy_into(&image, output);
        Ok(())
    }

    fn apply_transpose(&self, input: &[V], output: &mut [V]) -> (result: Result<()>) {
        if input.len() != self.area || output.len() != self.area {
            return Err(wrong_size());
        }
        let size: usize = self.area;
        let mut column: usize = 0;
        while column < size
            invariant
                self.wf(),
                size == self.area,
                input@.len() == size,
                output@.len() == size,
                old(output)@.len() == size,
                column <= size,
                forall|c: int|
                    0 <= c < column ==> #[trigger] output@[c] == linear::dot(
                        flow(
                            self.still(),
                            self.leaps(),
                            self.size() as int,
                            crate::projector::unit(size as nat, c),
                        ),
                        input@,
                        size as nat,
                    ),
            decreases size - column,
        {
            let mut start: Vec<V> = operator::zeros(size);
            start.set(column, V::one());
            assert(start@ =~= crate::projector::unit(size as nat, column as int));
            let image: Vec<V> = self.run(start.as_slice());
            let mut sum: V = V::zero();
            let mut row: usize = 0;
            while row < size
                invariant
                    row <= size,
                    image@.len() == size,
                    input@.len() == size,
                    sum == linear::dot(image@, input@, row as nat),
                decreases size - row,
            {
                sum = sum.plus(image[row].times(input[row]));
                row = row + 1;
            }
            output[column] = sum;
            column = column + 1;
        }
        assert(output@ =~= self.maps_back(input@)->0);
        Ok(())
    }
}

fn wrong_size() -> (error: QmbedError)
    ensures
        error is DimensionMismatch,
{
    QmbedError::DimensionMismatch(
        "vectors do not match the size of the density matrix".to_string(),
    )
}

fn copy_into<V: Scalar>(values: &Vec<V>, output: &mut [V])
    requires
        old(output)@.len() == values@.len(),
    ensures
        final(output)@ == values@,
{
    let mut index: usize = 0;
    while index < values.len()
        invariant
            index <= values@.len(),
            output@.len() == values@.len(),
            old(output)@.len() == values@.len(),
            forall|i: int| 0 <= i < index ==> #[trigger] output@[i] == values@[i],
        decreases values@.len() - index,
    {
        output[index] = values[index];
        index = index + 1;
    }
    assert(output@ =~= values@);
}

impl<V: Amplitude> LindbladGenerator<V> {
    /// The derivative of a density matrix, both stored by columns.
    fn run(&self, input: &[V]) -> (turned: Vec<V>)
        requires
            self.wf(),
            input@.len() == self.area,
        ensures
            turned@ == flow(self.still(), self.leaps(), self.size() as int, input@),
            turned@.len() == self.area,
    {
        let density: Vec<V> = turn(input, self.dimension);
        let values: Vec<V> = self.derive(&density);
        let turned: Vec<V> = turn(values.as_slice(), self.dimension);
        proof {
            let size = self.dimension as int;
            let whole = Seq::new(
                (size * size) as nat,
                |at: int|
                    derivative(
                        self.still(),
                        self.leaps(),
                        density@,
                        size,
                        at,
                        self.leaps().len(),
                    ),
            );
            assert(values@ =~= whole);
        }
        turned
    }
}

} // verus!
