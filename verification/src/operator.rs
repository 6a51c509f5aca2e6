//! Matrices in dense, compressed, diagonal and listed storage.

use vstd::prelude::*;
use crate::bands::Bands;
use crate::bands;
use crate::compressed::Compressed;
use crate::compressed;
use crate::error::{QmbedError, Result};
use crate::error;
use crate::scalar::Scalar;
use crate::scalar;
use crate::triplets::Triplet;
use crate::triplets;
pub use crate::assembly::OperatorBuilder;
pub use crate::corrected::QuantumLinearOperator;
pub use crate::hamiltonian::{Dynamic, Hamiltonian, Static};
pub use crate::linear::{
    get_matvec_function, matmat, matvec, rmatmat, rmatvec, AdjointLinearOperator,
    ConjugatedLinearOperator, LinearOperator, MatVecPlan, TransposedLinearOperator,
};
pub use crate::matrix::{anticommutator, commutator};
pub use crate::quantum::{QuantumComponent, QuantumOperator};
pub use crate::sector_shift::{apply_sector_shift, bra_ket_transitions, BraKetTransition};
pub use crate::terms::{AssemblyChecks, Coupling, LocalOperator, OpProduct, OperatorSpec, OperatorTerm};
pub use crate::timed::{TimeDependentOperator, TimeOperator};

verus! {

/// How a matrix is stored.
#[derive(Clone, Copy, Debug, PartialEq, Eq, Structural)]
pub enum MatrixFormat {
    Dense,
    Csc,
    Csr,
    Dia,
    MatrixFree,
}

/// The numbers of a matrix in one of the formats.
#[derive(Clone, Debug)]
pub enum Storage<V> {
    Dense(Vec<V>),
    Csc(Compressed<V>),
    Csr(Compressed<V>),
    Dia(Bands<V>),
    MatrixFree(Vec<Triplet<V>>),
}

/// A matrix.
#[derive(Debug)]
pub struct Operator<V> {
    pub shape: (usize, usize),
    pub format: MatrixFormat,
    pub storage: Storage<V>,
    pub real_valued: bool,
}

/// Entries in order, each place once, within the shape, none of them zero, or none
/// counting as zero.
pub open spec fn good_list<V: Scalar>(
    exact: bool,
    list: Seq<Triplet<V>>,
    by_column: bool,
    rows: int,
    columns: int,
) -> bool {
    &&& triplets::strictly_ordered(list, by_column)
    &&& triplets::fits(list, rows, columns)
    &&& forall|i: int| 0 <= i < list.len() ==> !scalar::blank(
        exact,
        (#[trigger] list[i]).value,
    )
}

/// The place of a cell in dense storage.
pub open spec fn cell_index(columns: int, row: int, column: int) -> int {
    row * columns + column
}

pub proof fn lemma_cell_index(rows: int, columns: int, row: int, column: int)
    requires
        0 <= row < rows,
        0 <= column < columns,
    ensures
        0 <= cell_index(columns, row, column) < rows * columns,
        0 <= row * columns <= cell_index(columns, row, column),
{
    bands::lemma_slot(rows, columns, row, column);
}

impl<V: Scalar> Storage<V> {
    /// The value in a place.
    pub open spec fn cell(&self, rows: int, columns: int, row: int, column: int) -> V {
        match self {
            Storage::Dense(values) => values@[cell_index(columns, row, column)],
            Storage::Csc(filed) => compressed::list_cell(filed.entries(true), row, column),
            Storage::Csr(filed) => compressed::list_cell(filed.entries(false), row, column),
            Storage::Dia(diagonals) => diagonals.cell(rows, row, column),
            Storage::MatrixFree(list) => compressed::list_cell(list@, row, column),
        }
    }

    pub open spec fn format_of(&self) -> MatrixFormat {
        match self {
            Storage::Dense(_) => MatrixFormat::Dense,
            Storage::Csc(_) => MatrixFormat::Csc,
            Storage::Csr(_) => MatrixFormat::Csr,
            Storage::Dia(_) => MatrixFormat::Dia,
            Storage::MatrixFree(_) => MatrixFormat::MatrixFree,
        }
    }

    pub open spec fn sound(&self, rows: int, columns: int) -> bool {
        match self {
            Storage::Dense(values) => values@.len() == rows * columns,
            Storage::Csc(filed) => {
                &&& filed.sound(columns)
                &&& good_list(true, filed.entries(true), true, rows, columns)
            },
            Storage::Csr(filed) => {
                &&& filed.sound(rows)
                &&& good_list(true, filed.entries(false), false, rows, columns)
            },
            Storage::Dia(diagonals) => {
                &&& diagonals.sound(rows, columns)
                &&& diagonals.blank_outside(rows, columns)
            },
            Storage::MatrixFree(list) => good_list(true, list@, false, rows, columns),
        }
    }
}

impl<V: Scalar> Operator<V> {
    pub open spec fn rows(&self) -> int {
        self.shape.0 as int
    }

    pub open spec fn columns(&self) -> int {
        self.shape.1 as int
    }

    /// The value in a place of the matrix.
    pub open spec fn entry(&self, row: int, column: int) -> V {
        self.storage.cell(self.rows(), self.columns(), row, column)
    }

    pub open spec fn inside(&self, row: int, column: int) -> bool {
        0 <= row < self.rows() && 0 <= column < self.columns()
    }

    pub open spec fn wf(&self) -> bool {
        &&& self.storage.sound(self.rows(), self.columns())
        &&& self.format == self.storage.format_of()
        &&& self.real_valued == (forall|row: int, column: int|
            self.inside(row, column) ==> (#[trigger] self.entry(row, column)).imaginary_free())
    }

    /// The list holds exactly the entries that are not zero, or that do not count as zero,
    /// row by row.
    pub open spec fn spelled_as(&self, exact: bool, list: Seq<Triplet<V>>) -> bool {
        &&& good_list(exact, list, false, self.rows(), self.columns())
        &&& forall|i: int|
            0 <= i < list.len() ==> (#[trigger] list[i]).value == self.entry(
                list[i].row as int,
                list[i].column as int,
            )
        &&& forall|row: int, column: int|
            self.inside(row, column) && !scalar::blank(exact, #[trigger] self.entry(row, column))
                ==> exists|i: int|
                0 <= i < list.len() && triplets::stands_at(#[trigger] list[i], row, column)
    }

    /// The list holds exactly the entries that do not count as zero, row by row.
    pub open spec fn spelled(&self, list: Seq<Triplet<V>>) -> bool {
        self.spelled_as(false, list)
    }
}

/// A list without entries that count as zero holds no zeros.
pub proof fn lemma_good_list<V: Scalar>(
    list: Seq<Triplet<V>>,
    by_column: bool,
    rows: int,
    columns: int,
)
    requires
        good_list(false, list, by_column, rows, columns),
    ensures
        good_list(true, list, by_column, rows, columns),
{
    V::lemma_zero();
}

/// The cells of a list that spells a matrix exactly are those of the matrix.
pub proof fn lemma_spelled_cell<V: Scalar>(
    matrix: &Operator<V>,
    list: Seq<Triplet<V>>,
    row: int,
    column: int,
)
    requires
        matrix.spelled_as(true, list),
        matrix.inside(row, column),
    ensures
        compressed::list_cell(list, row, column) == matrix.entry(row, column),
{
    if exists|i: int| 0 <= i < list.len() && triplets::stands_at(#[trigger] list[i], row, column) {
        let i = choose|i: int|
            0 <= i < list.len() && triplets::stands_at(#[trigger] list[i], row, column);
        compressed::lemma_list_cell_at(list, false, i);
    } else {
        assert(scalar::blank(true, matrix.entry(row, column)));
        compressed::lemma_list_cell_absent(list, row, column);
    }
}

/// Two lists with the same entries have the same cells.
proof fn lemma_same_cells<V: Scalar>(
    first: Seq<Triplet<V>>,
    first_order: bool,
    second: Seq<Triplet<V>>,
    second_order: bool,
    row: int,
    column: int,
)
    requires
        triplets::strictly_ordered(first, first_order),
        triplets::strictly_ordered(second, second_order),
        forall|i: int| 0 <= i < first.len() ==> second.contains(#[trigger] first[i]),
        forall|i: int| 0 <= i < second.len() ==> first.contains(#[trigger] second[i]),
    ensures
        compressed::list_cell(first, row, column) == compressed::list_cell(second, row, column),
{
    if exists|i: int| 0 <= i < first.len() && triplets::stands_at(#[trigger] first[i], row, column) {
        let i = choose|i: int|
            0 <= i < first.len() && triplets::stands_at(#[trigger] first[i], row, column);
        compressed::lemma_list_cell_at(first, first_order, i);
        let k = second.index_of(first[i]);
        assert(second.contains(first[i]));
        compressed::lemma_list_cell_at(second, second_order, k);
    } else {
        compressed::lemma_list_cell_absent(first, row, column);
        assert forall|k: int| 0 <= k < second.len() implies !triplets::stands_at(
            #[trigger] second[k],
            row,
            column,
        ) by {
            assert(first.contains(second[k]));
            let i = first.index_of(second[k]);
            assert(first[i] == second[k]);
        }
        compressed::lemma_list_cell_absent(second, row, column);
    }
}

/// Sorts a list in which every place stands once into another order.
pub(crate) fn resort<V: Scalar>(
    list: &Vec<Triplet<V>>,
    rows: usize,
    columns: usize,
    order: Ghost<bool>,
    by_column: bool,
) -> (sorted: Vec<Triplet<V>>)
    requires
        good_list(true, list@, order@, rows as int, columns as int),
    ensures
        good_list(true, sorted@, by_column, rows as int, columns as int),
        sorted@.len() == list@.len(),
        forall|i: int| 0 <= i < sorted@.len() ==> list@.contains(#[trigger] sorted@[i]),
        forall|i: int| 0 <= i < list@.len() ==> sorted@.contains(#[trigger] list@[i]),
        forall|row: int, column: int|
            #[trigger] compressed::list_cell(sorted@, row, column) == compressed::list_cell(
                list@,
                row,
                column,
            ),
{
    let sorted: Vec<Triplet<V>> = triplets::sort_entries(list.as_slice(), by_column);
    proof {
        triplets::lemma_resorted(list@, order@, sorted@, by_column);
        assert forall|i: int| 0 <= i < sorted@.len() implies (#[trigger] sorted@[i]).row < rows
            && sorted@[i].column < columns && !scalar::blank(true, sorted@[i].value) by {
            assert(list@.contains(sorted@[i]));
            let k = list@.index_of(sorted@[i]);
            assert(list@[k] == sorted@[i]);
        }
        assert forall|row: int, column: int| #[trigger]
            compressed::list_cell(sorted@, row, column) == compressed::list_cell(
                list@,
                row,
                column,
            ) by {
            lemma_same_cells(sorted@, by_column, list@, order@, row, column);
        }
    }
    sorted
}

fn all_real<V: Scalar>(values: &Vec<V>) -> (all: bool)
    ensures
        all == (forall|i: int| 0 <= i < values@.len() ==> (#[trigger] values@[i]).imaginary_free()),
{
    let mut index: usize = 0;
    while index < values.len()
        invariant
            index <= values@.len(),
            forall|i: int| 0 <= i < index ==> (#[trigger] values@[i]).imaginary_free(),
        decreases values@.len() - index,
    {
        if !values[index].is_real() {
            return false;
        }
        index = index + 1;
    }
    true
}

fn all_entries_real<V: Scalar>(list: &Vec<Triplet<V>>) -> (all: bool)
    ensures
        all == (forall|i: int|
            0 <= i < list@.len() ==> (#[trigger] list@[i]).value.imaginary_free()),
{
    let mut index: usize = 0;
    while index < list.len()
        invariant
            index <= list@.len(),
            forall|i: int| 0 <= i < index ==> (#[trigger] list@[i]).value.imaginary_free(),
        decreases list@.len() - index,
    {
        if !list[index].value.is_real() {
            return false;
        }
        index = index + 1;
    }
    true
}

/// Cells of dense storage by row and column are all its values.
proof fn lemma_dense_cells<V: Scalar>(values: Seq<V>, rows: int, columns: int)
    requires
        0 <= rows,
        0 <= columns,
        values.len() == rows * columns,
    ensures
        (forall|i: int| 0 <= i < values.len() ==> (#[trigger] values[i]).imaginary_free()) == (
        forall|row: int, column: int|
            0 <= row < rows && 0 <= column < columns ==> (values[#[trigger] cell_index(
                columns,
                row,
                column,
            )]).imaginary_free()),
{
    if forall|row: int, column: int|
        0 <= row < rows && 0 <= column < columns ==> (values[#[trigger] cell_index(
            columns,
            row,
            column,
        )]).imaginary_free() {
        assert forall|i: int| 0 <= i < values.len() implies (
        #[trigger] values[i]).imaginary_free() by {
            lemma_index_cell(rows, columns, i);
            assert((values[cell_index(columns, i / columns, i % columns)]).imaginary_free());
        }
    } else {
        let (row, column) = choose|row: int, column: int|
            0 <= row < rows && 0 <= column < columns && !(values[#[trigger] cell_index(
                columns,
                row,
                column,
            )]).imaginary_free();
        lemma_cell_index(rows, columns, row, column);
        assert(!values[cell_index(columns, row, column)].imaginary_free());
    }
}

/// The cell of a place in dense storage.
pub proof fn lemma_index_cell(rows: int, columns: int, index: int)
    requires
        0 <= rows,
        0 <= columns,
        0 <= index < rows * columns,
    ensures
        columns > 0,
        0 <= index / columns < rows,
        0 <= index % columns < columns,
        cell_index(columns, index / columns, index % columns) == index,
{
    assert(columns > 0) by (nonlinear_arith)
        requires
            0 <= columns,
            0 <= index < rows * columns,
    ;
    vstd::arithmetic::div_mod::lemma_fundamental_div_mod(index, columns);
    assert(columns * (index / columns) == (index / columns) * columns) by (nonlinear_arith);
    vstd::arithmetic::div_mod::lemma_mod_bound(index, columns);
    assert(0 <= index / columns < rows) by (nonlinear_arith)
        requires
            columns > 0,
            0 <= index < rows * columns,
            index == columns * (index / columns) + index % columns,
            0 <= index % columns < columns,
    ;
}

/// The values of all entries of a list are real exactly if all cells are.
proof fn lemma_real_list<V: Scalar>(
    list: Seq<Triplet<V>>,
    by_column: bool,
    rows: int,
    columns: int,
)
    requires
        good_list(true, list, by_column, rows, columns),
    ensures
        (forall|i: int| 0 <= i < list.len() ==> (#[trigger] list[i]).value.imaginary_free()) == (
        forall|row: int, column: int|
            0 <= row < rows && 0 <= column < columns ==> (#[trigger] compressed::list_cell(
                list,
                row,
                column,
            )).imaginary_free()),
{
    V::lemma_zero();
    if forall|i: int| 0 <= i < list.len() ==> (#[trigger] list[i]).value.imaginary_free() {
        assert forall|row: int, column: int|
            0 <= row < rows && 0 <= column < columns implies (#[trigger] compressed::list_cell(
            list,
            row,
            column,
        )).imaginary_free() by {
            if exists|i: int|
                0 <= i < list.len() && triplets::stands_at(#[trigger] list[i], row, column) {
                let i = choose|i: int|
                    0 <= i < list.len() && triplets::stands_at(#[trigger] list[i], row, column);
                compressed::lemma_list_cell_at(list, by_column, i);
            } else {
                compressed::lemma_list_cell_absent(list, row, column);
            }
        }
    } else {
        let i = choose|i: int|
            0 <= i < list.len() && !(#[trigger] list[i]).value.imaginary_free();
        compressed::lemma_list_cell_at(list, by_column, i);
        assert(!compressed::list_cell(
            list,
            list[i].row as int,
            list[i].column as int,
        ).imaginary_free());
    }
}

/// A vector of zeros.
pub(crate) fn zeros<V: Scalar>(length: usize) -> (values: Vec<V>)
    ensures
        values@.len() == length,
        forall|i: int| 0 <= i < length ==> #[trigger] values@[i] == V::zero_value(),
{
    let mut values: Vec<V> = Vec::new();
    while values.len() < length
        invariant
            values@.len() <= length,
            forall|i: int| 0 <= i < values@.len() ==> #[trigger] values@[i] == V::zero_value(),
        decreases length - values@.len(),
    {
        values.push(V::zero());
    }
    values
}

/// Dense storage of a list of entries.
pub(crate) fn spread_list<V: Scalar>(list: &Vec<Triplet<V>>, rows: usize, columns: usize) -> (values: Vec<V>)
    requires
        triplets::strictly_ordered(list@, false),
        triplets::fits(list@, rows as int, columns as int),
        rows * columns <= usize::MAX,
    ensures
        values@.len() == rows * columns,
        forall|row: int, column: int|
            0 <= row < rows && 0 <= column < columns ==> values@[#[trigger] cell_index(
                columns as int,
                row,
                column,
            )] == compressed::list_cell(list@, row, column),
{
    let mut values: Vec<V> = zeros(rows * columns);
    let mut position: usize = 0;
    proof {
        assert forall|row: int, column: int|
            0 <= row < rows && 0 <= column < columns implies values@[#[trigger] cell_index(
            columns as int,
            row,
            column,
        )] == V::zero_value() by {
            lemma_cell_index(rows as int, columns as int, row, column);
        }
    }
    while position < list.len()
        invariant
            position <= list@.len(),
            values@.len() == rows * columns,
            rows * columns <= usize::MAX,
            triplets::strictly_ordered(list@, false),
            triplets::fits(list@, rows as int, columns as int),
            forall|row: int, column: int|
                0 <= row < rows && 0 <= column < columns && (forall|e: int|
                    0 <= e < position ==> !triplets::stands_at(#[trigger] list@[e], row, column))
                    ==> values@[#[trigger] cell_index(columns as int, row, column)]
                    == V::zero_value(),
            forall|e: int|
                0 <= e < position ==> values@[cell_index(
                    columns as int,
                    (#[trigger] list@[e]).row as int,
                    list@[e].column as int,
                )] == list@[e].value,
        decreases list@.len() - position,
    {
        let entry: Triplet<V> = list[position];
        let ghost before = values@;
        proof {
            lemma_cell_index(rows as int, columns as int, entry.row as int, entry.column as int);
        }
        let place: usize = entry.row * columns + entry.column;
        values.set(place, entry.value);
        proof {
            assert(place == cell_index(columns as int, entry.row as int, entry.column as int));
            assert forall|row: int, column: int|
                0 <= row < rows && 0 <= column < columns && (forall|e: int|
                    0 <= e < position + 1 ==> !triplets::stands_at(
                        #[trigger] list@[e],
                        row,
                        column,
                    )) implies values@[#[trigger] cell_index(columns as int, row, column)]
                == V::zero_value() by {
                lemma_cell_index(rows as int, columns as int, row, column);
                assert(!triplets::stands_at(list@[position as int], row, column));
                if cell_index(columns as int, row, column) == place {
                    bands::lemma_slots_apart(
                        columns as int,
                        row,
                        column,
                        entry.row as int,
                        entry.column as int,
                    );
                }
            }
            assert forall|e: int| 0 <= e < position + 1 implies values@[cell_index(
                columns as int,
                (#[trigger] list@[e]).row as int,
                list@[e].column as int,
            )] == list@[e].value by {
                lemma_cell_index(
                    rows as int,
                    columns as int,
                    list@[e].row as int,
                    list@[e].column as int,
                );
                if e < position {
                    assert(triplets::comes_before(list@[e], list@[position as int], false));
                    if cell_index(columns as int, list@[e].row as int, list@[e].column as int)
                        == place {
                        bands::lemma_slots_apart(
                            columns as int,
                            list@[e].row as int,
                            list@[e].column as int,
                            entry.row as int,
                            entry.column as int,
                        );
                    }
                }
            }
        }
        position = position + 1;
    }
    proof {
        assert forall|row: int, column: int|
            0 <= row < rows && 0 <= column < columns implies values@[#[trigger] cell_index(
            columns as int,
            row,
            column,
        )] == compressed::list_cell(list@, row, column) by {
            if exists|e: int|
                0 <= e < list@.len() && triplets::stands_at(#[trigger] list@[e], row, column) {
                let e = choose|e: int|
                    0 <= e < list@.len() && triplets::stands_at(#[trigger] list@[e], row, column);
                compressed::lemma_list_cell_at(list@, false, e);
            } else {
                compressed::lemma_list_cell_absent(list@, row, column);
            }
        }
    }
    values
}

/// Machine limits on the shape that a format puts.
pub open spec fn storable(rows: usize, columns: usize, format: MatrixFormat) -> bool {
    match format {
        MatrixFormat::Dense => rows * columns <= usize::MAX,
        MatrixFormat::Csc => columns < usize::MAX,
        MatrixFormat::Csr => rows < usize::MAX,
        _ => true,
    }
}

/// Stores a row-by-row list of entries.
pub(crate) fn store_list<V: Scalar>(
    rows: usize,
    columns: usize,
    list: Vec<Triplet<V>>,
    format: MatrixFormat,
) -> (operator: Operator<V>)
    requires
        good_list(true, list@, false, rows as int, columns as int),
        storable(rows, columns, format),
    ensures
        operator.wf(),
        operator.shape == (rows, columns),
        operator.format == format,
        forall|row: int, column: int|
            operator.inside(row, column) ==> #[trigger] operator.entry(row, column)
                == compressed::list_cell(list@, row, column),
{
    let ghost r = rows as int;
    let ghost c = columns as int;
    let real_valued: bool = all_entries_real(&list);
    proof {
        lemma_real_list(list@, false, r, c);
    }
    let storage: Storage<V> = match format {
        MatrixFormat::Dense => Storage::Dense(spread_list(&list, rows, columns)),
        MatrixFormat::Csc => {
            let sorted: Vec<Triplet<V>> = resort(&list, rows, columns, Ghost(false), true);
            let filed: Compressed<V> = compressed::compress(&sorted, columns, true);
            Storage::Csc(filed)
        },
        MatrixFormat::Csr => Storage::Csr(compressed::compress(&list, rows, false)),
        MatrixFormat::Dia => {
            let diagonals: Bands<V> = bands::store_bands(&list, rows, columns);
            Storage::Dia(diagonals)
        },
        MatrixFormat::MatrixFree => Storage::MatrixFree(list),
    };
    let operator = Operator { shape: (rows, columns), format, storage, real_valued };
    proof {
        assert forall|row: int, column: int| operator.inside(row, column) implies #[trigger]
            operator.entry(row, column) == compressed::list_cell(list@, row, column) by {}
        if forall|row: int, column: int|
            0 <= row < r && 0 <= column < c ==> (#[trigger] compressed::list_cell(
                list@,
                row,
                column,
            )).imaginary_free() {
        } else {
            let (row, column) = choose|row: int, column: int|
                0 <= row < r && 0 <= column < c && !(#[trigger] compressed::list_cell(
                    list@,
                    row,
                    column,
                )).imaginary_free();
            assert(operator.inside(row, column));
            assert(!operator.entry(row, column).imaginary_free());
        }
    }
    operator
}

/// All entries lie within the shape and are finite.
pub open spec fn acceptable<V: Scalar>(list: Seq<Triplet<V>>, rows: int, columns: int) -> bool {
    forall|i: int|
        0 <= i < list.len() ==> (#[trigger] list[i]).row < rows && list[i].column < columns
            && list[i].value.proper()
}

/// What a format keeps of a sum: all of it in dense storage, zero for what counts as
/// zero elsewhere.
pub open spec fn settled<V: Scalar>(format: MatrixFormat, value: V) -> V {
    if format == MatrixFormat::Dense || !value.tiny() {
        value
    } else {
        V::zero_value()
    }
}

impl<V: Scalar> Operator<V> {
    /// A dense matrix from its values, row by row.
    pub fn from_dense(rows: usize, columns: usize, values_row_major: Vec<V>) -> (result: Result<Self>)
        ensures
            match result {
                Ok(operator) => {
                    &&& values_row_major@.len() == rows * columns
                    &&& operator.wf()
                    &&& operator.shape == (rows, columns)
                    &&& operator.format == MatrixFormat::Dense
                    &&& operator.storage matches Storage::Dense(values) && values@
                        == values_row_major@
                    &&& forall|row: int, column: int|
                        operator.inside(row, column) ==> #[trigger] operator.entry(row, column)
                            == values_row_major@[cell_index(columns as int, row, column)]
                },
                Err(error) => error is DimensionMismatch && values_row_major@.len() != rows
                    * columns,
            },
    {
        let length: usize = values_row_major.len();
        let expected: Option<usize> = rows.checked_mul(columns);
        let fits: bool = match expected {
            Some(count) => count == length,
            None => false,
        };
        if !fits {
            return Err(
                QmbedError::DimensionMismatch(
                    error::weave(
                        vec!["dense storage has ", " entries for shape (", ", ", ")"],
                        vec![length, rows, columns],
                    ),
                ),
            );
        }
        let real_valued: bool = all_real(&values_row_major);
        proof {
            lemma_dense_cells(values_row_major@, rows as int, columns as int);
        }
        let operator = Operator {
            shape: (rows, columns),
            format: MatrixFormat::Dense,
            storage: Storage::Dense(values_row_major),
            real_valued,
        };
        proof {
            let values = operator.storage->Dense_0@;
            if forall|row: int, column: int|
                0 <= row < rows && 0 <= column < columns ==> (values[#[trigger] cell_index(
                    columns as int,
                    row,
                    column,
                )]).imaginary_free() {
                assert forall|row: int, column: int| operator.inside(row, column) implies (
                #[trigger] operator.entry(row, column)).imaginary_free() by {
                    assert((values[cell_index(columns as int, row, column)]).imaginary_free());
                }
            } else {
                let (row, column) = choose|row: int, column: int|
                    0 <= row < rows && 0 <= column < columns && !(values[#[trigger] cell_index(
                        columns as int,
                        row,
                        column,
                    )]).imaginary_free();
                assert(!operator.entry(row, column).imaginary_free());
            }
        }
        Ok(operator)
    }

    /// A matrix from entries; entries in the same place add up in order.
    pub fn from_triplets(
        rows: usize,
        columns: usize,
        list: &[Triplet<V>],
        format: MatrixFormat,
    ) -> (result: Result<Self>)
        requires
            storable(rows, columns, format),
        ensures
            match result {
                Ok(operator) => {
                    &&& acceptable(list@, rows as int, columns as int)
                    &&& operator.wf()
                    &&& operator.shape == (rows, columns)
                    &&& operator.format == format
                    &&& forall|row: int, column: int|
                        operator.inside(row, column) ==> #[trigger] operator.entry(row, column)
                            == settled(format, triplets::cell_sum(list@, row, column))
                },
                Err(error) => error is InvalidCoupling && !acceptable(
                    list@,
                    rows as int,
                    columns as int,
                ),
            },
    {
        let mut index: usize = 0;
        while index < list.len()
            invariant
                index <= list@.len(),
                forall|i: int|
                    0 <= i < index ==> (#[trigger] list@[i]).row < rows && list@[i].column
                        < columns && list@[i].value.proper(),
            decreases list@.len() - index,
        {
            let entry: Triplet<V> = list[index];
            if entry.row >= rows || entry.column >= columns || !entry.value.is_finite() {
                assert(!((list@[index as int]).row < rows && list@[index as int].column < columns
                    && list@[index as int].value.proper()));
                return Err(
                    QmbedError::InvalidCoupling(
                        "triplet index is out of bounds or its value is non-finite".to_string(),
                    ),
                );
            }
            index = index + 1;
        }
        if format == MatrixFormat::Dense {
            let values: Vec<V> = sum_dense(list, rows, columns);
            return Self::from_dense(rows, columns, values);
        }
        let entries: Vec<Triplet<V>> = triplets::accumulate(list, false);
        proof {
            assert forall|i: int| 0 <= i < entries@.len() implies (#[trigger] entries@[i]).row
                < rows && entries@[i].column < columns by {
                let row = entries@[i].row as int;
                let column = entries@[i].column as int;
                if triplets::values_at(list@, row, column).len() == 0 {
                    V::lemma_zero();
                } else {
                    triplets::lemma_some_entry(list@, row, column);
                    let k = choose|k: int|
                        0 <= k < list@.len() && triplets::stands_at(
                            #[trigger] list@[k],
                            row,
                            column,
                        );
                    assert(list@[k].row < rows);
                }
            }
        }
        proof {
            lemma_good_list(entries@, false, rows as int, columns as int);
        }
        let operator: Operator<V> = store_list(rows, columns, entries, format);
        proof {
            assert forall|row: int, column: int| operator.inside(row, column) implies #[trigger]
                operator.entry(row, column) == settled(
                format,
                triplets::cell_sum(list@, row, column),
            ) by {
                compressed::lemma_accumulated_cell(entries@, list@, false, row, column);
            }
        }
        Ok(operator)
    }
}

/// Dense storage of the sums over each place.
fn sum_dense<V: Scalar>(list: &[Triplet<V>], rows: usize, columns: usize) -> (values: Vec<V>)
    requires
        acceptable(list@, rows as int, columns as int),
        rows * columns <= usize::MAX,
    ensures
        values@.len() == rows * columns,
        forall|row: int, column: int|
            0 <= row < rows && 0 <= column < columns ==> values@[#[trigger] cell_index(
                columns as int,
                row,
                column,
            )] == triplets::cell_sum(list@, row, column),
{
    let mut values: Vec<V> = zeros(rows * columns);
    let mut position: usize = 0;
    proof {
        assert(list@.subrange(0, 0) =~= Seq::<Triplet<V>>::empty());
        assert forall|row: int, column: int|
            0 <= row < rows && 0 <= column < columns implies values@[#[trigger] cell_index(
            columns as int,
            row,
            column,
        )] == triplets::cell_sum(list@.subrange(0, 0), row, column) by {
            lemma_cell_index(rows as int, columns as int, row, column);
        }
    }
    while position < list.len()
        invariant
            position <= list@.len(),
            values@.len() == rows * columns,
            rows * columns <= usize::MAX,
            acceptable(list@, rows as int, columns as int),
            forall|row: int, column: int|
                0 <= row < rows && 0 <= column < columns ==> values@[#[trigger] cell_index(
                    columns as int,
                    row,
                    column,
                )] == triplets::cell_sum(list@.subrange(0, position as int), row, column),
        decreases list@.len() - position,
    {
        let entry: Triplet<V> = list[position];
        let ghost before = values@;
        proof {
            lemma_cell_index(rows as int, columns as int, entry.row as int, entry.column as int);
        }
        let place: usize = entry.row * columns + entry.column;
        let sum: V = values[place].plus(entry.value);
        values.set(place, sum);
        proof {
            let longer = list@.subrange(0, position + 1);
            assert(longer.drop_last() =~= list@.subrange(0, position as int));
            assert(longer.last() == entry);
            assert(place == cell_index(columns as int, entry.row as int, entry.column as int));
            assert forall|row: int, column: int|
                0 <= row < rows && 0 <= column < columns implies values@[#[trigger] cell_index(
                columns as int,
                row,
                column,
            )] == triplets::cell_sum(longer, row, column) by {
                lemma_cell_index(rows as int, columns as int, row, column);
                let shorter = triplets::values_at(longer.drop_last(), row, column);
                if cell_index(columns as int, row, column) == place {
                    bands::lemma_slots_apart(
                        columns as int,
                        row,
                        column,
                        entry.row as int,
                        entry.column as int,
                    );
                    assert(shorter.push(entry.value).drop_last() =~= shorter);
                } else {
                    assert(!triplets::stands_at(entry, row, column));
                }
            }
        }
        position = position + 1;
    }
    assert(list@.subrange(0, position as int) =~= list@);
    values
}

} // verus!
