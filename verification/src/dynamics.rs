//! Periods, steps of a drive, and the flow of density matrices.

use vstd::prelude::*;
use crate::error::{QmbedError, Result};
use crate::lindblad;
use crate::linear::LinearOperator;
use crate::local::LocalFactor;
use crate::operator;
use crate::scalar::Amplitude;

verus! {

/// Equally spaced points over several periods.
#[derive(Clone, Copy, Debug)]
pub struct CycleGrid {
    cycles: usize,
    points_per_cycle: usize,
    points: usize,
}

/// A point of a grid: its period and its place within the period.
#[derive(Clone, Copy, Debug, PartialEq, Eq, Structural)]
pub struct CyclePoint {
    pub cycle: usize,
    pub step: usize,
}

impl CycleGrid {
    pub closed spec fn spec_cycles(self) -> usize {
        self.cycles
    }

    pub closed spec fn spec_points_per_cycle(self) -> usize {
        self.points_per_cycle
    }

    pub closed spec fn spec_points(self) -> usize {
        self.points
    }

    pub open spec fn wf(self) -> bool {
        &&& self.spec_cycles() > 0
        &&& self.spec_points_per_cycle() > 0
        &&& self.spec_cycles() * self.spec_points_per_cycle() <= self.spec_points()
        &&& self.spec_points() <= self.spec_cycles() * self.spec_points_per_cycle() + 1
    }

    /// A grid over a number of periods, with or without the end of the last one.
    pub fn new(cycles: usize, points_per_cycle: usize, endpoint: bool) -> (result: Result<Self>)
        ensures
            match result {
                Ok(grid) => {
                    &&& grid.wf()
                    &&& grid.spec_cycles() == cycles
                    &&& grid.spec_points_per_cycle() == points_per_cycle
                    &&& grid.spec_points() == cycles * points_per_cycle + (if endpoint {
                        1int
                    } else {
                        0
                    })
                },
                Err(error) => error is InvalidOptions && (cycles == 0 || points_per_cycle == 0
                    || cycles * points_per_cycle + (if endpoint {
                    1int
                } else {
                    0
                }) > usize::MAX),
            },
    {
        if cycles == 0 || points_per_cycle == 0 {
            return Err(
                QmbedError::InvalidOptions(
                    "Floquet time-vector controls must be positive".to_string(),
                ),
            );
        }
        let extra: usize = if endpoint {
            1
        } else {
            0
        };
        match cycles.checked_mul(points_per_cycle) {
            Some(inner) => match inner.checked_add(extra) {
                Some(points) => Ok(CycleGrid { cycles, points_per_cycle, points }),
                None => Err(
                    QmbedError::InvalidOptions("Floquet time-vector overflow".to_string()),
                ),
            },
            None => Err(QmbedError::InvalidOptions("Floquet time-vector overflow".to_string())),
        }
    }

    pub fn cycles(&self) -> (cycles: usize)
        ensures
            cycles == self.spec_cycles(),
    {
        self.cycles
    }

    /// The number of points.
    pub fn points(&self) -> (points: usize)
        ensures
            points == self.spec_points(),
    {
        self.points
    }

    /// The point of the grid has the index.
    pub open spec fn passes(self, index: usize, point: CyclePoint) -> bool {
        &&& point.step < self.spec_points_per_cycle()
        &&& index == point.cycle * self.spec_points_per_cycle() + point.step
    }

    /// The period of a point and its place within the period.
    pub fn coordinate(&self, index: usize) -> (result: Result<CyclePoint>)
        requires
            self.wf(),
        ensures
            match result {
                Ok(point) => index < self.spec_points() && self.passes(index, point),
                Err(error) => error is InvalidOptions && index >= self.spec_points(),
            },
    {
        if index >= self.points {
            return Err(
                QmbedError::InvalidOptions("Floquet time index is out of bounds".to_string()),
            );
        }
        proof {
            vstd::arithmetic::div_mod::lemma_fundamental_div_mod(
                index as int,
                self.points_per_cycle as int,
            );
            vstd::arithmetic::mul::lemma_mul_is_commutative(
                self.points_per_cycle as int,
                index as int / self.points_per_cycle as int,
            );
        }
        Ok(CyclePoint { cycle: index / self.points_per_cycle, step: index % self.points_per_cycle })
    }
}


/// The steps of a drive all act on the same space.
pub open spec fn one_dimension(shapes: Seq<(usize, usize)>) -> bool {
    forall|i: int|
        0 <= i < shapes.len() ==> #[trigger] shapes[i] == (shapes[0].0, shapes[0].0)
}

/// The dimension of the space that the steps of a drive act on.
pub fn common_dimension(shapes: &[(usize, usize)]) -> (result: Result<usize>)
    ensures
        match result {
            Ok(dimension) => shapes@.len() > 0 && one_dimension(shapes@) && dimension
                == shapes@[0].0,
            Err(error) => if shapes@.len() == 0 {
                error is InvalidOptions
            } else {
                error is DimensionMismatch && !one_dimension(shapes@)
            },
        },
{
    if shapes.len() == 0 {
        return Err(
            QmbedError::InvalidOptions("Floquet requires at least one drive step".to_string()),
        );
    }
    let dimension: usize = shapes[0].0;
    let mut index: usize = 0;
    while index < shapes.len()
        invariant
            shapes@.len() > 0,
            dimension == shapes@[0].0,
            index <= shapes@.len(),
            forall|i: int| 0 <= i < index ==> #[trigger] shapes@[i] == (dimension, dimension),
        decreases shapes@.len() - index,
    {
        let (rows, columns): (usize, usize) = shapes[index];
        if rows != dimension || columns != dimension {
            assert(shapes@[index as int] != (shapes@[0].0, shapes@[0].0));
            return Err(
                QmbedError::DimensionMismatch(
                    "all drive steps must have the same square shape".to_string(),
                ),
            );
        }
        index = index + 1;
    }
    Ok(dimension)
}

/// A column of a square matrix stored by rows.
pub open spec fn column_of<V>(matrix: Seq<V>, size: int, column: int) -> Seq<V> {
    Seq::new(size as nat, |row: int| lindblad::cell(matrix, size, row, column))
}

/// A row of a square matrix stored by rows, conjugated.
pub open spec fn mirrored_row<V: Amplitude>(matrix: Seq<V>, size: int, row: int) -> Seq<V> {
    Seq::new(size as nat, |column: int| lindblad::cell(matrix, size, row, column).mirror())
}

/// A cell of minus the imaginary unit times the commutator of a Hermitian map and a
/// density matrix: the map acts on columns from the left, and on conjugated rows from
/// the right.
pub open spec fn flow_cell<V: Amplitude, O: LinearOperator<V>>(
    hamiltonian: &O,
    density: Seq<V>,
    size: int,
    row: int,
    column: int,
) -> V {
    lindblad::minus_i::<V>().product(
        lindblad::minus(
            hamiltonian.maps(column_of(density, size, column))->0[row],
            hamiltonian.maps(mirrored_row(density, size, row))->0[column].mirror(),
        ),
    )
}

/// The map is square and the density matrix has its shape.
pub open spec fn matching_density<V: Amplitude, O: LinearOperator<V>>(
    hamiltonian: &O,
    density: Seq<V>,
) -> bool {
    &&& hamiltonian.extent().0 == hamiltonian.extent().1
    &&& density.len() == hamiltonian.extent().0 * hamiltonian.extent().0
}

/// The map refuses a column or a conjugated row of the density matrix.
pub open spec fn refuses_part<V: Amplitude, O: LinearOperator<V>>(
    hamiltonian: &O,
    density: Seq<V>,
    at: int,
) -> bool {
    let size = hamiltonian.extent().0 as int;
    0 <= at < size && (hamiltonian.maps(column_of(density, size, at)) is None || hamiltonian.maps(
        mirrored_row(density, size, at),
    ) is None)
}

/// The map refuses a column of the density matrix with the error, and none before it.
pub open spec fn refuses_column<V: Amplitude, O: LinearOperator<V>>(
    hamiltonian: &O,
    density: Seq<V>,
    at: int,
    error: QmbedError,
) -> bool {
    let size = hamiltonian.extent().0 as int;
    &&& 0 <= at < size
    &&& hamiltonian.maps(column_of(density, size, at)) is None
    &&& hamiltonian.refuses(column_of(density, size, at), error)
    &&& forall|c: int|
        0 <= c < at ==> (#[trigger] hamiltonian.maps(column_of(density, size, c))) is Some
}

/// The map takes every column of the density matrix, refuses a conjugated row with the
/// error, and none before it.
pub open spec fn refuses_row<V: Amplitude, O: LinearOperator<V>>(
    hamiltonian: &O,
    density: Seq<V>,
    at: int,
    error: QmbedError,
) -> bool {
    let size = hamiltonian.extent().0 as int;
    &&& 0 <= at < size
    &&& hamiltonian.maps(mirrored_row(density, size, at)) is None
    &&& hamiltonian.refuses(mirrored_row(density, size, at), error)
    &&& forall|c: int|
        0 <= c < size ==> (#[trigger] hamiltonian.maps(column_of(density, size, c))) is Some
    &&& forall|r: int|
        0 <= r < at ==> (#[trigger] hamiltonian.maps(mirrored_row(density, size, r))) is Some
}

/// The map refuses a part of the density matrix, and the error is the one for the part
/// that comes first.
pub open spec fn refuses_with<V: Amplitude, O: LinearOperator<V>>(
    hamiltonian: &O,
    density: Seq<V>,
    error: QmbedError,
) -> bool {
    ||| exists|at: int| #[trigger] refuses_column(hamiltonian, density, at, error)
    ||| exists|at: int| #[trigger] refuses_row(hamiltonian, density, at, error)
}

fn column_images<V: Amplitude, O: LinearOperator<V>>(
    hamiltonian: &O,
    density: &[V],
    size: usize,
) -> (result: Result<Vec<Vec<V>>>)
    requires
        hamiltonian.usable(),
        hamiltonian.extent() == (size, size),
        density@.len() == size * size,
    ensures
        match result {
            Ok(images) => images@.len() == size && forall|c: int|
                0 <= c < size ==> hamiltonian.maps(column_of(density@, size as int, c)) == Some(
                    (#[trigger] images@[c])@,
                ) && images@[c]@.len() == size,
            Err(error) => exists|at: int| #[trigger]
                refuses_column(hamiltonian, density@, at, error),
        },
{
    let length: usize = density.len();
    let mut images: Vec<Vec<V>> = Vec::new();
    while images.len() < size
        invariant
            hamiltonian.usable(),
            hamiltonian.extent() == (size, size),
            length == density@.len(),
            density@.len() == size * size,
            images@.len() <= size,
            forall|c: int|
                0 <= c < images@.len() ==> hamiltonian.maps(column_of(density@, size as int, c))
                    == Some((#[trigger] images@[c])@) && images@[c]@.len() == size,
        decreases size - images@.len(),
    {
        let column: usize = images.len();
        let mut part: Vec<V> = Vec::new();
        while part.len() < size
            invariant
                column < size,
                length == density@.len(),
                density@.len() == size * size,
                part@.len() <= size,
                forall|r: int|
                    0 <= r < part@.len() ==> #[trigger] part@[r] == lindblad::cell(
                        density@,
                        size as int,
                        r,
                        column as int,
                    ),
            decreases size - part@.len(),
        {
            let row: usize = part.len();
            proof {
                operator::lemma_cell_index(size as int, size as int, row as int, column as int);
            }
            part.push(density[row * size + column]);
        }
        assert(part@ =~= column_of(density@, size as int, column as int));
        let mut image: Vec<V> = operator::zeros(size);
        if let Err(error) = hamiltonian.apply(part.as_slice(), image.as_mut_slice()) {
            proof {
                assert forall|c: int| 0 <= c < column implies (#[trigger] hamiltonian.maps(
                    column_of(density@, size as int, c),
                )) is Some by {
                    assert(images@[c]@.len() == size);
                }
                assert(refuses_column(hamiltonian, density@, column as int, error));
            }
            return Err(error);
        }
        images.push(image);
    }
    Ok(images)
}

/// The derivative of a density matrix stored by rows under a Hermitian map.
pub fn density_derivative<V: Amplitude, O: LinearOperator<V>>(hamiltonian: &O, density: &[V]) -> (result:
    Result<Vec<V>>)
    requires
        hamiltonian.usable(),
    ensures
        match result {
            Ok(values) => {
                let size = hamiltonian.extent().0 as int;
                &&& matching_density(hamiltonian, density@)
                &&& forall|at: int| !#[trigger] refuses_part(hamiltonian, density@, at)
                &&& values@.len() == density@.len()
                &&& forall|row: int, column: int|
                    0 <= row < size && 0 <= column < size ==> #[trigger] lindblad::cell(
                        values@,
                        size,
                        row,
                        column,
                    ) == flow_cell(hamiltonian, density@, size, row, column)
            },
            Err(error) => if !matching_density(hamiltonian, density@) {
                error is DimensionMismatch
            } else {
                refuses_with(hamiltonian, density@, error)
            },
        },
{
    let (size, width): (usize, usize) = hamiltonian.shape();
    let length: usize = density.len();
    let fits: bool = match size.checked_mul(size) {
        Some(area) => size == width && area == length,
        None => false,
    };
    assert(fits == matching_density(hamiltonian, density@));
    if !fits {
        return Err(
            QmbedError::DimensionMismatch(
                "density evolution requires a square Hamiltonian and density matrix".to_string(),
            ),
        );
    }
    let images: Vec<Vec<V>> = match column_images(hamiltonian, density, size) {
        Ok(images) => images,
        Err(error) => {
            return Err(error);
        },
    };
    let turn: V = V::from_local(
        LocalFactor { quarter_turns: 3, numerator: 1, halved: false, radicand: 1 },
    );
    let ghost n = size as int;
    let mut values: Vec<V> = Vec::new();
    let mut row: usize = 0;
    assert(0 * n == 0) by (nonlinear_arith);
    while row < size
        invariant
            n == size,
            hamiltonian.usable(),
            hamiltonian.extent() == (size, size),
            length == density@.len(),
            density@.len() == size * size,
            turn == lindblad::minus_i::<V>(),
            images@.len() == size,
            forall|c: int|
                0 <= c < size ==> hamiltonian.maps(column_of(density@, n, c)) == Some(
                    (#[trigger] images@[c])@,
                ) && images@[c]@.len() == size,
            row <= size,
            values@.len() == row * n,
            forall|at: int| 0 <= at < row ==> !#[trigger] refuses_part(hamiltonian, density@, at),
            forall|r: int, c: int|
                0 <= r < row && 0 <= c < n ==> #[trigger] lindblad::cell(values@, n, r, c)
                    == flow_cell(hamiltonian, density@, n, r, c),
        decreases size - row,
    {
        let mut part: Vec<V> = Vec::new();
        while part.len() < size
            invariant
                n == size,
                row < size,
                length == density@.len(),
                density@.len() == size * size,
                part@.len() <= size,
                forall|c: int|
                    0 <= c < part@.len() ==> #[trigger] part@[c] == lindblad::cell(
                        density@,
                        n,
                        row as int,
                        c,
                    ).mirror(),
            decreases size - part@.len(),
        {
            let column: usize = part.len();
            proof {
                operator::lemma_cell_index(n, n, row as int, column as int);
            }
            part.push(density[row * size + column].conjugate());
        }
        assert(part@ =~= mirrored_row(density@, n, row as int));
        let mut image: Vec<V> = operator::zeros(size);
        if let Err(error) = hamiltonian.apply(part.as_slice(), image.as_mut_slice()) {
            proof {
                assert forall|c: int| 0 <= c < n implies (#[trigger] hamiltonian.maps(
                    column_of(density@, n, c),
                )) is Some by {
                    assert(images@[c]@.len() == size);
                }
                assert forall|r: int| 0 <= r < row implies (#[trigger] hamiltonian.maps(
                    mirrored_row(density@, n, r),
                )) is Some by {
                    assert(!refuses_part(hamiltonian, density@, r));
                }
                assert(refuses_row(hamiltonian, density@, row as int, error));
            }
            return Err(error);
        }
        let ghost before = values@;
        let mut column: usize = 0;
        while column < size
            invariant
                n == size,
                row < size,
                column <= size,
                turn == lindblad::minus_i::<V>(),
                images@.len() == size,
                forall|c: int|
                    0 <= c < size ==> hamiltonian.maps(column_of(density@, n, c)) == Some(
                        (#[trigger] images@[c])@,
                    ) && images@[c]@.len() == size,
                image@.len() == size,
                hamiltonian.maps(mirrored_row(density@, n, row as int)) == Some(image@),
                before.len() == row * n,
                values@.len() == row * n + column,
                forall|i: int| 0 <= i < before.len() ==> #[trigger] values@[i] == before[i],
                forall|c: int|
                    0 <= c < column ==> #[trigger] values@[row * n + c] == flow_cell(
                        hamiltonian,
                        density@,
                        n,
                        row as int,
                        c,
                    ),
            decreases size - column,
        {
            assert(images@[column as int]@.len() == size);
            let left: V = images[column][row];
            let right: V = image[column].conjugate();
            values.push(turn.times(left.plus(right.times(V::minus_one()))));
            column = column + 1;
        }
        proof {
            assert((row + 1) * n == row * n + n) by (nonlinear_arith);
            assert forall|r: int, c: int| 0 <= r < row + 1 && 0 <= c < n implies #[trigger] lindblad::cell(
            values@, n, r, c) == flow_cell(hamiltonian, density@, n, r, c) by {
                if r < row {
                    operator::lemma_cell_index(row as int, n, r, c);
                    assert(lindblad::cell(before, n, r, c) == flow_cell(
                        hamiltonian,
                        density@,
                        n,
                        r,
                        c,
                    ));
                } else {
                    assert(values@[row * n + c] == flow_cell(
                        hamiltonian,
                        density@,
                        n,
                        row as int,
                        c,
                    ));
                }
            }
            assert(images@[row as int]@.len() == size);
            assert(!refuses_part(hamiltonian, density@, row as int));
        }
        row = row + 1;
    }
    proof {
        assert forall|at: int| !#[trigger] refuses_part(hamiltonian, density@, at) by {
            if 0 <= at < size {
            }
        }
    }
    Ok(values)
}

} // verus!
