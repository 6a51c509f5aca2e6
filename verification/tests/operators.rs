use num_complex::Complex64;
use qmbed::basis::{Basis, SpinBasis1D};
use qmbed::block::{block_diag_hamiltonian, BlockOps, DynamicBlockOps};
use qmbed::dynamics::density_derivative;
use qmbed::kernels::gather;
use qmbed::lindblad::LindbladGenerator;
use qmbed::local::{Bits, LocalFactor, Reduction};
use qmbed::measure::{
    energy_window_indices, expectation, matrix_element, observables_vs_time, partial_trace,
    partial_trace_density, partial_trace_density_subsystem, partial_trace_subsystem,
    quantum_fluctuation, Observable,
};
use qmbed::operator::{
    anticommutator, apply_sector_shift, commutator, get_matvec_function, matmat, matvec, rmatmat,
    rmatvec, AdjointLinearOperator, Coupling, Dynamic, Hamiltonian, LinearOperator, MatrixFormat,
    Operator, OperatorBuilder, OperatorTerm, QuantumComponent, QuantumLinearOperator,
    QuantumOperator, Static, TimeDependentOperator, TimeOperator, TransposedLinearOperator,
};
use qmbed::quantum::Parameter;
use qmbed::runtime::{
    Accelerator, CpuBuffer, CpuRuntime, ExecutionProfile, Runtime, RuntimeLinearOperator,
};
use qmbed::scalar::{Amplitude, Multiplicity, Normed, Scalar};
use qmbed::shifted::shifted_triplets;
use qmbed::solve::linear_combination_qt;
use qmbed::timed::Moment;
use qmbed::triplets::Triplet;
use qmbed::{QmbedError, Result};

/// A complex number.
#[derive(Clone, Copy, Debug, PartialEq)]
struct C(Complex64);

fn c(re: f64) -> C {
    C(Complex64::new(re, 0.0))
}

#[allow(dead_code)]
fn z(re: f64, im: f64) -> C {
    C(Complex64::new(re, im))
}

#[allow(dead_code)]
fn close(actual: C, expected: C, epsilon: f64) {
    assert!(
        (actual.0 - expected.0).norm() <= epsilon,
        "{} is not {}",
        actual.0,
        expected.0
    );
}

impl Scalar for C {
    type Tolerance = f64;

    fn lemma_zero() {}

    fn zero() -> C {
        c(0.0)
    }

    fn one() -> C {
        c(1.0)
    }

    fn minus_one() -> C {
        c(-1.0)
    }

    fn plus(self, other: C) -> C {
        C(self.0 + other.0)
    }

    fn times(self, other: C) -> C {
        C(self.0 * other.0)
    }

    fn conjugate(self) -> C {
        C(self.0.conj())
    }

    fn is_zero(self) -> bool {
        self.0.re.to_bits() == 0 && self.0.im.to_bits() == 0
    }

    fn is_negligible(self) -> bool {
        self.0.norm() <= f64::EPSILON
    }

    fn is_finite(self) -> bool {
        self.0.re.is_finite() && self.0.im.is_finite()
    }

    fn is_real(self) -> bool {
        self.0.im == 0.0
    }

    fn equals(self, other: C) -> bool {
        self.0 == other.0
    }

    fn within(self, other: C, tolerance: f64) -> bool {
        (self.0 - other.0).norm() <= tolerance
    }

    fn is_usable(tolerance: f64) -> bool {
        tolerance.is_finite() && tolerance >= 0.0
    }

    fn strict() -> f64 {
        1.0e-12
    }
}

impl Amplitude for C {
    fn lemma_bits(self) {}

    fn from_local(factor: LocalFactor) -> C {
        let turn = match factor.quarter_turns {
            0 => Complex64::new(1.0, 0.0),
            1 => Complex64::new(0.0, 1.0),
            2 => Complex64::new(-1.0, 0.0),
            _ => Complex64::new(0.0, -1.0),
        };
        let half = if factor.halved { 0.5 } else { 1.0 };
        C(turn * (factor.numerator as f64 * half * (factor.radicand as f64).sqrt()))
    }

    fn from_reduction(reduction: Reduction) -> C {
        let ratio = reduction.source_orbit as f64 / reduction.target_orbit as f64;
        let angle = std::f64::consts::TAU * reduction.turn as f64 / reduction.steps as f64;
        let phase = if reduction.turn == 0 {
            Complex64::new(1.0, 0.0)
        } else {
            Complex64::from_polar(1.0, angle)
        };
        let given = match reduction.given {
            Some(bits) => C::from_bits(bits).0.conj(),
            None => Complex64::new(1.0, 0.0),
        };
        C(phase * given * ratio.sqrt())
    }

    fn root(sector: usize, power: usize, steps: usize) -> C {
        let angle = -std::f64::consts::TAU * (sector * power) as f64 / steps as f64;
        C(Complex64::from_polar(1.0, angle))
    }

    fn member(phase: C, orbit_size: usize) -> C {
        C(phase.0 / (orbit_size as f64).sqrt())
    }

    fn vanishes(self) -> bool {
        self.0.norm() <= 1.0e-12
    }

    fn is_unity(self) -> bool {
        (self.0 - Complex64::new(1.0, 0.0)).norm() <= 1.0e-10
    }

    fn align(coefficients: &Vec<C>, chosen: usize) -> Option<Vec<C>> {
        let first = coefficients[chosen].0;
        let gauge = first / first.norm();
        let norm = coefficients
            .iter()
            .map(|value| value.0.norm_sqr())
            .sum::<f64>()
            .sqrt();
        let expected = 1.0 / (coefficients.len() as f64).sqrt();
        let mut phases = Vec::new();
        for value in coefficients {
            let normalized = value.0 / (gauge * norm);
            if (normalized.norm() - expected).abs() > 1.0e-10 {
                return None;
            }
            phases.push(C(normalized / expected));
        }
        Some(phases)
    }

    fn to_bits(self) -> Bits {
        Bits {
            first: self.0.re.to_bits(),
            second: self.0.im.to_bits(),
        }
    }

    fn from_bits(bits: Bits) -> C {
        z(f64::from_bits(bits.first), f64::from_bits(bits.second))
    }
}

impl Normed for C {
    type Magnitude = f64;

    fn no_magnitude() -> f64 {
        0.0
    }

    fn norm_square(self) -> f64 {
        self.0.norm_sqr()
    }

    fn add_magnitudes(first: f64, second: f64) -> f64 {
        first + second
    }

    fn divided(self, total: f64) -> C {
        C(self.0 / total)
    }

    fn root(total: f64) -> f64 {
        total.sqrt()
    }

    fn quotient(part: f64, total: f64) -> f64 {
        part / total
    }

    fn excess(first: f64, second: f64) -> f64 {
        (first - second).max(0.0)
    }

    fn is_at_most(total: f64, bound: f64) -> bool {
        total <= bound
    }

    fn is_askable(bound: f64) -> bool {
        bound.is_finite() && bound >= 0.0
    }

    fn is_positive(total: f64) -> bool {
        total.is_finite() && total > f64::EPSILON
    }
}

fn term(operator: &str, couplings: Vec<(f64, Vec<usize>)>) -> OperatorTerm<C> {
    let list = couplings
        .into_iter()
        .map(|(value, sites)| Coupling::new(c(value), sites))
        .collect();
    match OperatorTerm::new(operator, list) {
        Ok(term) => term,
        Err(error) => panic!("{}", error.message()),
    }
}

fn dense(rows: usize, columns: usize, values: Vec<C>) -> Operator<C> {
    Operator::from_dense(rows, columns, values).unwrap()
}

fn diagonal(values: &[f64]) -> Operator<C> {
    let dimension = values.len();
    let mut cells = vec![c(0.0); dimension * dimension];
    for (index, value) in values.iter().enumerate() {
        cells[index * dimension + index] = c(*value);
    }
    dense(dimension, dimension, cells)
}

fn single(basis: &SpinBasis1D, operator: &str, value: f64, format: MatrixFormat) -> Operator<C> {
    OperatorBuilder::on(basis)
        .term(term(operator, vec![(value, vec![0])]))
        .build(format)
        .unwrap()
}

/// A moment on the real line.
#[derive(Clone, Copy)]
struct Time(f64);

impl Moment for Time {
    fn is_settled(self) -> bool {
        self.0.is_finite()
    }
}

/// A Hamiltonian with the time dependence of its parts.
struct Driven {
    hamiltonian: Hamiltonian<C, Dynamic>,
    drives: Vec<fn(f64) -> C>,
}

impl Driven {
    fn values(&self, time: Time) -> Vec<C> {
        self.drives.iter().map(|drive| drive(time.0)).collect()
    }
}

impl TimeDependentOperator<Time, C> for Driven {
    fn shape(&self) -> (usize, usize) {
        self.hamiltonian.static_part().shape
    }

    fn apply_at(&self, time: Time, input: &[C], output: &mut [C]) -> Result<()> {
        self.hamiltonian.apply_at(&self.values(time), input, output)
    }
}

fn sine(time: f64) -> C {
    c(time.sin())
}

fn linear(time: f64) -> C {
    c(time)
}

#[test]
fn linear_operator_is_rectangular_capable() {
    let operator = dense(2, 3, vec![c(1.0), c(0.0), c(2.0), c(0.0), c(-1.0), c(1.0)]);
    let mut output = vec![c(0.0); 2];
    operator
        .apply(&[c(1.0), c(2.0), c(3.0)], &mut output)
        .unwrap();
    assert_eq!(LinearOperator::<C>::shape(&operator), (2, 3));
    close(output[0], c(7.0), 1.0e-12);
    close(output[1], c(1.0), 1.0e-12);
    assert!(matches!(
        operator.apply(&[c(1.0)], &mut output),
        Err(QmbedError::DimensionMismatch(_))
    ));
}

#[test]
fn dynamic_hamiltonian_evaluation_and_action_share_one_semantics() {
    let basis = SpinBasis1D::builder(1).pauli(true).build().unwrap();
    let hamiltonian: Hamiltonian<C, Dynamic> = match OperatorBuilder::on(&basis)
        .term(term("z", vec![(0.25, vec![0])]))
        .build_dynamic(vec![term("x", vec![(1.0, vec![0])])], MatrixFormat::Csc)
    {
        Ok(hamiltonian) => hamiltonian,
        Err(error) => panic!("{}", error.message()),
    };
    assert_eq!(hamiltonian.dynamic_components(), 1);

    let values = [sine(std::f64::consts::FRAC_PI_2)];
    let evaluated = hamiltonian.evaluate(&values, MatrixFormat::Dense).unwrap();
    let mut matrix_free = vec![c(0.0); 2];
    hamiltonian
        .apply_at(&values, &[c(1.0), c(0.0)], &mut matrix_free)
        .unwrap();
    let mut materialized = vec![c(0.0); 2];
    evaluated
        .apply(&[c(1.0), c(0.0)], &mut materialized)
        .unwrap();
    for (actual, expected) in matrix_free.into_iter().zip(materialized) {
        close(actual, expected, 1.0e-12);
    }
    let changed = |result: Result<Hamiltonian<C, Dynamic>>| match result {
        Ok(hamiltonian) => hamiltonian,
        Err(error) => panic!("{}", error.message()),
    };
    for (transformed, expected) in [
        (
            changed(hamiltonian.transpose()),
            evaluated.transpose().unwrap(),
        ),
        (
            changed(hamiltonian.conjugated()),
            evaluated.conjugated().unwrap(),
        ),
        (changed(hamiltonian.adjoint()), evaluated.adjoint().unwrap()),
    ] {
        assert_eq!(
            transformed
                .evaluate(&values, MatrixFormat::Dense)
                .unwrap()
                .to_dense(),
            expected.to_dense()
        );
    }
}

#[test]
fn quantum_operator_uses_required_and_default_parameters() {
    let identity = dense(2, 2, vec![c(1.0), c(0.0), c(0.0), c(1.0)]);
    let sigma_z = dense(2, 2, vec![c(1.0), c(0.0), c(0.0), c(-1.0)]);
    let parameterized = match QuantumOperator::new(vec![
        QuantumComponent::required("field".to_string(), sigma_z),
        QuantumComponent::with_default("offset".to_string(), identity, c(2.0)),
    ]) {
        Ok(operator) => operator,
        Err(error) => panic!("{}", error.message()),
    };
    assert_eq!(parameterized.component_names(), vec!["field", "offset"]);

    let parameters = [Parameter {
        name: "field".to_string(),
        value: c(3.0),
    }];
    let evaluated = parameterized
        .evaluate(&parameters, MatrixFormat::Csr)
        .unwrap();
    let diagonal = evaluated.diagonal();
    close(diagonal[0], c(5.0), 1.0e-12);
    close(diagonal[1], c(-1.0), 1.0e-12);

    let missing = parameterized
        .evaluate(&[], MatrixFormat::Dense)
        .unwrap_err();
    assert!(matches!(missing, QmbedError::InvalidOptions(_)));
}

#[test]
fn operator_algebra_obeys_pauli_identities_and_format_conversion() {
    let x = dense(2, 2, vec![c(0.0), c(1.0), c(1.0), c(0.0)])
        .converted(MatrixFormat::Csc)
        .unwrap();
    let y = dense(2, 2, vec![c(0.0), z(0.0, -1.0), z(0.0, 1.0), c(0.0)])
        .converted(MatrixFormat::Csc)
        .unwrap();

    let xy_commutator = commutator(&x, &y).unwrap().to_dense();
    close(xy_commutator[0], z(0.0, 2.0), 1.0e-12);
    close(xy_commutator[3], z(0.0, -2.0), 1.0e-12);
    let xy_anticommutator = anticommutator(&x, &y).unwrap();
    assert_eq!(xy_anticommutator.nnz(), 0);
    let identity = x.pow(2).unwrap().to_dense();
    close(identity[0], c(1.0), 1.0e-12);
    close(identity[3], c(1.0), 1.0e-12);
    assert_eq!(x.adjoint().unwrap().to_dense(), x.to_dense());
    assert_eq!(x.transpose().unwrap().to_dense(), x.to_dense());
    close(x.trace().unwrap(), c(0.0), 1.0e-12);

    let half = 1.0 / 2.0_f64.sqrt();
    let rotation = dense(2, 2, vec![c(half), c(half), c(half), c(-half)]);
    let rotated = x.rotated(&rotation, 1.0e-12).unwrap();
    close(rotated.diagonal()[0], c(1.0), 1.0e-12);
    close(rotated.diagonal()[1], c(-1.0), 1.0e-12);
}

#[test]
fn quantum_linear_operator_applies_and_replaces_its_diagonal_correction() {
    let base = dense(2, 2, vec![c(0.0), c(1.0), c(1.0), c(0.0)]);
    let mut linear = match QuantumLinearOperator::new(base, vec![c(0.2), c(-0.3)]) {
        Ok(linear) => linear,
        Err(error) => panic!("{}", error.message()),
    };
    let mut output = vec![c(0.0); 2];
    linear.apply(&[c(2.0), c(-1.0)], &mut output).unwrap();
    close(output[0], c(-0.6), 1.0e-12);
    close(output[1], c(2.3), 1.0e-12);
    linear.set_diagonal(vec![c(0.0); 2]).unwrap();
    assert_eq!(
        linear.materialize(MatrixFormat::Dense).unwrap().to_dense(),
        vec![c(0.0), c(1.0), c(1.0), c(0.0)]
    );
    assert!(linear.set_diagonal(vec![c(0.0)]).is_err());
}

#[test]
fn time_operator_algebra_matches_materialized_matrix_arithmetic() {
    let basis = SpinBasis1D::builder(1).pauli(true).build().unwrap();
    let driven = |still: Operator<C>, parts: Vec<Operator<C>>, drives: Vec<fn(f64) -> C>| {
        let hamiltonian = match Hamiltonian::<C, Dynamic>::new(still, parts) {
            Ok(hamiltonian) => hamiltonian,
            Err(error) => panic!("{}", error.message()),
        };
        TimeOperator::<Driven, C>::from_operator::<Time>(Driven {
            hamiltonian,
            drives,
        })
    };
    let left = driven(
        dense(2, 2, vec![c(0.0); 4]).converted(MatrixFormat::Csc).unwrap(),
        vec![single(&basis, "x", 1.0, MatrixFormat::Csc)],
        vec![sine],
    );
    let right = driven(single(&basis, "z", 0.3, MatrixFormat::Csc), Vec::new(), Vec::new());
    let made = |result: Result<TimeOperator<Driven, C>>| match result {
        Ok(operator) => operator,
        Err(error) => panic!("{}", error.message()),
    };
    let sum = made(left.add(&right));
    let product = made(left.product(&right));
    let commuted = made(left.commutator(&right));
    for time in [0.0, 0.2, 0.9] {
        let at = |operator: &TimeOperator<Driven, C>| {
            operator.evaluate(Time(time), MatrixFormat::Dense).unwrap()
        };
        let left_matrix = at(&left);
        let right_matrix = at(&right);
        assert_eq!(
            at(&sum).to_dense(),
            left_matrix.add(&right_matrix).unwrap().to_dense()
        );
        assert_eq!(
            at(&product).to_dense(),
            left_matrix.product(&right_matrix).unwrap().to_dense()
        );
        assert_eq!(
            at(&commuted).to_dense(),
            commutator(&left_matrix, &right_matrix).unwrap().to_dense()
        );
    }
    assert!(left.evaluate(Time(f64::NAN), MatrixFormat::Dense).is_err());
}

#[test]
fn low_level_matvec_supports_scaled_overwrite_and_accumulation() {
    let entry = |row: usize, column: usize, value: f64| Triplet {
        row,
        column,
        value: c(value),
    };
    let operator = Operator::from_triplets(
        2,
        2,
        &[entry(0, 0, 2.0), entry(1, 0, 3.0), entry(1, 1, -1.0)],
        MatrixFormat::Csc,
    )
    .unwrap();
    let input = [z(1.0, 1.0), c(2.0)];
    let mut output = vec![c(7.0); 2];
    matvec(&operator, &input, &mut output, c(0.5), true).unwrap();
    assert_eq!(output, vec![z(1.0, 1.0), z(0.5, 1.5)]);

    let columns = vec![input.to_vec(), vec![c(0.0); 2]];
    assert_eq!(matmat(&operator, &columns).unwrap()[0][0], z(2.0, 2.0));
    assert_eq!(rmatvec(&operator, &input).unwrap()[0], z(8.0, 2.0));
    assert_eq!(rmatmat(&operator, &columns).unwrap().len(), 2);

    get_matvec_function(operator)
        .apply(&input, &mut output, c(2.0), false)
        .unwrap();
    assert_eq!(output, vec![z(5.0, 5.0), z(2.5, 7.5)]);
}

#[test]
fn delayed_and_materialized_static_blocks_agree() {
    let blocks = || vec![diagonal(&[-2.0, 1.0]), diagonal(&[3.0])];
    let delayed = match BlockOps::new::<C>(blocks()) {
        Ok(delayed) => delayed,
        Err(error) => panic!("{}", error.message()),
    };
    let materialized = block_diag_hamiltonian(&blocks(), MatrixFormat::Csc).unwrap();
    assert_eq!(LinearOperator::<C>::shape(&delayed), (3, 3));
    let input = vec![c(1.0), c(-0.5), c(2.0)];
    let mut left = vec![c(0.0); 3];
    let mut right = left.clone();
    delayed.apply(&input, &mut left).unwrap();
    materialized.apply(&input, &mut right).unwrap();
    assert_eq!(left, right);
    assert_eq!(
        delayed.materialize(MatrixFormat::Csr).unwrap().to_dense(),
        materialized.to_dense()
    );
}

#[test]
fn dynamic_blocks_apply_each_sector_at_the_same_time() {
    let block = |still: f64, driven: f64| Driven {
        hamiltonian: match Hamiltonian::<C, Dynamic>::new(
            diagonal(&[still]),
            vec![diagonal(&[driven])],
        ) {
            Ok(hamiltonian) => hamiltonian,
            Err(error) => panic!("{}", error.message()),
        },
        drives: vec![linear],
    };
    let dynamic = match DynamicBlockOps::new::<Time, C>(vec![block(0.0, 2.0), block(1.0, -1.0)]) {
        Ok(dynamic) => dynamic,
        Err(error) => panic!("{}", error.message()),
    };
    let mut output = vec![c(0.0); 2];
    dynamic
        .apply_at(Time(0.25), &[c(2.0), c(4.0)], &mut output)
        .unwrap();
    close(output[0], c(1.0), 1.0e-12);
    close(output[1], c(3.0), 1.0e-12);
}

#[test]
fn sparse_algebra_memory_tracks_nonzeros_not_dimension_squared() {
    let dimension = 16_384;
    let list: Vec<Triplet<C>> = (0..dimension)
        .map(|index| Triplet {
            row: index,
            column: index,
            value: c(2.0),
        })
        .collect();
    let stored = Operator::from_triplets(dimension, dimension, &list, MatrixFormat::Csc).unwrap();
    let squared = stored.product(&stored).unwrap();
    let conjugated = squared.conjugated().unwrap();
    let transposed = conjugated.transpose().unwrap();
    assert_eq!(transposed.format, MatrixFormat::Csc);
    assert_eq!(transposed.nnz(), dimension);
    assert!(transposed.memory_bytes() < 1_000_000);
    assert_eq!(transposed.diagonal()[123], c(4.0));
}

/// A map that hands out its entries and refuses every vector.
struct StoredOnly {
    dimension: usize,
}

impl LinearOperator<C> for StoredOnly {
    fn shape(&self) -> (usize, usize) {
        (self.dimension, self.dimension)
    }

    fn format(&self) -> MatrixFormat {
        MatrixFormat::Csc
    }

    fn apply(&self, _input: &[C], _output: &mut [C]) -> qmbed::Result<()> {
        Err(QmbedError::UnsupportedBackend(
            "column probing must not be used for stored blocks".to_string(),
        ))
    }

    fn apply_transpose(&self, _input: &[C], _output: &mut [C]) -> qmbed::Result<()> {
        Err(QmbedError::UnsupportedBackend(
            "column probing must not be used for stored blocks".to_string(),
        ))
    }

    fn stored_triplets(&self) -> qmbed::Result<Option<Vec<Triplet<C>>>> {
        Ok(Some(
            (0..self.dimension)
                .map(|index| Triplet {
                    row: index,
                    column: index,
                    value: c(index as f64),
                })
                .collect(),
        ))
    }
}

#[test]
fn block_assembly_streams_owned_nonzeros_without_column_probing() {
    let first = StoredOnly { dimension: 4 };
    let second = StoredOnly { dimension: 3 };
    let assembled: Operator<C> =
        block_diag_hamiltonian(&vec![first, second], MatrixFormat::Csr).unwrap();
    assert_eq!(assembled.shape, (7, 7));
    assert_eq!(assembled.nnz(), 5);
    assert_eq!(assembled.diagonal()[6], c(2.0));
}

/// A map that doubles vectors and keeps no entries.
struct Doubling {
    dimension: usize,
}

impl LinearOperator<C> for Doubling {
    fn shape(&self) -> (usize, usize) {
        (self.dimension, self.dimension)
    }

    fn format(&self) -> MatrixFormat {
        MatrixFormat::MatrixFree
    }

    fn apply(&self, input: &[C], output: &mut [C]) -> qmbed::Result<()> {
        for (value, &from) in output.iter_mut().zip(input) {
            *value = from.plus(from);
        }
        Ok(())
    }

    fn apply_transpose(&self, input: &[C], output: &mut [C]) -> qmbed::Result<()> {
        LinearOperator::apply(self, input, output)
    }

    fn stored_triplets(&self) -> qmbed::Result<Option<Vec<Triplet<C>>>> {
        Ok(None)
    }
}

#[test]
fn block_assembly_probes_maps_that_keep_no_entries() {
    let sum = match BlockOps::new::<C>(vec![Doubling { dimension: 2 }, Doubling { dimension: 1 }]) {
        Ok(sum) => sum,
        Err(error) => panic!("{}", error.message()),
    };
    assert!(LinearOperator::<C>::stored_triplets(&sum).unwrap().is_none());
    let assembled: Operator<C> = sum.materialize(MatrixFormat::Csc).unwrap();
    assert_eq!(assembled.shape, (3, 3));
    assert_eq!(assembled.nnz(), 3);
    assert_eq!(assembled.value_at(2, 2), c(2.0));

    let stored = BlockOps::new::<C>(vec![StoredOnly { dimension: 2 }, StoredOnly { dimension: 2 }])
        .ok()
        .unwrap();
    let entries = LinearOperator::<C>::stored_triplets(&stored).unwrap().unwrap();
    assert_eq!(entries.len(), 4);
    assert_eq!((entries[3].row, entries[3].column), (3, 3));
    assert_eq!(entries[3].value, c(1.0));
}

#[test]
fn conversion_keeps_values_that_count_as_zero() {
    let small = c(1.0e-20);
    let matrix = dense(2, 2, vec![c(1.0), small, c(0.0), c(-3.0)]);
    for format in [
        MatrixFormat::Csc,
        MatrixFormat::Csr,
        MatrixFormat::Dia,
        MatrixFormat::MatrixFree,
        MatrixFormat::Dense,
    ] {
        let image = matrix.converted(format).unwrap();
        assert_eq!(image.format, format);
        assert_eq!(image.shape, (2, 2));
        assert_eq!(image.value_at(0, 1), small);
        assert_eq!(image.value_at(1, 0), c(0.0));
        assert_eq!(image.value_at(1, 1), c(-3.0));
        let back = image.converted(MatrixFormat::Dense).unwrap();
        assert_eq!(back.to_dense(), matrix.to_dense());
    }
    assert!(matches!(
        dense(1, 1, vec![c(f64::NAN)]).converted(MatrixFormat::Csc),
        Err(QmbedError::InvalidCoupling(_))
    ));
}

#[test]
fn cpu_runtime_applies_the_same_scientific_operator() {
    let basis = SpinBasis1D::builder(1).pauli(true).build().unwrap();
    let operator = single(&basis, "x", 1.0, MatrixFormat::Csc);
    let runtime = CpuRuntime::new(2).unwrap();
    let input: CpuBuffer<C> = runtime.upload(&[c(1.0), c(0.0)]).unwrap();
    let mut output: CpuBuffer<C> = runtime.zeros(2).unwrap();

    operator.apply_on(&runtime, &input, &mut output).unwrap();

    assert_eq!(runtime.to_host(&output).unwrap(), vec![c(0.0), c(1.0)]);
    assert_eq!(CpuRuntime::capabilities(&runtime).threads_per_rank, 2);
}

#[test]
fn accelerator_and_distributed_requests_never_silently_fall_back() {
    let gpu = ExecutionProfile {
        accelerator: Accelerator::Gpu { device: 0 },
        ranks: 1,
        threads_per_rank: 4,
    };
    let mpi = ExecutionProfile::distributed_cpu(4, 8);
    assert!(matches!(
        CpuRuntime::from_profile(gpu),
        Err(QmbedError::UnsupportedBackend(_))
    ));
    assert!(matches!(
        CpuRuntime::from_profile(mpi),
        Err(QmbedError::UnsupportedBackend(_))
    ));
    assert!(matches!(
        CpuRuntime::new(0),
        Err(QmbedError::InvalidOptions(_))
    ));
}

#[test]
fn cpu_vector_primitives_have_one_runtime_contract() {
    let runtime = CpuRuntime::new(1).unwrap();
    let left: CpuBuffer<C> = runtime.upload(&[z(1.0, 1.0), c(2.0)]).unwrap();
    let mut right: CpuBuffer<C> = runtime.upload(&[z(0.0, 1.0), c(1.0)]).unwrap();
    runtime.axpy(c(0.5), &left, &mut right).unwrap();
    assert_eq!(
        runtime.to_host(&right).unwrap(),
        vec![z(0.5, 1.5), c(2.0)]
    );
    let square: C = runtime.dotc(&left, &left).unwrap();
    assert!((square.0.re.sqrt() - 6.0_f64.sqrt()).abs() < 1.0e-12);
    let short: CpuBuffer<C> = runtime.zeros(1).unwrap();
    assert!(matches!(
        runtime.axpy(c(1.0), &short, &mut right),
        Err(QmbedError::DimensionMismatch(_))
    ));
}

#[test]
fn workers_share_the_items_and_results_keep_their_order() {
    let runtime = CpuRuntime::new(3).unwrap();
    let mut seen = Vec::new();
    for worker in 0..runtime.workers(7) {
        seen.extend(runtime.share(worker, 7));
    }
    seen.sort();
    assert_eq!(seen, (0..7).collect::<Vec<_>>());
    assert_eq!(runtime.share(1, 7), vec![1, 4]);
    assert_eq!(runtime.workers(2), 2);

    let arrived = vec![(2, Ok("c")), (0, Ok("a")), (1, Ok("b"))];
    assert_eq!(gather(3, arrived).unwrap(), vec!["a", "b", "c"]);
    let failed: Vec<(usize, Result<u8>)> = vec![
        (2, Err(QmbedError::NonHermitian)),
        (0, Ok(1)),
        (1, Err(QmbedError::RankDeficient)),
    ];
    assert!(matches!(gather(3, failed), Err(QmbedError::RankDeficient)));
    let missing: Vec<(usize, Result<u8>)> = vec![(1, Ok(1))];
    assert!(matches!(
        gather(2, missing),
        Err(QmbedError::UnsupportedBackend(_))
    ));
}

#[test]
fn observables_and_fluctuations_match_two_level_anchors() {
    let operator = dense(2, 2, vec![c(1.0), c(0.0), c(0.0), c(-1.0)]);
    let half = 1.0 / 2.0_f64.sqrt();
    let plus = vec![c(half), c(half)];
    assert!(expectation(&operator, &plus).unwrap().0.re.abs() <= 1.0e-12);
    assert!(matrix_element(&plus, &operator, &plus).unwrap().0.re.abs() <= 1.0e-12);
    assert!((quantum_fluctuation(&operator, &plus).unwrap() - 1.0).abs() <= 1.0e-12);

    let states = vec![plus.clone(), vec![c(1.0), c(0.0)]];
    let observables = vec![Observable {
        name: "z".to_string(),
        operator,
    }];
    let values = observables_vs_time(2, &states, &observables).unwrap();
    assert!(values[0][0].0.re.abs() <= 1.0e-12);
    assert!((values[0][1].0.re - 1.0).abs() <= 1.0e-12);
}

#[test]
fn measurements_refuse_what_does_not_match() {
    let operator = diagonal(&[1.0, -1.0]);
    assert!(expectation(&operator, &[c(1.0)]).is_err());
    assert!(matches!(
        quantum_fluctuation(&operator, &[c(1.0)]).unwrap_err(),
        QmbedError::DimensionMismatch(_)
    ));
    assert!(matches!(
        quantum_fluctuation(&operator, &[c(0.0), c(0.0)]).unwrap_err(),
        QmbedError::InvalidOptions(_)
    ));
    let states = vec![vec![c(1.0), c(0.0)]];
    let named = |name: &str| Observable {
        name: name.to_string(),
        operator: diagonal(&[1.0, -1.0]),
    };
    assert!(matches!(
        observables_vs_time(2, &states, &[named("z")]).unwrap_err(),
        QmbedError::DimensionMismatch(_)
    ));
    assert!(matches!(
        observables_vs_time(1, &states, &[named("z"), named("z")]).unwrap_err(),
        QmbedError::InvalidOptions(_)
    ));
    assert!(matches!(
        observables_vs_time(1, &states, &[named("")]).unwrap_err(),
        QmbedError::InvalidOptions(_)
    ));
    assert!(matches!(
        observables_vs_time(1, &[vec![c(1.0)]], &[named("z")]).unwrap_err(),
        QmbedError::DimensionMismatch(_)
    ));
}

#[test]
fn partial_traces_distinguish_product_and_bell_states() {
    let half = 1.0 / 2.0_f64.sqrt();
    let bell = vec![c(half), c(0.0), c(0.0), c(half)];
    let reduced = partial_trace(&bell, 2, 2).unwrap();
    close(reduced[0], c(0.5), 1.0e-12);
    close(reduced[1], c(0.0), 1.0e-12);
    close(reduced[3], c(0.5), 1.0e-12);
    let product = vec![c(2.0), c(0.0), c(0.0), c(0.0)];
    let reduced = partial_trace(&product, 2, 2).unwrap();
    assert_eq!(reduced, vec![c(1.0), c(0.0), c(0.0), c(0.0)]);
    assert!(matches!(
        partial_trace(&[c(0.0); 4], 2, 2),
        Err(QmbedError::InvalidOptions(_))
    ));
    assert!(matches!(
        partial_trace(&bell, 2, 3),
        Err(QmbedError::DimensionMismatch(_))
    ));
}

#[test]
fn arbitrary_site_partial_trace_supports_noncontiguous_subsystems() {
    let half = 1.0 / 2.0_f64.sqrt();
    let mut ghz = vec![c(0.0); 8];
    ghz[0] = c(half);
    ghz[7] = c(half);
    let reduced = partial_trace_subsystem(&ghz, &[2, 2, 2], &[0, 2]).unwrap();
    assert_eq!(reduced.len(), 16);
    close(reduced[0], c(0.5), 1.0e-12);
    close(reduced[15], c(0.5), 1.0e-12);
    close(reduced[3], c(0.0), 1.0e-12);
    let density = projection_on(&ghz);
    let mixed = partial_trace_density_subsystem(&density, &[2, 2, 2], &[0, 2]).unwrap();
    for (actual, expected) in mixed.iter().zip(reduced) {
        close(*actual, expected, 1.0e-12);
    }

    let state: Vec<C> = (0..6).map(|value| z(value as f64, 1.0)).collect();
    assert_eq!(
        partial_trace_subsystem(&state, &[2, 3], &[0]).unwrap(),
        partial_trace(&state, 2, 3).unwrap()
    );
    let turned: Vec<C> = [0, 3, 1, 4, 2, 5].iter().map(|index| state[*index]).collect();
    assert_eq!(
        partial_trace_subsystem(&state, &[2, 3], &[1]).unwrap(),
        partial_trace(&turned, 3, 2).unwrap()
    );
    assert!(matches!(
        partial_trace_subsystem(&state, &[2, 3], &[2]),
        Err(QmbedError::InvalidSite { site: 2, sites: 2 })
    ));
    assert!(partial_trace_subsystem(&state, &[2, 3], &[0, 0]).is_err());
    assert!(partial_trace_subsystem(&state, &[2, 2], &[0]).is_err());
}

#[test]
fn lindblad_amplitude_damping_preserves_trace() {
    let zero = dense(2, 2, vec![c(0.0); 4]);
    let lowering = dense(2, 2, vec![c(0.0), c(1.0), c(0.0), c(0.0)]);
    let generator: LindbladGenerator<C> = match LindbladGenerator::new(&zero, &[lowering]) {
        Ok(generator) => generator,
        Err(error) => panic!("{}", error.message()),
    };
    let mut density = vec![c(0.0), c(0.0), c(0.0), c(1.0)];
    let steps = 2000;
    let step = std::f64::consts::LN_2 / steps as f64;
    for _ in 0..steps {
        let mut sum = density.clone();
        let mut power = density.clone();
        for order in 1..5 {
            let mut next = vec![c(0.0); 4];
            generator.apply(&power, &mut next).unwrap();
            power = next
                .iter()
                .map(|value| C(value.0 * (step / order as f64)))
                .collect();
            for (total, value) in sum.iter_mut().zip(&power) {
                *total = total.plus(*value);
            }
        }
        density = sum;
    }
    assert!((density[0].0.re + density[3].0.re - 1.0).abs() < 1.0e-10);
    assert!((density[3].0.re - 0.5).abs() < 1.0e-10);
}

#[test]
fn algebraic_views_transpose_and_conjugate() {
    let values = vec![z(1.0, 2.0), c(3.0), z(0.0, -1.0), c(0.5)];
    let mut output = vec![c(0.0); 2];
    let view = TransposedLinearOperator::new(dense(2, 2, values.clone()));
    view.apply(&[c(1.0), c(1.0)], &mut output).unwrap();
    assert_eq!(output, vec![z(1.0, 1.0), c(3.5)]);
    let view = AdjointLinearOperator::new(dense(2, 2, values));
    view.apply(&[c(1.0), c(1.0)], &mut output).unwrap();
    assert_eq!(output, vec![z(1.0, -1.0), c(3.5)]);
}

#[test]
fn mirroring_twice_gives_the_matrix_back() {
    let entry = |row: usize, column: usize, value: C| Triplet { row, column, value };
    let list = [entry(0, 2, z(1.0, 2.0)), entry(1, 0, c(3.0))];
    for format in [
        MatrixFormat::Dense,
        MatrixFormat::Csc,
        MatrixFormat::Csr,
        MatrixFormat::Dia,
        MatrixFormat::MatrixFree,
    ] {
        let matrix = Operator::from_triplets(2, 3, &list, format).unwrap();
        let once = matrix.adjoint().unwrap();
        assert_eq!(once.shape, (3, 2));
        assert_eq!(once.value_at(2, 0), z(1.0, -2.0));
        assert_eq!(once.adjoint().unwrap().to_dense(), matrix.to_dense());
    }
}

#[test]
fn streaming_gives_what_the_matrix_gives() {
    let source = SpinBasis1D::builder(5).up(2).build().unwrap();
    let target = SpinBasis1D::builder(5).up(3).build().unwrap();
    let probe = || term("+z", vec![(1.0, vec![0, 1]), (0.5, vec![3, 2])]);
    let ways = || {
        let coupling = |sites: Vec<usize>| Coupling::new(Multiplicity { ways: 3 }, sites);
        match OperatorTerm::new("+z", vec![coupling(vec![0, 1]), coupling(vec![3, 2])]) {
            Ok(term) => term,
            Err(error) => panic!("{}", error.message()),
        }
    };
    let matrix = OperatorBuilder::between(&source, &target)
        .term(probe())
        .build(MatrixFormat::Csr)
        .unwrap();
    let input: Vec<C> = (0..source.len()).map(|index| z(index as f64, 0.25)).collect();
    let mut streamed = vec![c(0.0); target.len()];
    apply_sector_shift(&source, &target, &[probe()], &input, &mut streamed).unwrap();
    let mut expected = vec![c(0.0); target.len()];
    matrix.apply(&input, &mut expected).unwrap();
    for (actual, value) in streamed.iter().zip(&expected) {
        close(*actual, *value, 1.0e-12);
    }

    let counts = OperatorBuilder::between(&source, &target)
        .term(ways())
        .build(MatrixFormat::Dia)
        .unwrap();
    let input: Vec<Multiplicity> = (0..source.len())
        .map(|index| Multiplicity { ways: index as u64 })
        .collect();
    let mut streamed = vec![Multiplicity { ways: 0 }; target.len()];
    apply_sector_shift(&source, &target, &[ways()], &input, &mut streamed).unwrap();
    let mut expected = vec![Multiplicity { ways: 0 }; target.len()];
    counts.apply(&input, &mut expected).unwrap();
    assert_eq!(streamed, expected);
}

#[test]
fn shifted_matrices_fill_their_diagonal() {
    let list =
        shifted_triplets(3, &[0, 0, 2, 2], &[0, 1], &[c(2.0), c(5.0)], c(5.0)).unwrap();
    for index in 0..3 {
        assert!(list
            .iter()
            .any(|entry| entry.row == index && entry.column == index));
    }
}

#[test]
fn linear_combinations_add_scaled_vectors() {
    let basis = vec![vec![c(1.0), c(2.0)], vec![c(3.0), c(-1.0)]];
    assert_eq!(
        linear_combination_qt(&basis, &[c(2.0), z(0.0, 1.0)]).unwrap(),
        vec![z(2.0, 3.0), z(4.0, -1.0)]
    );
    assert!(linear_combination_qt(&basis, &[c(1.0)]).is_err());
    assert!(linear_combination_qt(&[vec![c(1.0)], vec![]], &[c(1.0), c(1.0)]).is_err());
}

#[test]
fn static_hamiltonians_are_square() {
    let wide = dense(1, 2, vec![c(1.0), c(2.0)]);
    assert!(Hamiltonian::<C, Static>::new(wide).is_err());
    let square = match Hamiltonian::<C, Static>::new(diagonal(&[1.0, 2.0])) {
        Ok(hamiltonian) => hamiltonian,
        Err(error) => panic!("{}", error.message()),
    };
    assert_eq!(square.operator().diagonal(), vec![c(1.0), c(2.0)]);
}

#[test]
fn density_matrices_flow_by_the_commutator() {
    let flip = Operator::from_dense(2, 2, vec![c(0.0), c(1.0), c(1.0), c(0.0)]).unwrap();
    let pure = vec![c(1.0), c(0.0), c(0.0), c(0.0)];
    let slope = density_derivative(&flip, &pure).unwrap();
    let expected = [c(0.0), z(0.0, 1.0), z(0.0, -1.0), c(0.0)];
    for (actual, wanted) in slope.iter().zip(expected) {
        close(*actual, wanted, 1.0e-15);
    }
    assert!(matches!(
        density_derivative(&flip, &pure[..3]).unwrap_err(),
        QmbedError::DimensionMismatch(_)
    ));
}

fn applied(operator: &Operator<C>, input: &[C]) -> Vec<C> {
    let mut output = vec![c(0.0); operator.shape.0];
    operator.apply(input, &mut output).unwrap();
    output
}

#[test]
fn products_and_sums_act_as_maps() {
    let left = dense(2, 3, vec![c(1.0), c(0.0), c(2.0), c(0.0), c(3.0), c(0.0)]);
    let right = dense(3, 2, vec![c(0.0), c(4.0), c(5.0), c(0.0), c(0.0), c(6.0)]);
    let input = [c(7.0), c(8.0)];
    let between = applied(&right, &input);
    assert_eq!(between, vec![c(32.0), c(35.0), c(48.0)]);
    let product = left.product(&right).unwrap();
    assert_eq!(applied(&product, &input), applied(&left, &between));
    assert_eq!(applied(&product, &input), vec![c(128.0), c(105.0)]);

    let square = dense(2, 2, vec![c(1.0), c(2.0), c(3.0), c(4.0)]);
    let sum = product.combine(&square, c(2.0)).unwrap();
    assert_eq!(applied(&sum, &input), vec![c(174.0), c(211.0)]);

    // Pairing with an image and with the image under the transpose.
    let dual = [c(2.0), c(-1.0)];
    let image = applied(&square, &input);
    let back = rmatvec(&square, &dual).unwrap();
    let first = dual[0].times(image[0]).plus(dual[1].times(image[1]));
    let second = back[0].times(input[0]).plus(back[1].times(input[1]));
    assert_eq!(first, second);
    assert_eq!(first, c(-7.0));
}

/// A map that refuses vectors whose first component is not zero.
struct Choosy;

impl LinearOperator<C> for Choosy {
    fn shape(&self) -> (usize, usize) {
        (2, 2)
    }

    fn format(&self) -> MatrixFormat {
        MatrixFormat::MatrixFree
    }

    fn apply(&self, input: &[C], output: &mut [C]) -> qmbed::Result<()> {
        if input[0] != c(0.0) {
            return Err(QmbedError::InvalidSector(format!("component {}", input[0].0.re)));
        }
        output.copy_from_slice(input);
        Ok(())
    }

    fn apply_transpose(&self, input: &[C], output: &mut [C]) -> qmbed::Result<()> {
        LinearOperator::apply(self, input, output)
    }

    fn stored_triplets(&self) -> qmbed::Result<Option<Vec<Triplet<C>>>> {
        Ok(None)
    }
}

fn refused_at(error: QmbedError, component: &str) {
    match error {
        QmbedError::InvalidSector(text) => assert_eq!(text, component),
        other => panic!("{}", other.message()),
    }
}

#[test]
fn the_error_of_the_first_refused_vector_is_handed_on() {
    let columns = vec![
        vec![c(0.0), c(1.0)],
        vec![c(3.0), c(0.0)],
        vec![c(4.0), c(0.0)],
    ];
    refused_at(matmat(&Choosy, &columns).unwrap_err(), "component 3");
    refused_at(rmatmat(&Choosy, &columns).unwrap_err(), "component 3");
    let short = vec![vec![c(1.0)], columns[1].clone()];
    let error = matmat(&Operator::from_dense(2, 2, vec![c(1.0); 4]).unwrap(), &short).unwrap_err();
    assert!(matches!(error, QmbedError::DimensionMismatch(_)));
    refused_at(
        expectation(&Choosy, &[c(5.0), c(0.0)]).unwrap_err(),
        "component 5",
    );
    refused_at(
        block_diag_hamiltonian(&vec![Choosy], MatrixFormat::Csc).unwrap_err(),
        "component 1",
    );
    let adjoint = AdjointLinearOperator::new(Choosy);
    let mut output = vec![c(0.0), c(0.0)];
    refused_at(
        LinearOperator::apply(&adjoint, &[c(7.0), c(0.0)], &mut output).unwrap_err(),
        "component 7",
    );
}

fn projection_on(state: &[C]) -> Vec<C> {
    state
        .iter()
        .flat_map(|left| state.iter().map(move |right| left.times(right.conjugate())))
        .collect()
}

#[test]
fn mixed_states_share_the_pure_state_limits() {
    let amplitude = 1.0 / 2.0_f64.sqrt();
    let bell = vec![c(amplitude), c(0.0), c(0.0), c(amplitude)];
    let density = projection_on(&bell);
    assert_eq!(
        partial_trace_density(&density, 2, 2).unwrap(),
        partial_trace(&bell, 2, 2).unwrap()
    );
    let tilted = vec![c(1.0), z(0.0, 2.0), c(0.5), c(-1.0), c(0.0), z(0.0, -1.0)];
    let reduced = partial_trace_density(&projection_on(&tilted), 2, 3).unwrap();
    for (actual, expected) in reduced.iter().zip(partial_trace(&tilted, 2, 3).unwrap()) {
        close(*actual, expected, 1.0e-12);
    }
    let mixed = vec![c(3.0), c(0.0), c(0.0), c(1.0)];
    assert_eq!(
        partial_trace_density(&mixed, 2, 1).unwrap(),
        vec![c(0.75), c(0.0), c(0.0), c(0.25)]
    );
    assert_eq!(partial_trace_density(&mixed, 1, 2).unwrap(), vec![c(1.0)]);
    assert!(matches!(
        partial_trace_density(&mixed, 2, 2),
        Err(QmbedError::DimensionMismatch(_))
    ));
    assert!(matches!(
        partial_trace_density(&[c(0.0); 4], 2, 1),
        Err(QmbedError::InvalidOptions(_))
    ));
}

#[test]
fn mixed_states_can_keep_any_sites() {
    let amplitude = 1.0 / 2.0_f64.sqrt();
    let mut ghz = vec![c(0.0); 8];
    ghz[0] = c(amplitude);
    ghz[7] = z(0.0, amplitude);
    ghz[3] = c(0.25);
    let density = projection_on(&ghz);
    for kept in [vec![0, 2], vec![2, 0], vec![1], vec![]] {
        let mixed = partial_trace_density_subsystem(&density, &[2, 2, 2], &kept).unwrap();
        let pure = partial_trace_subsystem(&ghz, &[2, 2, 2], &kept).unwrap();
        assert_eq!(mixed.len(), pure.len());
        for (actual, expected) in mixed.iter().zip(pure) {
            close(*actual, expected, 1.0e-12);
        }
    }
    assert!(matches!(
        partial_trace_density_subsystem(&density, &[2, 2], &[0]),
        Err(QmbedError::DimensionMismatch(_))
    ));
    assert!(matches!(
        partial_trace_density_subsystem(&density, &[2, 2, 2], &[3]),
        Err(QmbedError::InvalidSite { site: 3, sites: 3 })
    ));
    assert!(matches!(
        partial_trace_density_subsystem(&density, &[2, 2, 2], &[1, 1]),
        Err(QmbedError::InvalidOptions(_))
    ));
}

#[test]
fn energy_windows_hold_the_energies_near_their_center() {
    assert_eq!(
        energy_window_indices::<C>(&[-2.0, -0.1, 0.2, 3.0], 0.0, 0.25).unwrap(),
        vec![1, 2]
    );
    assert_eq!(
        energy_window_indices::<C>(&[1.0, f64::NAN, 2.0], 1.0, 1.0).unwrap(),
        vec![0, 2]
    );
    assert!(matches!(
        energy_window_indices::<C>(&[0.0], 0.0, -1.0),
        Err(QmbedError::InvalidOptions(_))
    ));
}
