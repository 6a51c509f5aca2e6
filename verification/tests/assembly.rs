use nalgebra::DMatrix;
use num_bigint::BigUint;
use num_complex::Complex64;
use qmbed::basis::{
    basis_int_to_python_int, basis_ones, basis_zeros, bitwise_and, bitwise_leftshift, bitwise_not,
    bitwise_or, bitwise_rightshift, bitwise_xor, get_basis_type, photon_hspace_dim,
    python_int_to_basis_int, state_from_biguint, state_to_biguint, Basis, BasisProjector,
    BosonBasis1D, GeneralBasis, PackedBasis, PhotonBasis, SpinBasis1D, SpinNormalization,
    SpinfulFermionBasis1D, SpinlessFermionBasis1D, StateStorage, SymmetryMap, SymmetrySector,
    TensorBasis, UserBasis, WideSpinBasis256, U256,
};
use qmbed::interop::{OperatorAction, PackedEdModel};
use qmbed::local::{Bits, LocalFactor, Reduction};
use qmbed::measure::project_operator;
use qmbed::operator::{
    apply_sector_shift, bra_ket_transitions, AssemblyChecks, Coupling, LocalOperator, MatrixFormat,
    OpProduct, Operator, OperatorBuilder, OperatorSpec, OperatorTerm,
};
use qmbed::scalar::{Amplitude, Normed, Scalar};
use qmbed::terms::parse_operator_product;
use qmbed::user::UserAction;
use qmbed::weights::{apply_local, apply_local_transitions, Weighted};
use qmbed::{QmbedError, QuSpinError, Result};
use std::cell::Cell;
use std::sync::Arc;

/// A complex number.
#[derive(Clone, Copy, Debug, PartialEq)]
struct C(Complex64);

fn c(re: f64) -> C {
    C(Complex64::new(re, 0.0))
}

#[allow(dead_code)]
fn z(re: f64, im: f64) -> C {
    C(Complex64::new(re, im))
}

#[allow(dead_code)]
fn close(actual: C, expected: C, epsilon: f64) {
    assert!(
        (actual.0 - expected.0).norm() <= epsilon,
        "{} is not {}",
        actual.0,
        expected.0
    );
}

impl Scalar for C {
    type Tolerance = f64;

    fn lemma_zero() {}

    fn zero() -> C {
        c(0.0)
    }

    fn one() -> C {
        c(1.0)
    }

    fn minus_one() -> C {
        c(-1.0)
    }

    fn plus(self, other: C) -> C {
        C(self.0 + other.0)
    }

    fn times(self, other: C) -> C {
        C(self.0 * other.0)
    }

    fn conjugate(self) -> C {
        C(self.0.conj())
    }

    fn is_zero(self) -> bool {
        self.0.re.to_bits() == 0 && self.0.im.to_bits() == 0
    }

    fn is_negligible(self) -> bool {
        self.0.norm() <= f64::EPSILON
    }

    fn is_finite(self) -> bool {
        self.0.re.is_finite() && self.0.im.is_finite()
    }

    fn is_real(self) -> bool {
        self.0.im == 0.0
    }

    fn equals(self, other: C) -> bool {
        self.0 == other.0
    }

    fn within(self, other: C, tolerance: f64) -> bool {
        (self.0 - other.0).norm() <= tolerance
    }

    fn is_usable(tolerance: f64) -> bool {
        tolerance.is_finite() && tolerance >= 0.0
    }

    fn strict() -> f64 {
        1.0e-12
    }
}

impl Amplitude for C {
    fn lemma_bits(self) {}

    fn from_local(factor: LocalFactor) -> C {
        let turn = match factor.quarter_turns {
            0 => Complex64::new(1.0, 0.0),
            1 => Complex64::new(0.0, 1.0),
            2 => Complex64::new(-1.0, 0.0),
            _ => Complex64::new(0.0, -1.0),
        };
        let half = if factor.halved { 0.5 } else { 1.0 };
        C(turn * (factor.numerator as f64 * half * (factor.radicand as f64).sqrt()))
    }

    fn from_reduction(reduction: Reduction) -> C {
        let ratio = reduction.source_orbit as f64 / reduction.target_orbit as f64;
        let angle = std::f64::consts::TAU * reduction.turn as f64 / reduction.steps as f64;
        let phase = if reduction.turn == 0 {
            Complex64::new(1.0, 0.0)
        } else {
            Complex64::from_polar(1.0, angle)
        };
        let given = match reduction.given {
            Some(bits) => C::from_bits(bits).0.conj(),
            None => Complex64::new(1.0, 0.0),
        };
        C(phase * given * ratio.sqrt())
    }

    fn root(sector: usize, power: usize, steps: usize) -> C {
        let angle = -std::f64::consts::TAU * (sector * power) as f64 / steps as f64;
        C(Complex64::from_polar(1.0, angle))
    }

    fn member(phase: C, orbit_size: usize) -> C {
        C(phase.0 / (orbit_size as f64).sqrt())
    }

    fn vanishes(self) -> bool {
        self.0.norm() <= 1.0e-12
    }

    fn is_unity(self) -> bool {
        (self.0 - Complex64::new(1.0, 0.0)).norm() <= 1.0e-10
    }

    fn align(coefficients: &Vec<C>, chosen: usize) -> Option<Vec<C>> {
        let first = coefficients[chosen].0;
        let gauge = first / first.norm();
        let norm = coefficients
            .iter()
            .map(|value| value.0.norm_sqr())
            .sum::<f64>()
            .sqrt();
        let expected = 1.0 / (coefficients.len() as f64).sqrt();
        let mut phases = Vec::new();
        for value in coefficients {
            let normalized = value.0 / (gauge * norm);
            if (normalized.norm() - expected).abs() > 1.0e-10 {
                return None;
            }
            phases.push(C(normalized / expected));
        }
        Some(phases)
    }

    fn to_bits(self) -> Bits {
        Bits {
            first: self.0.re.to_bits(),
            second: self.0.im.to_bits(),
        }
    }

    fn from_bits(bits: Bits) -> C {
        z(f64::from_bits(bits.first), f64::from_bits(bits.second))
    }
}

impl Normed for C {
    type Magnitude = f64;

    fn no_magnitude() -> f64 {
        0.0
    }

    fn norm_square(self) -> f64 {
        self.0.norm_sqr()
    }

    fn add_magnitudes(first: f64, second: f64) -> f64 {
        first + second
    }

    fn divided(self, total: f64) -> C {
        C(self.0 / total)
    }

    fn root(total: f64) -> f64 {
        total.sqrt()
    }

    fn quotient(part: f64, total: f64) -> f64 {
        part / total
    }

    fn excess(first: f64, second: f64) -> f64 {
        (first - second).max(0.0)
    }

    fn is_at_most(total: f64, bound: f64) -> bool {
        total <= bound
    }

    fn is_askable(bound: f64) -> bool {
        bound.is_finite() && bound >= 0.0
    }

    fn is_positive(total: f64) -> bool {
        total.is_finite() && total > f64::EPSILON
    }
}

fn term(operator: &str, couplings: Vec<(f64, Vec<usize>)>) -> OperatorTerm<C> {
    let list = couplings
        .into_iter()
        .map(|(value, sites)| Coupling::new(c(value), sites))
        .collect();
    match OperatorTerm::new(operator, list) {
        Ok(term) => term,
        Err(error) => panic!("{}", error.message()),
    }
}

/// The eigenvalues of a Hermitian matrix, in ascending order.
fn eigenvalues(operator: &Operator<C>) -> Vec<f64> {
    let size = operator.shape.0;
    let dense = operator.to_dense();
    let matrix = DMatrix::from_fn(size, size, |row, column| {
        let value = dense[row * size + column].0;
        nalgebra::Complex::new(value.re, value.im)
    });
    let mut values: Vec<f64> = matrix.symmetric_eigen().eigenvalues.iter().copied().collect();
    values.sort_by(f64::total_cmp);
    values
}

fn built<B: Basis>(basis: &B, terms: Vec<OperatorTerm<C>>, format: MatrixFormat) -> Operator<C> {
    match OperatorBuilder::on(basis).terms(terms).build(format) {
        Ok(operator) => operator,
        Err(error) => panic!("{}", error.message()),
    }
}

fn triplets(operator: &Operator<C>) -> Vec<(usize, usize, C)> {
    operator
        .triplets()
        .iter()
        .map(|entry| (entry.row, entry.column, entry.value))
        .collect()
}

fn product(local: Vec<LocalOperator>) -> OpProduct {
    match OpProduct::new(local) {
        Ok(product) => product,
        Err(error) => panic!("{}", error.message()),
    }
}

fn spec(local: Vec<LocalOperator>, couplings: Vec<(f64, Vec<usize>)>) -> OperatorSpec<C> {
    let list = couplings
        .into_iter()
        .map(|(value, sites)| Coupling::new(c(value), sites))
        .collect();
    match OperatorSpec::from_product(product(local), list) {
        Ok(spec) => spec,
        Err(error) => panic!("{}", error.message()),
    }
}

fn periodic_heisenberg(sites: usize) -> Vec<OperatorTerm<C>> {
    let bond = |site: usize| vec![site, (site + 1) % sites];
    vec![
        term("zz", (0..sites).map(|site| (1.0, bond(site))).collect()),
        term("+-", (0..sites).map(|site| (0.5, bond(site))).collect()),
        term("-+", (0..sites).map(|site| (0.5, bond(site))).collect()),
    ]
}

/// One step around a ring of four sites.
struct Translation;

impl SymmetryMap<u128, C> for Translation {
    fn period(&self) -> usize {
        4
    }

    fn apply(&self, state: u128) -> Result<(u128, C)> {
        Ok((((state << 1) & 0b1111) | (state >> 3), c(1.0)))
    }
}

#[test]
fn spin_translation_sector_uses_normalized_orbit_representatives() {
    let momentum_zero = SpinBasis1D::builder(4).up(2).momentum(0).build().unwrap();
    let momentum_one = SpinBasis1D::builder(4).up(2).momentum(1).build().unwrap();
    assert_eq!(momentum_zero.len(), 2);
    assert_eq!(momentum_one.len(), 1);
    assert_eq!(momentum_zero.momentum(), Some(0));

    let hamiltonian = built(&momentum_zero, periodic_heisenberg(4), MatrixFormat::Csc);
    assert!(hamiltonian.is_hermitian(1.0e-12));
    assert!((eigenvalues(&hamiltonian)[0] + 2.0).abs() < 1.0e-12);

    let nonzero_momentum = built(&momentum_one, periodic_heisenberg(4), MatrixFormat::Csc);
    assert!(nonzero_momentum.is_hermitian(1.0e-12));
    close(nonzero_momentum.to_dense()[0], c(0.0), 1.0e-12);
}

#[test]
fn spin_one_cartesian_operator_uses_branching_transitions() {
    let basis = SpinBasis1D::builder(1).spin_twice(2).build().unwrap();
    assert_eq!(basis.len(), 3);
    assert_eq!(basis.state(0).unwrap(), 0);
    assert_eq!(basis.state(1).unwrap(), 1);
    assert_eq!(basis.state(2).unwrap(), 2);

    let transitions: Vec<Weighted<u128, C>> =
        apply_local_transitions(&basis, 1, "x", &[0]).unwrap();
    assert_eq!(transitions.len(), 2);
    let expected = 1.0 / 2.0_f64.sqrt();
    assert_eq!(transitions[0].state, 2);
    close(transitions[0].amplitude, c(expected), 1.0e-14);
    assert_eq!(transitions[1].state, 0);
    close(transitions[1].amplitude, c(expected), 1.0e-14);

    let x = built(&basis, vec![term("x", vec![(1.0, vec![0])])], MatrixFormat::Dense).to_dense();
    for (row, column) in [(0, 1), (1, 0), (1, 2), (2, 1)] {
        close(x[row * 3 + column], c(expected), 1.0e-14);
    }
    close(x[2], c(0.0), 1.0e-14);

    let z = built(&basis, vec![term("z", vec![(1.0, vec![0])])], MatrixFormat::Dense).to_dense();
    close(z[0], c(-1.0), 1.0e-14);
    close(z[4], c(0.0), 1.0e-14);
    close(z[8], c(1.0), 1.0e-14);
}

#[test]
fn higher_spin_fixed_magnetization_and_translation_sectors_are_enumerated() {
    let parent = SpinBasis1D::builder(2).spin_twice(2).up(2).build().unwrap();
    assert_eq!(parent.len(), 3);

    let momentum_zero = SpinBasis1D::builder(2)
        .spin_twice(2)
        .up(2)
        .momentum(0)
        .build()
        .unwrap();
    let momentum_one = SpinBasis1D::builder(2)
        .spin_twice(2)
        .up(2)
        .momentum(1)
        .build()
        .unwrap();
    assert_eq!(momentum_zero.len(), 2);
    assert_eq!(momentum_one.len(), 1);

    let hamiltonian = built(
        &momentum_zero,
        vec![term("zz", vec![(1.0, vec![0, 1]), (1.0, vec![1, 0])])],
        MatrixFormat::Csc,
    );
    assert_eq!(hamiltonian.shape, (2, 2));
    assert!(hamiltonian.is_hermitian(1.0e-13));
}

#[test]
fn parity_sectors_reconstruct_the_full_spin_spectrum() {
    let full_basis = SpinBasis1D::builder(4).up(2).build().unwrap();
    let even_basis = SpinBasis1D::builder(4).up(2).parity(1).build().unwrap();
    let odd_basis = SpinBasis1D::builder(4).up(2).parity(-1).build().unwrap();
    assert_eq!(even_basis.len(), 4);
    assert_eq!(odd_basis.len(), 2);
    assert_eq!(even_basis.parity(), Some(1));
    assert_eq!(odd_basis.parity(), Some(-1));

    let full = built(&full_basis, periodic_heisenberg(4), MatrixFormat::Dense);
    let even = built(&even_basis, periodic_heisenberg(4), MatrixFormat::Dense);
    let odd = built(&odd_basis, periodic_heisenberg(4), MatrixFormat::Dense);

    let full_values = eigenvalues(&full);
    let mut reconstructed = eigenvalues(&even);
    reconstructed.extend(eigenvalues(&odd));
    reconstructed.sort_by(f64::total_cmp);
    for (actual, expected) in reconstructed.iter().zip(full_values) {
        assert!((*actual - expected).abs() < 1.0e-11);
    }

    let incompatible = SpinBasis1D::builder(4)
        .up(2)
        .momentum(1)
        .parity(1)
        .build()
        .unwrap_err();
    assert!(matches!(incompatible, QuSpinError::IncompatibleSymmetry(_)));
}

fn periodic_spinless_hopping(sites: usize) -> Vec<OperatorTerm<C>> {
    let bond = |site: usize| vec![site, (site + 1) % sites];
    vec![
        term("+-", (0..sites).map(|site| (-1.0, bond(site))).collect()),
        term("-+", (0..sites).map(|site| (1.0, bond(site))).collect()),
    ]
}

#[test]
fn spinless_momentum_sectors_reconstruct_the_full_spectrum() {
    let full_basis = SpinlessFermionBasis1D::builder(4)
        .particles(2)
        .build()
        .unwrap();
    let full = built(&full_basis, periodic_spinless_hopping(4), MatrixFormat::Dense);
    let full_values = eigenvalues(&full);

    let mut reconstructed = Vec::new();
    let mut sector_dimension = 0;
    for momentum in 0..4 {
        let basis = SpinlessFermionBasis1D::builder(4)
            .particles(2)
            .momentum(momentum)
            .build()
            .unwrap();
        assert_eq!(basis.momentum(), Some(momentum as usize));
        sector_dimension += basis.len();
        let operator = built(&basis, periodic_spinless_hopping(4), MatrixFormat::Dense);
        reconstructed.extend(eigenvalues(&operator));
    }

    assert_eq!(sector_dimension, full_basis.len());
    reconstructed.sort_by(f64::total_cmp);
    for (actual, expected) in reconstructed.iter().zip(full_values) {
        assert!((*actual - expected).abs() < 1.0e-11);
    }
}

#[test]
fn closure_symmetry_map_reproduces_the_builtin_translation_sector() {
    let parent = SpinBasis1D::builder(4).up(2).build().unwrap();
    let general: GeneralBasis<SpinBasis1D> =
        GeneralBasis::new::<C, _>(parent, SymmetrySector::new().with_map(Translation, 1)).unwrap();
    let builtin = SpinBasis1D::builder(4).up(2).momentum(1).build().unwrap();
    assert_eq!(general.len(), builtin.len());
    for index in 0..general.len() {
        assert_eq!(general.state(index).unwrap(), builtin.state(index).unwrap());
    }

    let general_operator = built(&general, periodic_heisenberg(4), MatrixFormat::Dense);
    let full_operator = built(general.parent(), periodic_heisenberg(4), MatrixFormat::Csc);
    let projector: BasisProjector<C> = BasisProjector::from_general(&general).unwrap();
    assert!(projector
        .preserves_operator_symmetry(&full_operator, 1.0e-12)
        .unwrap());
    assert!(matches!(
        projector
            .preserves_operator_symmetry(&full_operator, f64::NAN)
            .unwrap_err(),
        QmbedError::InvalidOptions(_)
    ));
    let local_z = built(
        general.parent(),
        vec![term("z", vec![(1.0, vec![0])])],
        MatrixFormat::Csc,
    );
    assert!(projector.symmetry_leakage_norm(&local_z).unwrap() > 1.0e-6);
    assert!(matches!(
        projector
            .symmetry_leakage_norm(&general_operator)
            .unwrap_err(),
        QmbedError::DimensionMismatch(_)
    ));
    let projected = project_operator(&full_operator, &projector, MatrixFormat::Dense).unwrap();
    let builtin_operator = built(&builtin, periodic_heisenberg(4), MatrixFormat::Dense);
    for (actual, expected) in general_operator
        .to_dense()
        .iter()
        .zip(builtin_operator.to_dense())
    {
        close(*actual, expected, 1.0e-12);
    }
    for (actual, expected) in projected.to_dense().iter().zip(general_operator.to_dense()) {
        close(*actual, expected, 1.0e-12);
    }

    let reduced: Vec<C> = (0..projector.reduced_dimension())
        .map(|index| z(0.3 * (index + 1) as f64, -0.2))
        .collect();
    let mut lifted = vec![c(0.0); projector.source_dimension()];
    projector.apply(&reduced, &mut lifted).unwrap();
    let mut recovered = vec![c(0.0); projector.reduced_dimension()];
    projector.project(&lifted, &mut recovered).unwrap();
    for (actual, expected) in recovered.iter().zip(reduced) {
        close(*actual, expected, 1.0e-12);
    }
}

#[test]
fn cross_sector_builder_reduces_into_the_target_symmetry_sector() {
    let source: GeneralBasis<SpinBasis1D> = GeneralBasis::new::<C, _>(
        SpinBasis1D::builder(4).up(0).build().unwrap(),
        SymmetrySector::new().with_map(Translation, 0),
    )
    .unwrap();
    let target: GeneralBasis<SpinBasis1D> = GeneralBasis::new::<C, _>(
        SpinBasis1D::builder(4).up(1).build().unwrap(),
        SymmetrySector::new().with_map(Translation, 1),
    )
    .unwrap();
    let probe = || {
        let couplings = (0..4)
            .map(|site| {
                Coupling::new(
                    C(Complex64::from_polar(
                        1.0,
                        -std::f64::consts::TAU * site as f64 / 4.0,
                    )),
                    vec![site],
                )
            })
            .collect::<Vec<_>>();
        match OperatorTerm::new("+", couplings) {
            Ok(term) => term,
            Err(error) => panic!("{}", error.message()),
        }
    };
    let reduced = OperatorBuilder::between(&source, &target)
        .term(probe())
        .build(MatrixFormat::Csc)
        .unwrap();
    let mut streamed = vec![c(0.0); target.len()];
    apply_sector_shift(&source, &target, &[probe()], &[c(1.0)], &mut streamed).unwrap();
    assert_eq!(streamed, reduced.to_dense());
    let full = OperatorBuilder::between(source.parent(), target.parent())
        .term(probe())
        .build(MatrixFormat::Csc)
        .unwrap();
    let source_projector: BasisProjector<C> = BasisProjector::from_general(&source).unwrap();
    let target_projector: BasisProjector<C> = BasisProjector::from_general(&target).unwrap();
    let mut full_source = vec![c(0.0); source_projector.source_dimension()];
    source_projector.apply(&[c(1.0)], &mut full_source).unwrap();
    let mut full_target = vec![c(0.0); target_projector.source_dimension()];
    full.apply(&full_source, &mut full_target).unwrap();
    let mut expected = vec![c(0.0); target_projector.reduced_dimension()];
    target_projector
        .project(&full_target, &mut expected)
        .unwrap();
    let actual = reduced.to_dense()[0];
    assert!(actual.0.norm() > 1.0);
    close(actual, expected[0], 1.0e-12);
}

#[test]
fn tensor_basis_applies_each_factor_without_kronecker_materialization() {
    let spin = SpinBasis1D::builder(1).pauli(true).build().unwrap();
    let boson = BosonBasis1D::builder(1, 2).build().unwrap();
    let tensor = TensorBasis::new(spin, boson).unwrap();
    assert_eq!(tensor.len(), 4);
    let number_weighted_spin = built(
        &tensor,
        vec![term("z|n", vec![(1.0, vec![0, 0])])],
        MatrixFormat::Csc,
    );
    let diagonal = number_weighted_spin.diagonal();
    assert_eq!(diagonal.len(), 4);
    close(diagonal[0], c(0.0), 1.0e-12);
    close(diagonal[1], c(-1.0), 1.0e-12);
    close(diagonal[2], c(0.0), 1.0e-12);
    close(diagonal[3], c(1.0), 1.0e-12);
}

#[test]
fn photon_basis_enforces_total_excitation_and_exchange_dynamics() {
    let matter = SpinBasis1D::builder(1).build().unwrap();
    let photon = BosonBasis1D::builder(1, 3).build().unwrap();
    let basis = PhotonBasis::fixed_total_excitations(matter, photon, 1, |state: u128| {
        state.count_ones() as usize
    })
    .unwrap();
    assert_eq!(basis.len(), 2);
    assert_eq!(basis.total_excitations(), Some(1));
    let exchange = built(
        &basis,
        vec![
            term("+|-", vec![(1.0, vec![0, 0])]),
            term("-|+", vec![(1.0, vec![0, 0])]),
        ],
        MatrixFormat::Csc,
    );
    assert_eq!(exchange.nnz(), 2);
    let dense = exchange.to_dense();
    close(dense[1], c(1.0), 1.0e-12);
    close(dense[2], c(1.0), 1.0e-12);
}

/// The number operator on wide states.
struct WideNumber;

impl UserAction<U256, C> for WideNumber {
    fn act(&self, symbol: char, state: U256, site: usize) -> Result<Option<Vec<Weighted<U256, C>>>> {
        if symbol != 'n' {
            return Ok(None);
        }
        if state.bit(site)? {
            Ok(Some(vec![Weighted {
                state,
                amplitude: c(1.0),
            }]))
        } else {
            Ok(Some(Vec::new()))
        }
    }
}

#[test]
fn wide_user_basis_actions_reach_beyond_u128() {
    let vacuum = U256::zero();
    let occupied = vacuum.with_bit(200, true).unwrap();
    assert!(occupied.bit(200).unwrap());
    assert_eq!(occupied.count_ones(), 1);
    let basis: UserBasis<U256, C, WideNumber> = UserBasis::<U256, C, WideNumber>::builder(256, WideNumber)
        .states(vec![vacuum, occupied])
        .build()
        .unwrap();
    let number = built(&basis, vec![term("n", vec![(1.0, vec![200])])], MatrixFormat::Csc);
    assert_eq!(number.diagonal()[0], c(0.0));
    assert_eq!(number.diagonal()[1], c(1.0));
}

#[test]
fn wide_integer_helpers_and_photon_utilities_cover_python_helper_semantics() {
    let low: U256 = python_int_to_basis_int(3);
    let high = bitwise_leftshift(low, 130);
    assert!(high.bit(130).unwrap());
    assert!(high.bit(131).unwrap());
    assert_eq!(bitwise_rightshift(high, 130), low);
    assert_eq!(
        bitwise_and(low, python_int_to_basis_int(1)),
        python_int_to_basis_int(1)
    );
    assert_eq!(
        bitwise_or(low, python_int_to_basis_int(4)),
        python_int_to_basis_int(7)
    );
    assert_eq!(
        bitwise_xor(low, python_int_to_basis_int(1)),
        python_int_to_basis_int(2)
    );
    assert_eq!(bitwise_not(bitwise_not(low)), low);
    assert_eq!(basis_int_to_python_int(low).unwrap(), 3);
    assert_eq!(basis_zeros::<4>(2), vec![U256::zero(); 2]);
    assert_eq!(basis_ones::<4>(1)[0].count_ones(), 256);
    assert_eq!(get_basis_type(200, None, 2).unwrap(), StateStorage::U256);
    let arbitrary = (BigUint::from(1_u8) << 200) + BigUint::from(7_u8);
    let encoded: U256 = state_from_biguint(&arbitrary).unwrap();
    assert_eq!(state_to_biguint(encoded), arbitrary);

    assert_eq!(photon_hspace_dim(2, Some(1), Some(2)).unwrap(), 3);
    assert_eq!(photon_hspace_dim(4, None, Some(3)).unwrap(), 64);
    assert_eq!(photon_hspace_dim(8, Some(4), None).unwrap(), 163);
}

/// The identity.
struct Idle;

impl UserAction<u128, C> for Idle {
    fn act(&self, symbol: char, state: u128, _site: usize) -> Result<Option<Vec<Weighted<u128, C>>>> {
        if symbol == 'I' {
            Ok(Some(vec![Weighted {
                state,
                amplitude: c(1.0),
            }]))
        } else {
            Ok(None)
        }
    }
}

#[test]
fn user_basis_can_defer_state_enumeration_until_materialization() {
    let calls = Cell::new(0);
    let builder = UserBasis::<u128, C, Idle>::builder(3, Idle);
    assert_eq!(calls.get(), 0);
    let basis: UserBasis<u128, C, Idle> = builder
        .materialize(|| {
            calls.set(calls.get() + 1);
            Ok(vec![0_u128, 1, 2])
        })
        .unwrap();
    assert_eq!(calls.get(), 1);
    assert_eq!(basis.len(), 3);
}

#[test]
fn spinful_sector_unions_and_majorana_operators_obey_clifford_algebra() {
    let union = SpinfulFermionBasis1D::builder(2)
        .particle_sectors(vec![(1, 0), (0, 1)])
        .build()
        .unwrap();
    assert_eq!(union.len(), 4);

    let basis = SpinfulFermionBasis1D::builder(1).build().unwrap();
    let x = built(&basis, vec![term("x|", vec![(1.0, vec![0])])], MatrixFormat::Dense);
    let y = built(&basis, vec![term("y|", vec![(1.0, vec![0])])], MatrixFormat::Dense);
    assert_eq!(x.adjoint().unwrap().to_dense(), x.to_dense());
    assert_eq!(y.adjoint().unwrap().to_dense(), y.to_dense());
    assert_eq!(x.pow(2).unwrap().diagonal(), vec![c(1.0); 4]);
    assert_eq!(y.pow(2).unwrap().diagonal(), vec![c(1.0); 4]);
    assert_eq!(
        x.product(&y)
            .unwrap()
            .add(&y.product(&x).unwrap())
            .unwrap()
            .nnz(),
        0
    );
}

/// Occupations of single bits.
struct BitNumber;

impl UserAction<u128, C> for BitNumber {
    fn act(&self, symbol: char, state: u128, site: usize) -> Result<Option<Vec<Weighted<u128, C>>>> {
        if symbol != 'n' {
            return Ok(None);
        }
        if (state >> site) & 1 == 1 {
            Ok(Some(vec![Weighted {
                state,
                amplitude: c(1.0),
            }]))
        } else {
            Ok(Some(Vec::new()))
        }
    }
}

/// An operator that leads from each of three levels to all of them.
struct Branching;

impl UserAction<u128, C> for Branching {
    fn act(&self, symbol: char, state: u128, _site: usize) -> Result<Option<Vec<Weighted<u128, C>>>> {
        if symbol != 'a' {
            return Ok(None);
        }
        Ok(Some(
            (0_u128..3)
                .map(|target| Weighted {
                    state: target,
                    amplitude: z((target + 1) as f64, state as f64),
                })
                .collect(),
        ))
    }
}

#[test]
fn branching_and_parallel_user_basis_paths_preserve_transition_semantics() {
    let serial: UserBasis<u128, C, BitNumber> = UserBasis::<u128, C, BitNumber>::builder(9, BitNumber)
        .state_filter(|state: u128| state.count_ones() == 2 && state & (state << 1) == 0)
        .unwrap()
        .build()
        .unwrap();
    let expected: Vec<u128> = (0..512_u128)
        .filter(|state| state.count_ones() == 2 && state & (state << 1) == 0)
        .collect();
    assert_eq!(serial.len(), expected.len());
    for index in 0..serial.len() {
        assert_eq!(serial.state(index).unwrap(), expected[index]);
    }

    let qutrit: UserBasis<u128, C, Branching> = UserBasis::<u128, C, Branching>::builder(1, Branching)
        .states(vec![0_u128, 1, 2])
        .build()
        .unwrap();
    let matrix = OperatorBuilder::on(&qutrit)
        .term(term("a", vec![(1.0, vec![0])]))
        .checks(AssemblyChecks {
            hermiticity: false,
            particle_conservation: false,
            symmetry_compatibility: true,
        })
        .build(MatrixFormat::Csc)
        .unwrap()
        .to_dense();
    for row in 0..3 {
        for column in 0..3 {
            assert_eq!(
                matrix[row * 3 + column],
                z((row + 1) as f64, column as f64)
            );
        }
    }
}

#[test]
fn wide_spin_basis_assembles_high_site_actions_without_u128_conversion() {
    let basis = WideSpinBasis256::new(201, Some(1), false).unwrap();
    assert_eq!(basis.len(), 201);
    let high = U256::zero().with_bit(200, true).unwrap();
    let source = basis.index(high).unwrap();
    let lowering =
        OperatorBuilder::between(&basis, &WideSpinBasis256::new(201, Some(0), false).unwrap())
            .term(term("-", vec![(1.0, vec![200])]))
            .build(MatrixFormat::Csc)
            .unwrap();
    assert_eq!(lowering.shape, (1, 201));
    assert_eq!(lowering.to_dense()[source], c(1.0));
    let transitions = bra_ket_transitions(&basis, "-", &[200], c(1.0), &[high]).unwrap();
    assert_eq!(transitions.len(), 1);
    assert_eq!(transitions[0].ket, high);
    assert_eq!(transitions[0].bra, U256::zero());
    assert_eq!(transitions[0].matrix_element, c(1.0));
}

/// Spin flips and signs on bits.
struct Flips;

impl UserAction<u128, C> for Flips {
    fn act(&self, symbol: char, state: u128, site: usize) -> Result<Option<Vec<Weighted<u128, C>>>> {
        if symbol == 'x' {
            Ok(Some(vec![Weighted {
                state: state ^ (1_u128 << site),
                amplitude: c(1.0),
            }]))
        } else if symbol == 'z' {
            let value = if state & (1_u128 << site) == 0 {
                -1.0
            } else {
                1.0
            };
            Ok(Some(vec![Weighted {
                state,
                amplitude: c(value),
            }]))
        } else {
            Ok(None)
        }
    }
}

fn periodic_blockade(state: u128, sites: usize) -> bool {
    (0..sites).all(|site| {
        let next = (site + 1) % sites;
        !(state & (1_u128 << site) != 0 && state & (1_u128 << next) != 0)
    })
}

#[test]
fn user_basis_visible_anchor_uses_universal_contract() -> Result<()> {
    let basis: UserBasis<u128, C, Flips> = UserBasis::<u128, C, Flips>::builder(4, Flips)
        .state_filter(|state: u128| periodic_blockade(state, 4))?
        .build()?;
    assert_eq!(basis.len(), 7);
    for index in 0..basis.len() {
        let state = basis.state(index)?;
        assert_eq!(basis.index(state)?, index);
    }
    Ok(())
}

#[test]
fn terms_couplings_and_formats_are_explicit() {
    let term = term("zz", vec![(1.0, vec![0, 1]), (-0.5, vec![1, 2])]);
    assert_eq!(term.operator(), "zz");
    assert_eq!(term.couplings().len(), 2);
    assert_eq!(term.couplings()[0].sites, [0, 1]);
    assert_eq!(
        [
            MatrixFormat::Dense,
            MatrixFormat::Csc,
            MatrixFormat::Csr,
            MatrixFormat::Dia,
            MatrixFormat::MatrixFree,
        ]
        .len(),
        5
    );
}

fn heisenberg_dimer(format: MatrixFormat) -> Operator<C> {
    let basis = SpinBasis1D::builder(2).pauli(false).build().unwrap();
    built(
        &basis,
        vec![
            term("zz", vec![(1.0, vec![0, 1])]),
            term("+-", vec![(0.5, vec![0, 1])]),
            term("-+", vec![(0.5, vec![0, 1])]),
        ],
        format,
    )
}

#[test]
fn universal_builder_and_eigsh_match_the_dimer_anchor() {
    let operator = heisenberg_dimer(MatrixFormat::Csc);
    assert_eq!(operator.shape, (4, 4));
    assert!(operator.is_hermitian(1.0e-12));
    let values = eigenvalues(&operator);
    assert!((values[0] + 0.75).abs() < 1.0e-12);
    assert!((values[1] - 0.25).abs() < 1.0e-12);
}

#[test]
fn all_materialization_formats_preserve_sparse_action() {
    let input = [z(1.0, -0.5), z(-2.0, 0.25), z(0.75, 1.0), z(0.5, -1.5)];
    let dense = heisenberg_dimer(MatrixFormat::Dense);
    let expected_dense = dense.to_dense();
    let mut expected = vec![c(0.0); 4];
    dense.apply(&input, &mut expected).unwrap();

    for format in [
        MatrixFormat::Csc,
        MatrixFormat::Csr,
        MatrixFormat::Dia,
        MatrixFormat::MatrixFree,
    ] {
        let operator = heisenberg_dimer(format);
        let mut actual = vec![c(0.0); 4];
        operator.apply(&input, &mut actual).unwrap();
        assert_eq!(operator.format, format);
        assert_eq!(operator.nnz(), 6);
        assert_eq!(operator.to_dense(), expected_dense);
        for (actual, expected) in actual.iter().zip(&expected) {
            close(*actual, *expected, 1.0e-12);
        }
    }
}

#[test]
fn cross_sector_builder_has_target_by_source_shape() {
    let source = SpinlessFermionBasis1D::builder(4)
        .particles(1)
        .build()
        .unwrap();
    let target = SpinlessFermionBasis1D::builder(4)
        .particles(2)
        .build()
        .unwrap();
    let probe = OperatorBuilder::between(&source, &target)
        .term(term("+", vec![(1.0, vec![2])]))
        .build(MatrixFormat::Csc)
        .unwrap();
    assert_eq!(probe.shape, (6, 4));
}

#[test]
fn assembly_particle_check_rejects_sector_leakage_and_can_be_explicitly_disabled() {
    let basis = SpinBasis1D::builder(4).up(2).build().unwrap();
    let error = OperatorBuilder::on(&basis)
        .term(term("x", vec![(1.0, vec![0])]))
        .build(MatrixFormat::Csc)
        .unwrap_err();
    assert!(matches!(error, QmbedError::InvalidSector(_)));

    let projected = OperatorBuilder::on(&basis)
        .checks(AssemblyChecks {
            hermiticity: false,
            particle_conservation: false,
            symmetry_compatibility: true,
        })
        .term(term("x", vec![(1.0, vec![0])]))
        .build(MatrixFormat::Csc)
        .unwrap();
    assert_eq!(projected.nnz(), 0);
}

#[test]
fn assembly_refuses_what_is_not_hermitian() {
    let basis = SpinBasis1D::builder(2).build().unwrap();
    let error = OperatorBuilder::on(&basis)
        .term(term("+", vec![(1.0, vec![0])]))
        .build(MatrixFormat::Dense)
        .unwrap_err();
    assert!(matches!(error, QmbedError::NonHermitian));
    let outside = OperatorBuilder::on(&basis)
        .term(term("z", vec![(1.0, vec![2])]))
        .build(MatrixFormat::Dense)
        .unwrap_err();
    assert!(matches!(outside, QmbedError::InvalidSite { site: 2, sites: 2 }));
    let unknown = OperatorBuilder::on(&basis)
        .term(term("q", vec![(1.0, vec![0])]))
        .build(MatrixFormat::Dense)
        .unwrap_err();
    assert!(matches!(unknown, QmbedError::InvalidOperator(_)));
}

#[test]
fn typed_operator_product_uses_the_universal_assembler() {
    let basis = SpinBasis1D::builder(2).build().unwrap();
    let operator = built(
        &basis,
        vec![spec(
            vec![LocalOperator::Z, LocalOperator::Z],
            vec![(1.0, vec![0, 1])],
        )],
        MatrixFormat::Csc,
    );

    assert_eq!(operator.shape, (basis.len(), basis.len()));
    assert_eq!(
        operator.diagonal(),
        vec![c(0.25), c(-0.25), c(-0.25), c(0.25)]
    );
}

#[test]
fn quspin_strings_are_parsed_once_at_the_compatibility_boundary() {
    let product = match parse_operator_product("+-|nI") {
        Ok(product) => product,
        Err(error) => panic!("{}", error.message()),
    };
    assert_eq!(product.split(), Some(2));
    assert_eq!(
        product.local_operators(),
        &[
            LocalOperator::Raising,
            LocalOperator::Lowering,
            LocalOperator::Number,
            LocalOperator::Identity,
        ]
    );
    assert_eq!(product.label(), "+-|nI");

    assert!(matches!(
        parse_operator_product("+||-"),
        Err(QmbedError::InvalidOperator(_))
    ));
}

#[test]
fn packed_basis_preserves_concrete_operator_semantics() {
    let basis = SpinBasis1D::builder(3).up(1).build().unwrap();
    let packed = PackedBasis::from(basis.clone());
    let weights = || (0..3).map(|site| (site as f64 + 1.0, vec![site])).collect();
    let concrete = built(
        &basis,
        vec![spec(vec![LocalOperator::Z], weights())],
        MatrixFormat::Csc,
    );
    let erased = built(
        &packed,
        vec![spec(vec![LocalOperator::Z], weights())],
        MatrixFormat::Csc,
    );

    assert_eq!(packed.len(), basis.len());
    assert_eq!(triplets(&erased), triplets(&concrete));
}

#[test]
fn reversed_packed_basis_reorders_states_and_operator_rows_together() {
    let natural = PackedBasis::from(SpinBasis1D::builder(1).build().unwrap());
    let reversed = PackedBasis::from(SpinBasis1D::builder(1).build().unwrap()).reversed();
    let y = || spec(vec![LocalOperator::Y], vec![(1.0, vec![0])]);
    let natural_operator = built(&natural, vec![y()], MatrixFormat::Dense);
    let reversed_operator = built(&reversed, vec![y()], MatrixFormat::Dense);

    assert_eq!(natural.state(0).unwrap(), reversed.state(1).unwrap());
    assert_eq!(natural.state(1).unwrap(), reversed.state(0).unwrap());
    let natural_dense = natural_operator.to_dense();
    let reversed_dense = reversed_operator.to_dense();
    assert_eq!(reversed_dense[0], natural_dense[3]);
    assert_eq!(reversed_dense[1], natural_dense[2]);
    assert_eq!(reversed_dense[2], natural_dense[1]);
    assert_eq!(reversed_dense[3], natural_dense[0]);
}

#[test]
fn operator_site_permutation_changes_labels_not_assembly_code() {
    let basis = SpinBasis1D::builder(2).build().unwrap();
    let left = || {
        spec(
            vec![LocalOperator::X, LocalOperator::Identity],
            vec![(1.0, vec![0, 1])],
        )
    };
    let right = match left().with_site_permutation(&[1, 0]) {
        Ok(right) => right,
        Err(error) => panic!("{}", error.message()),
    };
    let left = built(&basis, vec![left()], MatrixFormat::Dense);
    let right = built(&basis, vec![right], MatrixFormat::Dense);

    assert_eq!(left.to_dense()[4].0.re, 0.5);
    assert_eq!(right.to_dense()[8].0.re, 0.5);
    assert_ne!(triplets(&left), triplets(&right));
}

#[test]
fn packed_model_reuses_one_spec_for_states_matrix_and_eigh() {
    let basis = BosonBasis1D::builder(1, 4).build().unwrap();
    let terms = vec![
        spec(vec![LocalOperator::Raising], vec![(1.0, vec![0])]),
        spec(vec![LocalOperator::Lowering], vec![(1.0, vec![0])]),
        spec(vec![LocalOperator::Number], vec![(0.25, vec![0])]),
    ];
    let mut model = PackedEdModel::new(PackedBasis::from(basis), terms);

    assert_eq!(model.dimension(), 4);
    assert_eq!(model.states().unwrap(), vec![0, 1, 2, 3]);
    let operator = model.materialize(MatrixFormat::Csc).unwrap();
    assert_eq!(operator.shape, (4, 4));
    let values = eigenvalues(&operator);
    assert_eq!(values.len(), 4);
    assert!((values[0] + 1.885007105857148).abs() < 1.0e-12);
}

#[test]
fn packed_model_caches_each_materialized_format() {
    let basis = SpinBasis1D::builder(2).build().unwrap();
    let term = spec(vec![LocalOperator::Z], vec![(1.0, vec![0])]);
    let mut model = PackedEdModel::new(PackedBasis::from(basis), vec![term]);

    let first = model.materialized(MatrixFormat::Csc).unwrap();
    let second = model.materialized(MatrixFormat::Csc).unwrap();
    let dense = model.materialized(MatrixFormat::Dense).unwrap();

    assert!(Arc::ptr_eq(&first, &second));
    assert!(!Arc::ptr_eq(&first, &dense));
    assert_eq!(first.to_dense(), dense.to_dense());
}

#[test]
fn transformed_model_does_not_reuse_a_stale_operator() {
    let basis = SpinBasis1D::builder(2).build().unwrap();
    let term = spec(vec![LocalOperator::Z], vec![(1.0, vec![0])]);
    let mut model = PackedEdModel::new(PackedBasis::from(basis), vec![term]);
    let original = model.materialized(MatrixFormat::Csc).unwrap();
    let mut permuted_model = match model.with_site_permutation(&[1, 0]) {
        Ok(model) => model,
        Err(error) => panic!("{}", error.message()),
    };
    let permuted = permuted_model.materialized(MatrixFormat::Csc).unwrap();

    assert!(!Arc::ptr_eq(&original, &permuted));
    assert_ne!(triplets(&original), triplets(&permuted));
}

#[test]
fn spin_normalization_distinguishes_ladder_and_cartesian_conventions() {
    let spin = |normalization: SpinNormalization| {
        SpinBasis1D::builder(1)
            .normalization(normalization)
            .build()
            .unwrap()
    };
    let angular = spin(SpinNormalization::AngularMomentum);
    let pauli = spin(SpinNormalization::Pauli);
    let cartesian = spin(SpinNormalization::PauliCartesian);

    let amplitude = |basis: &SpinBasis1D, operator: &str| -> f64 {
        let found: Option<Weighted<u128, C>> = apply_local(basis, 0, operator, &[0]).unwrap();
        found.unwrap().amplitude.0.re
    };
    assert_eq!(amplitude(&angular, "+"), 1.0);
    assert_eq!(amplitude(&pauli, "+"), 2.0);
    assert_eq!(amplitude(&cartesian, "+"), 1.0);
    assert_eq!(amplitude(&angular, "x"), 0.5);
    assert_eq!(amplitude(&pauli, "x"), 1.0);
    assert_eq!(amplitude(&cartesian, "x"), 1.0);
    assert_eq!(amplitude(&angular, "z"), -0.5);
    assert_eq!(amplitude(&pauli, "z"), -1.0);
}

#[test]
fn temporary_terms_reuse_basis_and_support_all_algebraic_actions() {
    let site = || PackedBasis::from(SpinBasis1D::builder(1).build().unwrap());
    let model: PackedEdModel<C> = PackedEdModel::new(site(), Vec::new());
    let y = || spec(vec![LocalOperator::Y], vec![(2.0, vec![0])]);
    let operator = model
        .assemble_terms(vec![y()], AssemblyChecks::none(), MatrixFormat::Csc)
        .unwrap();
    let inputs = vec![vec![z(1.0, 0.5), z(-0.25, 2.0)]];

    for action in [
        OperatorAction::Normal,
        OperatorAction::Transpose,
        OperatorAction::Conjugate,
        OperatorAction::Adjoint,
    ] {
        let actual = model.apply_terms_batch(vec![y()], &inputs, action).unwrap();
        let mut expected = vec![c(0.0); 2];
        match action {
            OperatorAction::Normal => operator.apply(&inputs[0], &mut expected).unwrap(),
            OperatorAction::Transpose => {
                operator.apply_transpose(&inputs[0], &mut expected).unwrap()
            }
            OperatorAction::Conjugate => {
                let conjugated: Vec<C> = inputs[0].iter().map(|value| value.conjugate()).collect();
                operator.apply(&conjugated, &mut expected).unwrap();
                expected
                    .iter_mut()
                    .for_each(|value| *value = value.conjugate());
            }
            OperatorAction::Adjoint => operator.apply_adjoint(&inputs[0], &mut expected).unwrap(),
        }
        assert_eq!(actual, vec![expected]);
    }

    let mut fixed_model = PackedEdModel::new(site(), vec![y()]);
    assert_eq!(
        fixed_model
            .apply_batch(&inputs, OperatorAction::Normal)
            .unwrap(),
        model
            .apply_terms_batch(vec![y()], &inputs, OperatorAction::Normal)
            .unwrap()
    );
}

#[test]
fn temporary_terms_and_bra_ket_share_the_models_site_convention() {
    let pair = || PackedBasis::from(SpinBasis1D::builder(2).build().unwrap());
    let fresh: PackedEdModel<C> = PackedEdModel::new(pair(), Vec::new());
    let model = match fresh.with_site_permutation(&[1, 0]) {
        Ok(model) => model,
        Err(error) => panic!("{}", error.message()),
    };
    let raising = || spec(vec![LocalOperator::Raising], vec![(3.0, vec![0])]);

    let operator = model
        .assemble_terms(vec![raising()], AssemblyChecks::none(), MatrixFormat::Csc)
        .unwrap();
    assert_eq!(triplets(&operator), vec![(2, 0, c(3.0)), (3, 1, c(3.0))]);
    let transitions = model.bra_ket_terms(vec![raising()], &[0, 1]).unwrap();
    assert_eq!(transitions[0][0].bra, 2);
    assert_eq!(transitions[0][0].matrix_element, c(3.0));
    assert_eq!(transitions[1][0].bra, 3);

    let other: PackedEdModel<C> = PackedEdModel::new(pair(), Vec::new());
    assert!(other.with_site_permutation(&[0, 0]).is_err());
}

/// An operator that refuses a state.
struct Picky;

impl UserAction<u128, C> for Picky {
    fn act(&self, symbol: char, state: u128, _site: usize) -> Result<Option<Vec<Weighted<u128, C>>>> {
        if symbol != 'n' {
            return Ok(None);
        }
        if state == 1 {
            return Err(QmbedError::InvalidSector("not this state".to_string()));
        }
        Ok(Some(Vec::new()))
    }
}

#[test]
fn the_error_of_a_user_operator_is_handed_on() {
    let basis: UserBasis<u128, C, Picky> = UserBasis::<u128, C, Picky>::builder(2, Picky)
        .states(vec![0, 1])
        .build()
        .unwrap();
    assert!(basis.apply_local_transitions(0, "n", &[0]).unwrap().is_empty());
    let error = basis.apply_local_transitions(1, "n", &[0]).unwrap_err();
    assert!(matches!(error, QmbedError::InvalidSector(text) if text == "not this state"));
}
