use num_bigint::BigUint;
use num_complex::Complex64;
use qmbed::basis::{
    basis_int_to_python_int, bitwise_and, bitwise_leftshift, bitwise_not, bitwise_rightshift,
    get_basis_type, photon_hspace_dim, python_int_to_basis_int, state_from_biguint,
    state_to_biguint, Basis, BosonBasis1D, ExchangeStatistics, GeneralBasis, LatticeSymmetryMap,
    PackedBasis, SpinBasis1D, SpinfulFermionBasis1D, SpinlessFermionBasis1D, StateStorage,
    SymmetryMap, SymmetrySector, U256,
};
use qmbed::compat::quspin;
use qmbed::local::{Bits, LocalFactor, Reduction};
use qmbed::measure::{array_to_ints, array_to_states, ints_to_array, states_to_array};
use qmbed::notation::operator_number_change;
use qmbed::scalar::{Amplitude, Scalar};
use qmbed::weights::{apply_local_transitions, Weighted};
use qmbed::{QmbedError, QuSpinError, Result};

/// A complex number.
#[derive(Clone, Copy, Debug, PartialEq)]
struct C(Complex64);

fn c(re: f64) -> C {
    C(Complex64::new(re, 0.0))
}

#[allow(dead_code)]
fn z(re: f64, im: f64) -> C {
    C(Complex64::new(re, im))
}

#[allow(dead_code)]
fn close(actual: C, expected: C, epsilon: f64) {
    assert!(
        (actual.0 - expected.0).norm() <= epsilon,
        "{} is not {}",
        actual.0,
        expected.0
    );
}

impl Scalar for C {
    type Tolerance = f64;

    fn lemma_zero() {}

    fn zero() -> C {
        c(0.0)
    }

    fn one() -> C {
        c(1.0)
    }

    fn minus_one() -> C {
        c(-1.0)
    }

    fn plus(self, other: C) -> C {
        C(self.0 + other.0)
    }

    fn times(self, other: C) -> C {
        C(self.0 * other.0)
    }

    fn conjugate(self) -> C {
        C(self.0.conj())
    }

    fn is_zero(self) -> bool {
        self.0.re.to_bits() == 0 && self.0.im.to_bits() == 0
    }

    fn is_negligible(self) -> bool {
        self.0.norm() <= f64::EPSILON
    }

    fn is_finite(self) -> bool {
        self.0.re.is_finite() && self.0.im.is_finite()
    }

    fn is_real(self) -> bool {
        self.0.im == 0.0
    }

    fn equals(self, other: C) -> bool {
        self.0 == other.0
    }

    fn within(self, other: C, tolerance: f64) -> bool {
        (self.0 - other.0).norm() <= tolerance
    }

    fn is_usable(tolerance: f64) -> bool {
        tolerance.is_finite() && tolerance >= 0.0
    }

    fn strict() -> f64 {
        1.0e-12
    }
}

impl Amplitude for C {
    fn lemma_bits(self) {}

    fn from_local(factor: LocalFactor) -> C {
        let turn = match factor.quarter_turns {
            0 => Complex64::new(1.0, 0.0),
            1 => Complex64::new(0.0, 1.0),
            2 => Complex64::new(-1.0, 0.0),
            _ => Complex64::new(0.0, -1.0),
        };
        let half = if factor.halved { 0.5 } else { 1.0 };
        C(turn * (factor.numerator as f64 * half * (factor.radicand as f64).sqrt()))
    }

    fn from_reduction(reduction: Reduction) -> C {
        let ratio = reduction.source_orbit as f64 / reduction.target_orbit as f64;
        let angle = std::f64::consts::TAU * reduction.turn as f64 / reduction.steps as f64;
        let phase = if reduction.turn == 0 {
            Complex64::new(1.0, 0.0)
        } else {
            Complex64::from_polar(1.0, angle)
        };
        let given = match reduction.given {
            Some(bits) => C::from_bits(bits).0.conj(),
            None => Complex64::new(1.0, 0.0),
        };
        C(phase * given * ratio.sqrt())
    }

    fn root(sector: usize, power: usize, steps: usize) -> C {
        let angle = -std::f64::consts::TAU * (sector * power) as f64 / steps as f64;
        C(Complex64::from_polar(1.0, angle))
    }

    fn member(phase: C, orbit_size: usize) -> C {
        C(phase.0 / (orbit_size as f64).sqrt())
    }

    fn vanishes(self) -> bool {
        self.0.norm() <= 1.0e-12
    }

    fn is_unity(self) -> bool {
        (self.0 - Complex64::new(1.0, 0.0)).norm() <= 1.0e-10
    }

    fn align(coefficients: &Vec<C>, chosen: usize) -> Option<Vec<C>> {
        let first = coefficients[chosen].0;
        let gauge = first / first.norm();
        let norm = coefficients
            .iter()
            .map(|value| value.0.norm_sqr())
            .sum::<f64>()
            .sqrt();
        let expected = 1.0 / (coefficients.len() as f64).sqrt();
        let mut phases = Vec::new();
        for value in coefficients {
            let normalized = value.0 / (gauge * norm);
            if (normalized.norm() - expected).abs() > 1.0e-10 {
                return None;
            }
            phases.push(C(normalized / expected));
        }
        Some(phases)
    }

    fn to_bits(self) -> Bits {
        Bits {
            first: self.0.re.to_bits(),
            second: self.0.im.to_bits(),
        }
    }

    fn from_bits(bits: Bits) -> C {
        z(f64::from_bits(bits.first), f64::from_bits(bits.second))
    }
}

fn states<B: Basis>(basis: &B) -> Vec<B::State> {
    let mut list = Vec::new();
    for index in 0..basis.len() {
        match basis.state(index) {
            Ok(state) => list.push(state),
            Err(error) => panic!("{}", error.message()),
        }
    }
    list
}

fn image(map: &LatticeSymmetryMap, state: u128) -> Result<(u128, C)> {
    <LatticeSymmetryMap as SymmetryMap<u128, C>>::apply(map, state)
}

#[test]
fn qmbed_is_the_native_crate_identity() {
    assert_eq!(qmbed::VERSION, "0.1.0");
    let error = QmbedError::InvalidOptions("example".to_string());
    assert!(matches!(error, QmbedError::InvalidOptions(_)));
}

#[test]
fn quspin_error_spelling_is_a_compatibility_alias() {
    let error: QuSpinError = QmbedError::StateNotInBasis;
    assert!(matches!(error, quspin::QuSpinError::StateNotInBasis));
    assert_eq!(quspin::VERSION, qmbed::VERSION);
}

#[test]
fn every_error_has_words() {
    let site = QmbedError::InvalidSite { site: 12, sites: 10 };
    assert_eq!(site.message(), "site 12 is outside a lattice with 10 sites");
    let archive = QmbedError::Archive("short".to_string());
    assert_eq!(archive.message(), "archive error: short");
    let coupling = QmbedError::InvalidCoupling("a".to_string());
    assert_eq!(coupling.message(), "invalid coupling: a");
    assert_eq!(
        QmbedError::StateNotInBasis.message(),
        "state is not represented by this basis"
    );
    assert_eq!(
        QmbedError::RankDeficient.message(),
        "the supplied vectors are numerically rank deficient"
    );
    assert_eq!(
        QmbedError::NonHermitian.message(),
        "a Hermitian operator is required"
    );
}

#[test]
fn error_categories_are_structured() {
    let basis = SpinBasis1D::builder(4).up(2).build().unwrap();
    assert!(matches!(basis.state(6), Err(QmbedError::StateNotInBasis)));
}

#[test]
fn built_in_basis_visible_anchors() {
    let spin = SpinBasis1D::builder(4).up(2).build().unwrap();
    assert_eq!(spin.len(), 6);
    let state = 0b0101;
    assert_eq!(spin.state(spin.index(state).unwrap()).unwrap(), state);

    let boson = BosonBasis1D::builder(3, 3).particles(2).build().unwrap();
    assert_eq!(boson.len(), 6);

    let spinless = SpinlessFermionBasis1D::builder(4)
        .particles(2)
        .build()
        .unwrap();
    assert_eq!(spinless.len(), 6);
    for index in 0..spinless.len() {
        assert_eq!(spinless.state(index).unwrap().count_ones(), 2);
    }

    let spinful = SpinfulFermionBasis1D::builder(3)
        .particles(1, 1)
        .build()
        .unwrap();
    assert_eq!(spinful.len(), 9);
}

#[test]
fn fixed_particle_enumeration_scales_with_sector_dimension() {
    let single_spin = SpinBasis1D::builder(96).up(1).build().unwrap();
    assert_eq!(single_spin.len(), 96);
    assert_eq!(single_spin.state(95).unwrap(), 1_u128 << 95);

    let fermions = SpinlessFermionBasis1D::builder(96)
        .particles(2)
        .build()
        .unwrap();
    assert_eq!(fermions.len(), 96 * 95 / 2);
    assert_eq!(fermions.state(0).unwrap(), 0b11);

    let bosons = BosonBasis1D::builder(30, 3).particles(1).build().unwrap();
    assert_eq!(bosons.len(), 30);
}

#[test]
fn higher_spin_rejects_the_spin_half_pauli_convention() {
    let error = SpinBasis1D::builder(2)
        .spin_twice(2)
        .pauli(true)
        .build()
        .unwrap_err();
    assert!(matches!(error, QuSpinError::InvalidOptions(_)));
}

#[test]
fn spin_builders_refuse_impossible_requests() {
    assert!(SpinBasis1D::builder(0).build().is_err());
    assert!(SpinBasis1D::builder(4).up(5).build().is_err());
    assert!(SpinBasis1D::builder(4).parity(2).build().is_err());
    assert!(matches!(
        SpinBasis1D::builder(4).up(2).momentum(1).parity(1).build(),
        Err(QmbedError::IncompatibleSymmetry(_))
    ));
    assert!(BosonBasis1D::builder(2, 3).particles(5).build().is_err());
    assert!(SpinlessFermionBasis1D::builder(3).particles(4).build().is_err());
}

#[test]
fn momentum_sectors_split_the_parent_sector() {
    let mut total = 0;
    for momentum in 0..6 {
        let basis = SpinBasis1D::builder(6).up(3).momentum(momentum).build().unwrap();
        total += basis.len();
        for state in states(&basis) {
            for shift in 0..6u32 {
                let turned = ((state << shift) | (state >> (6 - shift))) & 0b111111;
                assert!(state <= turned);
            }
        }
    }
    assert_eq!(total, 20);
}

#[test]
fn runtime_translation_matches_the_builtin_spin_sector() {
    let sites = 6;
    let parent = SpinBasis1D::builder(sites).up(3).build().unwrap();
    let translation = LatticeSymmetryMap::site_permutation(
        2,
        (0..sites)
            .map(|site| (site + 1) % sites)
            .collect::<Vec<_>>(),
    )
    .unwrap();
    let general: GeneralBasis<SpinBasis1D> =
        GeneralBasis::new::<C, _>(parent, SymmetrySector::new().with_map(translation, 1)).unwrap();
    let builtin = SpinBasis1D::builder(sites)
        .up(3)
        .momentum(1)
        .build()
        .unwrap();

    assert_eq!(states(&general), states(&builtin));

    let first = builtin.state(0).unwrap();
    let packed = PackedBasis::from(general);
    assert_eq!(packed.len(), builtin.len());
    assert_eq!(packed.state(0).unwrap(), first);
}

#[test]
fn local_digit_permutations_cover_spin_inversion() {
    let sites = 4;
    let inversion = LatticeSymmetryMap::new(
        2,
        (0..sites).collect::<Vec<_>>(),
        Some(vec![vec![1, 0]; sites]),
        ExchangeStatistics::Distinguishable,
    )
    .unwrap();

    assert_eq!(LatticeSymmetryMap::period(&inversion), 2);
    assert_eq!(image(&inversion, 0b0011).unwrap(), (0b1100, c(1.0)));
    assert_eq!(image(&inversion, 0b1100).unwrap(), (0b0011, c(1.0)));
}

#[test]
fn fermionic_permutations_compute_the_exchange_phase() {
    let swap = LatticeSymmetryMap::fermionic_orbital_permutation(vec![1, 0]).unwrap();

    assert_eq!(LatticeSymmetryMap::period(&swap), 2);
    assert_eq!(image(&swap, 0b01).unwrap(), (0b10, c(1.0)));
    assert_eq!(image(&swap, 0b11).unwrap(), (0b11, c(-1.0)));
    assert!(image(&swap, 0b100).is_err());
}

#[test]
fn malformed_runtime_maps_are_rejected_before_basis_construction() {
    assert!(
        LatticeSymmetryMap::site_permutation(2, vec![0, 0])
            .unwrap_err()
            .message()
            .contains("bijection")
    );
    assert!(
        LatticeSymmetryMap::new(
            2,
            vec![1, 0],
            Some(vec![vec![0, 0], vec![0, 1]]),
            ExchangeStatistics::Distinguishable,
        )
        .unwrap_err()
        .message()
        .contains("local-state map")
    );
    assert!(
        LatticeSymmetryMap::new(
            2,
            vec![1, 0],
            Some(vec![vec![1, 0], vec![1, 0]]),
            ExchangeStatistics::Fermionic,
        )
        .unwrap_err()
        .message()
        .contains("cannot change")
    );
}

#[test]
fn a_valid_empty_symmetry_sector_is_representable() {
    let parent = SpinBasis1D::builder(4).up(0).build().unwrap();
    let translation = LatticeSymmetryMap::site_permutation(2, vec![1, 2, 3, 0]).unwrap();
    let empty: GeneralBasis<SpinBasis1D> =
        GeneralBasis::new::<C, _>(parent, SymmetrySector::new().with_map(translation, 1)).unwrap();

    assert_eq!(empty.len(), 0);
    assert!(empty.is_empty());
    assert_eq!(PackedBasis::from(empty).len(), 0);
}

#[test]
fn exact_u128_radix_capacity_is_accepted() {
    let map = LatticeSymmetryMap::site_permutation(4, (0..64).collect::<Vec<_>>()).unwrap();
    assert_eq!(map.sites(), 64);
    assert_eq!(map.states_per_site(), 4);
    assert_eq!(image(&map, u128::MAX).unwrap().0, u128::MAX);
}

#[test]
fn a_symmetry_returns_after_its_period() {
    let map = LatticeSymmetryMap::new(
        3,
        vec![1, 2, 0, 3],
        Some(vec![vec![1, 2, 0], vec![0, 1, 2], vec![2, 1, 0], vec![0, 2, 1]]),
        ExchangeStatistics::Distinguishable,
    )
    .unwrap();
    let period = LatticeSymmetryMap::period(&map);
    for start in 0..81u128 {
        let mut state = start;
        for _ in 0..period {
            state = map.exchange(state).unwrap().0;
        }
        assert_eq!(state, start);
    }
    assert!(map.exchange(81).is_err());
}

#[test]
fn reversed_bases_list_states_backwards() {
    let basis = PackedBasis::from(SpinBasis1D::builder(3).up(1).build().unwrap());
    let forward = states(&basis);
    let turned = basis.reversed();
    let mut backward = states(&turned);
    assert_eq!(turned.index(forward[0]).unwrap(), 2);
    backward.reverse();
    assert_eq!(forward, backward);
    assert_eq!(states(&turned.reversed()), forward);
}

#[test]
fn general_bases_know_representatives_and_orbits() {
    let parent = SpinBasis1D::builder(4).up(2).build().unwrap();
    let translation = LatticeSymmetryMap::site_permutation(2, vec![1, 2, 3, 0]).unwrap();
    let basis: GeneralBasis<SpinBasis1D> =
        GeneralBasis::new::<C, _>(parent, SymmetrySector::new().with_map(translation, 0)).unwrap();
    assert_eq!(states(&basis), vec![0b0011, 0b0101]);
    assert_eq!(basis.representative(0b1100).unwrap(), 0b0011);
    assert_eq!(basis.orbit_size(0b0011).unwrap(), 4);
    assert_eq!(basis.orbit_size(0b0101).unwrap(), 2);
    assert!(basis.representative(0b0001).is_err());
}

#[test]
fn wide_integers_keep_their_bits() {
    let low: U256 = python_int_to_basis_int(0b1011);
    let high = bitwise_leftshift(low, 200);
    assert_eq!(high.count_ones(), 3);
    assert_eq!(bitwise_rightshift(high, 200), low);
    assert!(high.bit(256).is_err());
    assert!(low.with_bit(256, true).is_err());
    assert!(basis_int_to_python_int(high).is_err());
    assert_eq!(bitwise_and(low, bitwise_not(low)), U256::zero());
    let large = BigUint::from(1_u8) << 300;
    let fits: Result<U256> = state_from_biguint(&large);
    assert!(fits.is_err());
    let other: BigUint = state_to_biguint(high);
    assert_eq!(other, BigUint::from(0b1011_u8) << 200);
}

#[test]
fn operator_strings_tell_their_particle_change() {
    assert_eq!(operator_number_change("+z-n").unwrap(), Some(0));
    assert_eq!(operator_number_change("++|-").unwrap(), Some(1));
    assert_eq!(operator_number_change("+x").unwrap(), None);
    assert!(matches!(
        operator_number_change("+q"),
        Err(QmbedError::InvalidOperator(_))
    ));
}

#[test]
fn sectors_are_kept_by_number_conserving_strings() {
    let basis = BosonBasis1D::builder(3, 4).particles(3).build().unwrap();
    for state in states(&basis) {
        let found: Vec<Weighted<u128, C>> =
            apply_local_transitions(&basis, state, "+-", &[0, 2]).unwrap();
        for outcome in found {
            assert!(basis.index(outcome.state).is_ok());
        }
    }
    assert!(basis.operator_preserves_particle_sector("+-").unwrap());
    assert!(!basis.operator_preserves_particle_sector("+").unwrap());
}

#[test]
fn fermion_operators_anticommute() {
    let basis = SpinlessFermionBasis1D::builder(4).build().unwrap();
    for state in 0..16u128 {
        let ab: Vec<Weighted<u128, C>> =
            apply_local_transitions(&basis, state, "+-", &[0, 2]).unwrap();
        let ba: Vec<Weighted<u128, C>> =
            apply_local_transitions(&basis, state, "-+", &[2, 0]).unwrap();
        assert_eq!(ab.len(), ba.len());
        for (left, right) in ab.iter().zip(&ba) {
            assert_eq!(left.state, right.state);
            assert_eq!(left.amplitude.0, -right.amplitude.0);
        }
        let twice: Vec<Weighted<u128, C>> =
            apply_local_transitions(&basis, state, "++", &[1, 1]).unwrap();
        assert!(twice.is_empty());
    }
}

#[test]
fn photon_spaces_have_their_dimensions() {
    assert_eq!(photon_hspace_dim(2, Some(1), Some(2)).unwrap(), 3);
    assert_eq!(photon_hspace_dim(4, None, Some(3)).unwrap(), 64);
    assert_eq!(photon_hspace_dim(8, Some(4), None).unwrap(), 163);
    assert!(photon_hspace_dim(8, None, None).is_err());
    assert_eq!(
        photon_hspace_dim(63, Some(31), Some(0)).unwrap(),
        916_312_070_471_295_267
    );
    assert!(matches!(
        photon_hspace_dim(70, Some(35), Some(0)),
        Err(QmbedError::UnsupportedBackend(_))
    ));
}

#[test]
fn storage_grows_with_the_lattice() {
    assert_eq!(get_basis_type(20, None, 2).unwrap(), StateStorage::U128);
    assert_eq!(get_basis_type(200, None, 2).unwrap(), StateStorage::U256);
    assert!(get_basis_type(20_000, None, 2).is_err());
}

#[test]
fn occupations_and_bits_are_read_back() {
    let list = vec![0_u128, 5, 15];
    let occupations = states_to_array(&list, 4, 2).unwrap();
    assert_eq!(array_to_states(&occupations, 2).unwrap(), list);
    let binary = ints_to_array(&list, 4).unwrap();
    assert_eq!(binary[1], vec![0, 1, 0, 1]);
    assert_eq!(array_to_ints(&binary).unwrap(), list);
    assert!(states_to_array(&[16], 4, 2).is_err());
    assert!(array_to_ints(&[vec![2]]).is_err());
}

#[test]
fn symmetry_sectors_of_given_states_are_tested_for_closure() {
    let closed = vec![1_u128, 2, 4, 8];
    let sector = qmbed::symmetry::spin_symmetry_sector(&closed, 4, 2, Some(-1), None)
        .ok()
        .unwrap();
    assert_eq!(sector.states, vec![1]);
    assert_eq!(sector.orbit_sizes, vec![4]);
    assert_eq!(sector.members, closed);
    assert_eq!(sector.momentum, Some(3));
    let open = vec![1_u128, 2];
    assert!(matches!(
        qmbed::symmetry::spin_symmetry_sector(&open, 4, 2, Some(0), None),
        Err(QmbedError::IncompatibleSymmetry(_))
    ));
    let plain = qmbed::symmetry::spin_symmetry_sector(&open, 4, 2, None, None)
        .ok()
        .unwrap();
    assert_eq!(plain.states, open);

    let completed = qmbed::symmetry::fermion_translation_sector(&open, 4, Some(1))
        .ok()
        .unwrap();
    assert_eq!(completed.states, vec![1]);
    assert_eq!(completed.orbit_sizes, vec![4]);
    assert_eq!(completed.members, closed);
    let untouched = qmbed::symmetry::fermion_translation_sector(&open, 4, None)
        .ok()
        .unwrap();
    assert_eq!(untouched.states, open);
    assert_eq!(untouched.orbit_sizes, vec![1, 1]);
    assert_eq!(untouched.images[1].representative, 2);
}

#[test]
fn photon_dimension_counts_the_photon_basis() {
    for total in 0..5_usize {
        let matter = SpinBasis1D::builder(3).build().unwrap();
        let photon = BosonBasis1D::builder(1, 3).build().unwrap();
        let expected = photon_hspace_dim(3, Some(total), Some(2)).unwrap();
        let basis =
            qmbed::basis::PhotonBasis::fixed_total_excitations(matter, photon, total, |state: u128| {
                state.count_ones() as usize
            })
            .ok()
            .unwrap();
        assert_eq!(basis.len(), expected);
    }
    let matter = SpinBasis1D::builder(3).build().unwrap();
    let photon = BosonBasis1D::builder(1, 3).build().unwrap();
    let all = qmbed::basis::PhotonBasis::new(matter, photon).ok().unwrap();
    assert_eq!(all.len(), photon_hspace_dim(3, None, Some(2)).unwrap());
}

#[test]
fn refused_integers_name_their_width() {
    let wide = BigUint::from(1_u8) << 256;
    let error = state_from_biguint::<4>(&wide).unwrap_err();
    assert!(error
        .message()
        .contains("integer needs 257 bits but this state stores 256 bits"));
    let widest = wide - BigUint::from(1_u8);
    let kept: U256 = state_from_biguint(&widest).unwrap();
    assert_eq!(state_to_biguint(kept), widest);
}

#[test]
fn momentum_sectors_of_fermions_add_up_to_the_particle_sector() {
    for (sites, particles, all) in [(6, 3, 20), (6, 2, 15), (5, 2, 10), (4, 4, 1)] {
        let mut states = 0;
        for momentum in 0..sites {
            match SpinlessFermionBasis1D::builder(sites)
                .particles(particles)
                .momentum(momentum as i32)
                .build()
            {
                Ok(basis) => states += basis.len(),
                Err(error) => assert!(matches!(error, QmbedError::InvalidSector(_))),
            }
        }
        assert_eq!(states, all);
    }
}

/// A map that exchanges pairs of states.
struct Exchange(Vec<(u128, u128)>);

impl SymmetryMap<u128, C> for Exchange {
    fn period(&self) -> usize {
        2
    }

    fn apply(&self, state: u128) -> Result<(u128, C)> {
        for &(first, second) in &self.0 {
            if state == first {
                return Ok((second, c(1.0)));
            }
            if state == second {
                return Ok((first, c(1.0)));
            }
        }
        Ok((state, c(1.0)))
    }
}

#[test]
fn overlapping_orbits_may_list_a_state_twice() {
    let parent = SpinBasis1D::builder(3).build().unwrap();
    let sector = SymmetrySector::new()
        .with_map(Exchange(vec![(0, 2), (1, 3)]), 0)
        .with_map(Exchange(vec![(0, 1), (2, 4), (3, 5)]), 0);
    let basis = GeneralBasis::new::<C, Exchange>(parent, sector).ok().unwrap();
    let listed: Vec<u128> = (0..basis.len())
        .map(|index| basis.state(index).unwrap())
        .collect();
    assert_eq!(listed, vec![0, 0, 6, 7]);
    assert_eq!(basis.orbit_size(2).unwrap(), 4);
    assert_eq!(basis.orbit_size(5).unwrap(), 4);
    assert_eq!(basis.orbit_size(6).unwrap(), 1);
    assert_eq!(basis.representative(4).unwrap(), 0);
    assert_eq!(basis.representative(5).unwrap(), 0);
    let found = basis.index(0).unwrap();
    assert_eq!(basis.state(found).unwrap(), 0);
    assert_eq!(basis.index(6).unwrap(), 2);
    assert!(matches!(
        basis.index(1).unwrap_err(),
        QmbedError::StateNotInBasis
    ));

    let again = GeneralBasis::new::<C, Exchange>(basis, SymmetrySector::new())
        .ok()
        .unwrap();
    let copied: Vec<u128> = (0..again.len())
        .map(|index| again.state(index).unwrap())
        .collect();
    assert_eq!(copied, vec![0, 0, 6, 7]);
    let photon = BosonBasis1D::builder(1, 2).build().unwrap();
    let joint = qmbed::basis::PhotonBasis::new(again, photon).ok().unwrap();
    assert_eq!(joint.len(), 8);
    for place in 0..joint.len() {
        let pair = joint.state(place).unwrap();
        let found = joint.index(pair).unwrap();
        let same = joint.state(found).unwrap();
        assert_eq!((same.left, same.right), (pair.left, pair.right));
    }
    let first = joint.state(0).unwrap();
    assert_eq!(joint.index(first).unwrap(), 2);
}

/// A map that refuses a state.
struct Refusing;

impl SymmetryMap<u128, C> for Refusing {
    fn period(&self) -> usize {
        1
    }

    fn apply(&self, state: u128) -> Result<(u128, C)> {
        if state == 2 {
            Err(QmbedError::UnsupportedBackend("not this state".to_string()))
        } else {
            Ok((state, c(1.0)))
        }
    }
}

#[test]
fn the_error_of_a_symmetry_map_is_handed_on() {
    let parent = SpinBasis1D::builder(2).build().unwrap();
    let error = GeneralBasis::new::<C, Refusing>(parent, SymmetrySector::new().with_map(Refusing, 0))
        .err()
        .unwrap();
    assert!(matches!(error, QmbedError::UnsupportedBackend(text) if text == "not this state"));
}
