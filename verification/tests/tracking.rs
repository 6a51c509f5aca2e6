use num_complex::Complex64;
use qmbed::local::{Bits, LocalFactor, Reduction};
use qmbed::scalar::{Amplitude, Multiplicity, Scalar};
use qmbed::tracking::{Overlap, WEIGHT_LIMIT};
use qmbed::workflow::track_states;
use qmbed::QmbedError;

/// A complex number.
#[derive(Clone, Copy, Debug, PartialEq)]
struct C(Complex64);

fn c(re: f64) -> C {
    C(Complex64::new(re, 0.0))
}

#[allow(dead_code)]
fn z(re: f64, im: f64) -> C {
    C(Complex64::new(re, im))
}

#[allow(dead_code)]
fn close(actual: C, expected: C, epsilon: f64) {
    assert!(
        (actual.0 - expected.0).norm() <= epsilon,
        "{} is not {}",
        actual.0,
        expected.0
    );
}

impl Scalar for C {
    type Tolerance = f64;

    fn lemma_zero() {}

    fn zero() -> C {
        c(0.0)
    }

    fn one() -> C {
        c(1.0)
    }

    fn minus_one() -> C {
        c(-1.0)
    }

    fn plus(self, other: C) -> C {
        C(self.0 + other.0)
    }

    fn times(self, other: C) -> C {
        C(self.0 * other.0)
    }

    fn conjugate(self) -> C {
        C(self.0.conj())
    }

    fn is_zero(self) -> bool {
        self.0.re.to_bits() == 0 && self.0.im.to_bits() == 0
    }

    fn is_negligible(self) -> bool {
        self.0.norm() <= f64::EPSILON
    }

    fn is_finite(self) -> bool {
        self.0.re.is_finite() && self.0.im.is_finite()
    }

    fn is_real(self) -> bool {
        self.0.im == 0.0
    }

    fn equals(self, other: C) -> bool {
        self.0 == other.0
    }

    fn within(self, other: C, tolerance: f64) -> bool {
        (self.0 - other.0).norm() <= tolerance
    }

    fn is_usable(tolerance: f64) -> bool {
        tolerance.is_finite() && tolerance >= 0.0
    }

    fn strict() -> f64 {
        1.0e-12
    }
}

impl Amplitude for C {
    fn lemma_bits(self) {}

    fn from_local(factor: LocalFactor) -> C {
        let turn = match factor.quarter_turns {
            0 => Complex64::new(1.0, 0.0),
            1 => Complex64::new(0.0, 1.0),
            2 => Complex64::new(-1.0, 0.0),
            _ => Complex64::new(0.0, -1.0),
        };
        let half = if factor.halved { 0.5 } else { 1.0 };
        C(turn * (factor.numerator as f64 * half * (factor.radicand as f64).sqrt()))
    }

    fn from_reduction(reduction: Reduction) -> C {
        let ratio = reduction.source_orbit as f64 / reduction.target_orbit as f64;
        let angle = std::f64::consts::TAU * reduction.turn as f64 / reduction.steps as f64;
        let phase = if reduction.turn == 0 {
            Complex64::new(1.0, 0.0)
        } else {
            Complex64::from_polar(1.0, angle)
        };
        let given = match reduction.given {
            Some(bits) => C::from_bits(bits).0.conj(),
            None => Complex64::new(1.0, 0.0),
        };
        C(phase * given * ratio.sqrt())
    }

    fn root(sector: usize, power: usize, steps: usize) -> C {
        let angle = -std::f64::consts::TAU * (sector * power) as f64 / steps as f64;
        C(Complex64::from_polar(1.0, angle))
    }

    fn member(phase: C, orbit_size: usize) -> C {
        C(phase.0 / (orbit_size as f64).sqrt())
    }

    fn vanishes(self) -> bool {
        self.0.norm() <= 1.0e-12
    }

    fn is_unity(self) -> bool {
        (self.0 - Complex64::new(1.0, 0.0)).norm() <= 1.0e-10
    }

    fn align(coefficients: &Vec<C>, chosen: usize) -> Option<Vec<C>> {
        let first = coefficients[chosen].0;
        let gauge = first / first.norm();
        let norm = coefficients
            .iter()
            .map(|value| value.0.norm_sqr())
            .sum::<f64>()
            .sqrt();
        let expected = 1.0 / (coefficients.len() as f64).sqrt();
        let mut phases = Vec::new();
        for value in coefficients {
            let normalized = value.0 / (gauge * norm);
            if (normalized.norm() - expected).abs() > 1.0e-10 {
                return None;
            }
            phases.push(C(normalized / expected));
        }
        Some(phases)
    }

    fn to_bits(self) -> Bits {
        Bits {
            first: self.0.re.to_bits(),
            second: self.0.im.to_bits(),
        }
    }

    fn from_bits(bits: Bits) -> C {
        z(f64::from_bits(bits.first), f64::from_bits(bits.second))
    }
}


impl Overlap for C {
    type Size = f64;

    fn size(self) -> f64 {
        self.0.norm()
    }

    fn no_size() -> f64 {
        0.0
    }

    fn is_larger(first: f64, second: f64) -> bool {
        first > second
    }

    fn is_hardly_larger(first: f64, second: f64, tolerance: f64) -> bool {
        first - second <= tolerance
    }

    fn is_fair(tolerance: f64) -> bool {
        tolerance.is_finite() && tolerance >= 0.0
    }

    fn weight(size: f64, largest: f64) -> i64 {
        if largest > 0.0 && largest.is_finite() {
            let scale = largest.log2().floor().exp2();
            ((size / scale).min(2.0) * 576_460_752_303_423_488.0) as i64
        } else if size > 0.0 {
            WEIGHT_LIMIT
        } else {
            0
        }
    }

    fn gauge(self) -> C {
        let magnitude = self.0.norm();
        if magnitude > f64::EPSILON {
            C(self.0.conj() / magnitude)
        } else {
            c(1.0)
        }
    }
}

#[test]
fn state_tracking_is_permutation_and_phase_invariant() {
    let previous = vec![vec![c(1.0), c(0.0)], vec![c(0.0), c(1.0)]];
    let current = vec![vec![c(0.0), z(0.0, -1.0)], vec![c(-1.0), c(0.0)]];
    let found = track_states(&previous, &current, 1.0e-8).unwrap();
    assert_eq!(found.permutation, vec![1, 0]);
    assert!(found.ambiguous.is_empty());
    assert_eq!(found.overlaps, vec![1.0, 1.0]);
    assert!((found.phases[0].0.re + 1.0).abs() <= 1.0e-12);
    assert!((found.phases[1].0.im - 1.0).abs() <= 1.0e-12);
}

#[test]
fn state_tracking_reports_ambiguous_frames() {
    let amplitude = 1.0 / 2.0_f64.sqrt();
    let previous = vec![vec![c(1.0), c(0.0)], vec![c(0.0), c(1.0)]];
    let current = vec![
        vec![c(amplitude), c(amplitude)],
        vec![c(amplitude), c(-amplitude)],
    ];
    let found = track_states(&previous, &current, 1.0e-12).unwrap();
    assert_eq!(found.ambiguous, vec![0, 1]);
}

#[test]
fn frames_that_cannot_be_compared_are_refused() {
    let one = |ways: u64| Multiplicity { ways };
    let frame = vec![vec![one(1), one(0)], vec![one(0), one(1)]];
    let found = track_states(&frame, &frame, 0).unwrap();
    assert_eq!(found.permutation, vec![0, 1]);
    assert_eq!(found.overlaps, vec![1, 1]);
    assert!(matches!(
        track_states(&frame, &frame[..1], 0).unwrap_err(),
        QmbedError::InvalidOptions(_)
    ));
    let numbers = vec![vec![c(1.0)]];
    for tolerance in [-1.0, f64::NAN, f64::INFINITY] {
        assert!(matches!(
            track_states(&numbers, &numbers, tolerance).unwrap_err(),
            QmbedError::InvalidOptions(_)
        ));
    }
    let shorter = vec![vec![one(1)], vec![one(1)]];
    assert!(matches!(
        track_states(&frame, &shorter, 0).unwrap_err(),
        QmbedError::DimensionMismatch(_)
    ));
    let empty: Vec<Vec<Multiplicity>> = vec![vec![]];
    assert!(matches!(
        track_states(&empty, &empty, 0).unwrap_err(),
        QmbedError::DimensionMismatch(_)
    ));
}

#[test]
fn large_overlaps_are_told_apart() {
    let previous = vec![vec![c(1000.0), c(0.0)], vec![c(0.0), c(1000.0)]];
    let current = vec![vec![c(300.0), c(700.0)], vec![c(900.0), c(400.0)]];
    let found = track_states(&previous, &current, 1.0).unwrap();
    assert_eq!(found.permutation, vec![1, 0]);
    assert_eq!(found.overlaps, vec![900_000.0, 700_000.0]);
    assert!(found.ambiguous.is_empty());
    let coarse = track_states(&previous, &current, 300_000.0).unwrap();
    assert_eq!(coarse.ambiguous, vec![1]);
    let many = |ways: u64| Multiplicity { ways };
    let wide = vec![vec![many(1 << 62), many(0)], vec![many(0), many(1 << 62)]];
    let turned = vec![vec![many(0), many(3)], vec![many(2), many(1)]];
    let matched = track_states(&wide, &turned, 0).unwrap();
    assert_eq!(matched.permutation, vec![1, 0]);
    assert_eq!(matched.overlaps, vec![1 << 63, 3 << 62]);
}

#[test]
fn tiny_overlaps_are_told_apart() {
    let previous = vec![vec![c(1.0e-20), c(0.0)], vec![c(0.0), c(1.0e-20)]];
    let current = vec![vec![c(1.0e-3), c(2.0e-3)], vec![c(3.0e-3), c(1.0e-3)]];
    let found = track_states(&previous, &current, 0.0).unwrap();
    assert_eq!(found.permutation, vec![1, 0]);
    assert!(found.ambiguous.is_empty());
}
