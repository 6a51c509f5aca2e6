use std::io::{Cursor, Write};

use num_complex::Complex64;
use qmbed::archive::{
    check_version, count_needed, load_operator_npz, npy_header, parse_npy_header, read_complex_matrix,
    read_version, save_operator_npz, write_complex_npy, write_u8_npy, Purpose, ARCHIVE_VERSION,
};
use qmbed::local::{Bits, LocalFactor, Reduction};
use qmbed::npz::{pack_matrix, unpack_matrix, unpack_members};
use qmbed::operator::{MatrixFormat, Operator};
use qmbed::scalar::{Amplitude, Scalar};
use qmbed::QmbedError;
use zip::write::SimpleFileOptions;
use zip::{CompressionMethod, ZipWriter};

/// A complex number.
#[derive(Clone, Copy, Debug, PartialEq)]
struct C(Complex64);

fn c(re: f64) -> C {
    C(Complex64::new(re, 0.0))
}

#[allow(dead_code)]
fn z(re: f64, im: f64) -> C {
    C(Complex64::new(re, im))
}

#[allow(dead_code)]
fn close(actual: C, expected: C, epsilon: f64) {
    assert!(
        (actual.0 - expected.0).norm() <= epsilon,
        "{} is not {}",
        actual.0,
        expected.0
    );
}

impl Scalar for C {
    type Tolerance = f64;

    fn lemma_zero() {}

    fn zero() -> C {
        c(0.0)
    }

    fn one() -> C {
        c(1.0)
    }

    fn minus_one() -> C {
        c(-1.0)
    }

    fn plus(self, other: C) -> C {
        C(self.0 + other.0)
    }

    fn times(self, other: C) -> C {
        C(self.0 * other.0)
    }

    fn conjugate(self) -> C {
        C(self.0.conj())
    }

    fn is_zero(self) -> bool {
        self.0.re.to_bits() == 0 && self.0.im.to_bits() == 0
    }

    fn is_negligible(self) -> bool {
        self.0.norm() <= f64::EPSILON
    }

    fn is_finite(self) -> bool {
        self.0.re.is_finite() && self.0.im.is_finite()
    }

    fn is_real(self) -> bool {
        self.0.im == 0.0
    }

    fn equals(self, other: C) -> bool {
        self.0 == other.0
    }

    fn within(self, other: C, tolerance: f64) -> bool {
        (self.0 - other.0).norm() <= tolerance
    }

    fn is_usable(tolerance: f64) -> bool {
        tolerance.is_finite() && tolerance >= 0.0
    }

    fn strict() -> f64 {
        1.0e-12
    }
}

impl Amplitude for C {
    fn lemma_bits(self) {}

    fn from_local(factor: LocalFactor) -> C {
        let turn = match factor.quarter_turns {
            0 => Complex64::new(1.0, 0.0),
            1 => Complex64::new(0.0, 1.0),
            2 => Complex64::new(-1.0, 0.0),
            _ => Complex64::new(0.0, -1.0),
        };
        let half = if factor.halved { 0.5 } else { 1.0 };
        C(turn * (factor.numerator as f64 * half * (factor.radicand as f64).sqrt()))
    }

    fn from_reduction(reduction: Reduction) -> C {
        let ratio = reduction.source_orbit as f64 / reduction.target_orbit as f64;
        let angle = std::f64::consts::TAU * reduction.turn as f64 / reduction.steps as f64;
        let phase = if reduction.turn == 0 {
            Complex64::new(1.0, 0.0)
        } else {
            Complex64::from_polar(1.0, angle)
        };
        let given = match reduction.given {
            Some(bits) => C::from_bits(bits).0.conj(),
            None => Complex64::new(1.0, 0.0),
        };
        C(phase * given * ratio.sqrt())
    }

    fn root(sector: usize, power: usize, steps: usize) -> C {
        let angle = -std::f64::consts::TAU * (sector * power) as f64 / steps as f64;
        C(Complex64::from_polar(1.0, angle))
    }

    fn member(phase: C, orbit_size: usize) -> C {
        C(phase.0 / (orbit_size as f64).sqrt())
    }

    fn vanishes(self) -> bool {
        self.0.norm() <= 1.0e-12
    }

    fn is_unity(self) -> bool {
        (self.0 - Complex64::new(1.0, 0.0)).norm() <= 1.0e-10
    }

    fn align(coefficients: &Vec<C>, chosen: usize) -> Option<Vec<C>> {
        let first = coefficients[chosen].0;
        let gauge = first / first.norm();
        let norm = coefficients
            .iter()
            .map(|value| value.0.norm_sqr())
            .sum::<f64>()
            .sqrt();
        let expected = 1.0 / (coefficients.len() as f64).sqrt();
        let mut phases = Vec::new();
        for value in coefficients {
            let normalized = value.0 / (gauge * norm);
            if (normalized.norm() - expected).abs() > 1.0e-10 {
                return None;
            }
            phases.push(C(normalized / expected));
        }
        Some(phases)
    }

    fn to_bits(self) -> Bits {
        Bits {
            first: self.0.re.to_bits(),
            second: self.0.im.to_bits(),
        }
    }

    fn from_bits(bits: Bits) -> C {
        z(f64::from_bits(bits.first), f64::from_bits(bits.second))
    }
}

#[test]
fn versioned_npz_round_trip_preserves_complex_values_and_requested_format() {
    assert_eq!(ARCHIVE_VERSION, 1);
    let operator = Operator::from_dense(
        2,
        2,
        vec![c(1.0), z(0.25, -0.5), z(0.25, 0.5), c(-2.0)],
    )
    .unwrap();
    let bytes = save_operator_npz(&operator).unwrap();
    let loaded: Operator<C> = load_operator_npz(&bytes, MatrixFormat::Csc).unwrap();
    assert_eq!(loaded.format, MatrixFormat::Csc);
    for (actual, expected) in loaded.to_dense().iter().zip(operator.to_dense()) {
        close(*actual, expected, 1.0e-15);
    }
}

#[test]
fn archives_hold_named_members() {
    let bytes = pack_matrix(1, 2, &[(1, 2), (3, 4)]).unwrap();
    assert_eq!(&bytes[..2], b"PK");
    let matrix = unpack_matrix(&bytes).unwrap();
    assert_eq!((matrix.rows, matrix.columns), (1, 2));
    assert_eq!(matrix.values, vec![(1, 2), (3, 4)]);
    assert!(matches!(
        unpack_matrix(b"no archive"),
        Err(QmbedError::Archive(_))
    ));
    assert!(matches!(
        pack_matrix(2, 2, &[(0, 0)]),
        Err(QmbedError::DimensionMismatch(_))
    ));
}

#[test]
fn other_versions_are_refused() {
    let matrix = write_complex_npy(1, 1, &[(7, 8)]).unwrap();
    let version = write_u8_npy(&[2]).unwrap();
    assert!(unpack_members(Some(version), Some(matrix.clone())).is_err());
    assert_eq!(
        unpack_members(None, Some(matrix)).unwrap().values,
        vec![(7, 8)]
    );
    assert!(unpack_members(None, None).is_err());
    assert!(check_version(1).is_ok());
    assert!(check_version(2).is_err());
}

#[test]
fn headers_are_aligned_and_read_back() {
    let bytes = npy_header(b"<c16", &[3, 4]).unwrap();
    assert_eq!(bytes.len() % 16, 0);
    assert_eq!(&bytes[..6], b"\x93NUMPY");
    let header = parse_npy_header(&bytes).unwrap();
    assert_eq!(header.descriptor, b"<c16".to_vec());
    assert_eq!(header.shape, vec![3, 4]);
    assert_eq!(header.length, bytes.len());
    let single = npy_header(b"|u1", &[5]).unwrap();
    assert!(single.windows(4).any(|part| part == b"(5,)"));
}

#[test]
fn versions_and_matrices_are_read_back() {
    let bytes = write_u8_npy(&[9]).unwrap();
    assert_eq!(read_version(&bytes).unwrap(), 9);
    assert!(read_version(&bytes[..bytes.len() - 1]).is_err());
    let values = [(0.5f64.to_bits(), 1.5f64.to_bits())];
    let bytes = write_complex_npy(1, 1, &values).unwrap();
    assert_eq!(read_complex_matrix(&bytes).unwrap().values, values.to_vec());
    assert!(read_version(&bytes).is_err());
    assert!(read_complex_matrix(&bytes[..20]).is_err());
}

#[test]
fn foreign_headers_are_understood() {
    let text = "{\"descr\": \"=c16\", \"fortran_order\": False, \"shape\": ( 1 , +1, )}\n";
    let mut bytes = b"\x93NUMPY\x02\x00".to_vec();
    bytes.extend((text.len() as u32).to_le_bytes());
    bytes.extend(text.as_bytes());
    bytes.extend(1.0f64.to_le_bytes());
    bytes.extend(2.0f64.to_le_bytes());
    let matrix = read_complex_matrix(&bytes).unwrap();
    assert_eq!(
        matrix.values,
        vec![(1.0f64.to_bits(), 2.0f64.to_bits())]
    );
    let turned = text.replace("False", "True");
    let mut bytes = b"\x93NUMPY\x02\x00".to_vec();
    bytes.extend((turned.len() as u32).to_le_bytes());
    bytes.extend(turned.as_bytes());
    assert!(parse_npy_header(&bytes).is_err());
    let mut bytes = b"\x93NUMPY\x01\x00\x01\x00".to_vec();
    bytes.push(0xff);
    assert!(parse_npy_header(&bytes).is_err());
}

#[test]
fn headers_come_back_for_any_unquoted_descriptor() {
    let descriptor = "<µ8 é".as_bytes();
    let mut bytes = qmbed::archive::npy_header(descriptor, &[2, 3]).unwrap();
    let length = bytes.len();
    bytes.extend_from_slice(&[1, 2, 3]);
    let header = qmbed::archive::parse_npy_header(&bytes).unwrap();
    assert_eq!(header.descriptor, descriptor);
    assert_eq!(header.shape, vec![2, 3]);
    assert_eq!(header.length, length);
}

#[test]
fn refused_archive_versions_are_named() {
    assert!(qmbed::archive::check_version(9)
        .unwrap_err()
        .message()
        .contains("unsupported operator archive version 9"));
}

/// An archive whose members are stored as they are.
fn stored_archive(members: &[(&str, &[u8])]) -> Vec<u8> {
    let mut writer = ZipWriter::new(Cursor::new(Vec::new()));
    let options = SimpleFileOptions::default().compression_method(CompressionMethod::Stored);
    for (name, contents) in members {
        writer.start_file(*name, options).unwrap();
        writer.write_all(contents).unwrap();
    }
    writer.finish().unwrap().into_inner()
}

fn damage(bytes: &mut [u8], mark: &[u8]) {
    let at = bytes
        .windows(mark.len())
        .position(|window| window == mark)
        .unwrap();
    bytes[at] ^= 0xff;
}

#[test]
fn archives_without_a_version_are_read() {
    let matrix = write_complex_npy(1, 2, &[(1, 2), (3, 4)]).unwrap();
    let bytes = stored_archive(&[("matrix.npy", &matrix)]);
    assert_eq!(unpack_matrix(&bytes).unwrap().values, vec![(1, 2), (3, 4)]);
    let version = write_u8_npy(&[ARCHIVE_VERSION]).unwrap();
    let empty = stored_archive(&[("archive_version.npy", &version)]);
    assert!(matches!(
        unpack_matrix(&empty),
        Err(QmbedError::Archive(_))
    ));
}

#[test]
fn damage_behind_the_matrix_does_not_matter() {
    let mut matrix = write_complex_npy(1, 2, &[(1, 2), (3, 4)]).unwrap();
    let length = matrix.len();
    assert_eq!(count_needed(&matrix, Purpose::Matrix), Some(length));
    matrix.extend_from_slice(b"what stands behind the numbers");
    assert_eq!(count_needed(&matrix, Purpose::Matrix), Some(length));
    let mut version = write_u8_npy(&[ARCHIVE_VERSION]).unwrap();
    version.extend_from_slice(b"more than one byte");
    let mut bytes = stored_archive(&[("archive_version.npy", &version), ("matrix.npy", &matrix)]);
    damage(&mut bytes, b"behind the numbers");
    damage(&mut bytes, b"more than one byte");
    let read = unpack_matrix(&bytes).unwrap();
    assert_eq!((read.rows, read.columns), (1, 2));
    assert_eq!(read.values, vec![(1, 2), (3, 4)]);
}

#[test]
fn damaged_members_are_refused() {
    let matrix = write_complex_npy(1, 1, &[(7, 8)]).unwrap();
    let mut bytes = stored_archive(&[("archive_version.npy", b"short"), ("matrix.npy", &matrix)]);
    damage(&mut bytes, b"short");
    assert!(matches!(
        unpack_matrix(&bytes),
        Err(QmbedError::Archive(_))
    ));
    let mut cut = stored_archive(&[("matrix.npy", &matrix[..matrix.len() - 1])]);
    assert!(matches!(unpack_matrix(&cut), Err(QmbedError::Archive(_))));
    damage(&mut cut, b"NUMPY");
    assert!(matches!(unpack_matrix(&cut), Err(QmbedError::Archive(_))));
}

#[test]
fn array_files_tell_how_long_they_are() {
    let version = write_u8_npy(&[ARCHIVE_VERSION]).unwrap();
    assert_eq!(count_needed(&version[..4], Purpose::Version), Some(8));
    assert_eq!(count_needed(&version[..8], Purpose::Version), Some(10));
    let header = version.len() - 1;
    assert_eq!(count_needed(&version[..10], Purpose::Version), Some(header));
    assert_eq!(
        count_needed(&version, Purpose::Version),
        Some(version.len())
    );
    let huge = npy_header(b"<c16", &[1 << 40, 1 << 23]).unwrap();
    assert_eq!(count_needed(&huge, Purpose::Matrix), None);
}
