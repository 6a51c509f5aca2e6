//! The numbers that matrices and amplitudes are made of.

use vstd::prelude::*;
use crate::local::{Bits, LocalFactor, Reduction};

verus! {

/// Numbers that can be added, multiplied and conjugated, with the thresholds by which
/// they count as zero, as finite and as equal. What an implementation leaves out of the
/// specification is not specified.
pub trait Scalar: Copy {
    /// How far apart two numbers may be that still count as equal.
    type Tolerance: Copy;

    open spec fn zero_value() -> Self {
        arbitrary()
    }

    open spec fn one_value() -> Self {
        arbitrary()
    }

    open spec fn minus_one_value() -> Self {
        arbitrary()
    }

    open spec fn sum(self, other: Self) -> Self {
        arbitrary()
    }

    open spec fn product(self, other: Self) -> Self {
        arbitrary()
    }

    open spec fn mirror(self) -> Self {
        arbitrary()
    }

    /// The number counts as zero and is left out of sparse storage.
    open spec fn tiny(self) -> bool {
        arbitrary()
    }

    open spec fn proper(self) -> bool {
        arbitrary()
    }

    open spec fn imaginary_free(self) -> bool {
        arbitrary()
    }

    /// The numbers are equal as the numbers compare.
    open spec fn matching(self, other: Self) -> bool {
        arbitrary()
    }

    open spec fn near(self, other: Self, tolerance: Self::Tolerance) -> bool {
        arbitrary()
    }

    open spec fn strict_tolerance() -> Self::Tolerance {
        arbitrary()
    }

    /// A tolerance that can be asked for.
    open spec fn usable(tolerance: Self::Tolerance) -> bool {
        arbitrary()
    }

    proof fn lemma_zero()
        ensures
            Self::zero_value().tiny(),
            Self::zero_value().imaginary_free(),
    ;

    fn zero() -> (number: Self)
        ensures
            number == Self::zero_value(),
    ;

    fn one() -> (number: Self)
        ensures
            number == Self::one_value(),
    ;

    fn minus_one() -> (number: Self)
        ensures
            number == Self::minus_one_value(),
    ;

    fn plus(self, other: Self) -> (number: Self)
        ensures
            number == self.sum(other),
    ;

    fn times(self, other: Self) -> (number: Self)
        ensures
            number == self.product(other),
    ;

    fn conjugate(self) -> (number: Self)
        ensures
            number == self.mirror(),
    ;

    fn is_negligible(self) -> (negligible: bool)
        ensures
            negligible == self.tiny(),
    ;

    /// The number is zero itself.
    fn is_zero(self) -> (zero: bool)
        ensures
            zero == (self == Self::zero_value()),
    ;

    fn is_finite(self) -> (finite: bool)
        ensures
            finite == self.proper(),
    ;

    fn is_real(self) -> (real_valued: bool)
        ensures
            real_valued == self.imaginary_free(),
    ;

    fn equals(self, other: Self) -> (same: bool)
        ensures
            same == self.matching(other),
    ;

    fn within(self, other: Self, tolerance: Self::Tolerance) -> (close: bool)
        ensures
            close == self.near(other, tolerance),
    ;

    fn is_usable(tolerance: Self::Tolerance) -> (usable: bool)
        ensures
            usable == Self::usable(tolerance),
    ;

    /// The tolerance within which assembled operators have to be Hermitian.
    fn strict() -> (tolerance: Self::Tolerance)
        ensures
            tolerance == Self::strict_tolerance(),
    ;
}

/// The number is zero itself, or only counts as zero.
pub open spec fn blank<V: Scalar>(exact: bool, number: V) -> bool {
    if exact {
        number == V::zero_value()
    } else {
        number.tiny()
    }
}

/// Numbers that can hold matrix elements and symmetry phases.
/// What an implementation leaves out of the specification is not specified.
pub trait Amplitude: Scalar {
    open spec fn of_local(factor: LocalFactor) -> Self {
        arbitrary()
    }

    open spec fn of_reduction(reduction: Reduction) -> Self {
        arbitrary()
    }

    /// `exp(-2 pi i turn / steps)`.
    open spec fn root_value(turn: nat, steps: nat) -> Self {
        arbitrary()
    }

    /// `phase / sqrt(orbit_size)`.
    open spec fn member_value(phase: Self, orbit_size: nat) -> Self {
        arbitrary()
    }

    /// An orbit coefficient that counts as zero.
    open spec fn vanishing(self) -> bool {
        arbitrary()
    }

    /// A product of phases that counts as one.
    open spec fn unity(self) -> bool {
        arbitrary()
    }

    /// The coefficients of an orbit divided by their common magnitude and by the phase
    /// of the chosen one; nothing where the magnitudes differ.
    open spec fn aligned(coefficients: Seq<Self>, chosen: int) -> Option<Seq<Self>> {
        arbitrary()
    }

    open spec fn pattern(self) -> Bits {
        arbitrary()
    }

    open spec fn of_bits(bits: Bits) -> Self {
        arbitrary()
    }

    /// A number is given back by its bit patterns.
    proof fn lemma_bits(self)
        ensures
            Self::of_bits(self.pattern()) == self,
    ;

    fn from_local(factor: LocalFactor) -> (number: Self)
        ensures
            number == Self::of_local(factor),
    ;

    fn from_reduction(reduction: Reduction) -> (number: Self)
        ensures
            number == Self::of_reduction(reduction),
    ;

    /// `exp(-2 pi i sector power / steps)`.
    fn root(sector: usize, power: usize, steps: usize) -> (number: Self)
        requires
            sector < steps,
            power < steps,
        ensures
            number == Self::root_value((sector * power) as nat, steps as nat),
    ;

    /// A phase over the square root of the number of states in its orbit.
    fn member(phase: Self, orbit_size: usize) -> (number: Self)
        ensures
            number == Self::member_value(phase, orbit_size as nat),
    ;

    fn vanishes(self) -> (zero: bool)
        ensures
            zero == self.vanishing(),
    ;

    fn is_unity(self) -> (one: bool)
        ensures
            one == self.unity(),
    ;

    fn align(coefficients: &Vec<Self>, chosen: usize) -> (phases: Option<Vec<Self>>)
        requires
            chosen < coefficients@.len(),
        ensures
            match phases {
                Some(list) => Self::aligned(coefficients@, chosen as int) == Some(list@)
                    && list@.len() == coefficients@.len(),
                None => Self::aligned(coefficients@, chosen as int) is None,
            },
    ;

    fn to_bits(self) -> (bits: Bits)
        ensures
            bits == self.pattern(),
    ;

    fn from_bits(bits: Bits) -> (number: Self)
        ensures
            number == Self::of_bits(bits),
    ;
}

/// Numbers whose squared magnitudes can be added up and divided by.
/// What an implementation leaves out of the specification is not specified.
pub trait Normed: Scalar {
    type Magnitude: Copy;

    open spec fn nothing() -> Self::Magnitude {
        arbitrary()
    }

    /// The squared magnitude of a number.
    open spec fn squared(self) -> Self::Magnitude {
        arbitrary()
    }

    open spec fn joined(first: Self::Magnitude, second: Self::Magnitude) -> Self::Magnitude {
        arbitrary()
    }

    open spec fn ratio(self, total: Self::Magnitude) -> Self {
        arbitrary()
    }

    /// A finite total that does not count as zero.
    open spec fn positive(total: Self::Magnitude) -> bool {
        arbitrary()
    }

    /// The magnitude whose square is the total.
    open spec fn root_value(total: Self::Magnitude) -> Self::Magnitude {
        arbitrary()
    }

    open spec fn portion(part: Self::Magnitude, total: Self::Magnitude) -> Self::Magnitude {
        arbitrary()
    }

    /// By how much the first exceeds the second, nothing where it does not.
    open spec fn surplus(first: Self::Magnitude, second: Self::Magnitude) -> Self::Magnitude {
        arbitrary()
    }

    open spec fn at_most(total: Self::Magnitude, bound: Self::Magnitude) -> bool {
        arbitrary()
    }

    /// A bound that can be asked for.
    open spec fn askable(bound: Self::Magnitude) -> bool {
        arbitrary()
    }

    fn no_magnitude() -> (total: Self::Magnitude)
        ensures
            total == Self::nothing(),
    ;

    fn root(total: Self::Magnitude) -> (magnitude: Self::Magnitude)
        ensures
            magnitude == Self::root_value(total),
    ;

    fn quotient(part: Self::Magnitude, total: Self::Magnitude) -> (magnitude: Self::Magnitude)
        requires
            Self::positive(total),
        ensures
            magnitude == Self::portion(part, total),
    ;

    fn excess(first: Self::Magnitude, second: Self::Magnitude) -> (magnitude: Self::Magnitude)
        ensures
            magnitude == Self::surplus(first, second),
    ;

    fn is_at_most(total: Self::Magnitude, bound: Self::Magnitude) -> (within: bool)
        ensures
            within == Self::at_most(total, bound),
    ;

    fn is_askable(bound: Self::Magnitude) -> (askable: bool)
        ensures
            askable == Self::askable(bound),
    ;

    fn norm_square(self) -> (total: Self::Magnitude)
        ensures
            total == self.squared(),
    ;

    fn add_magnitudes(first: Self::Magnitude, second: Self::Magnitude) -> (total: Self::Magnitude)
        ensures
            total == Self::joined(first, second),
    ;

    fn divided(self, total: Self::Magnitude) -> (number: Self)
        requires
            Self::positive(total),
        ensures
            number == self.ratio(total),
    ;

    fn is_positive(total: Self::Magnitude) -> (positive: bool)
        ensures
            positive == Self::positive(total),
    ;
}

/// How many ways lead from one state to another, modulo the word size: every weight
/// and every phase counts as one.
#[derive(Clone, Copy, Debug, PartialEq, Eq, Structural)]
pub struct Multiplicity {
    pub ways: u64,
}

impl Scalar for Multiplicity {
    type Tolerance = u64;

    open spec fn zero_value() -> Self {
        Multiplicity { ways: 0 }
    }

    open spec fn one_value() -> Self {
        Multiplicity { ways: 1 }
    }

    open spec fn minus_one_value() -> Self {
        Multiplicity { ways: 0xffff_ffff_ffff_ffff }
    }

    open spec fn sum(self, other: Self) -> Self {
        Multiplicity { ways: ((self.ways + other.ways) % 0x1_0000_0000_0000_0000) as u64 }
    }

    open spec fn product(self, other: Self) -> Self {
        Multiplicity { ways: ((self.ways * other.ways) % 0x1_0000_0000_0000_0000) as u64 }
    }

    open spec fn mirror(self) -> Self {
        self
    }

    open spec fn tiny(self) -> bool {
        self.ways == 0
    }

    open spec fn proper(self) -> bool {
        true
    }

    open spec fn imaginary_free(self) -> bool {
        true
    }

    open spec fn matching(self, other: Self) -> bool {
        self == other
    }

    open spec fn near(self, other: Self, tolerance: u64) -> bool {
        self.ways <= other.ways + tolerance && other.ways <= self.ways + tolerance
    }

    open spec fn strict_tolerance() -> u64 {
        0
    }

    open spec fn usable(tolerance: u64) -> bool {
        true
    }

    proof fn lemma_zero() {
    }

    fn zero() -> (number: Self) {
        Multiplicity { ways: 0 }
    }

    fn one() -> (number: Self) {
        Multiplicity { ways: 1 }
    }

    fn minus_one() -> (number: Self) {
        Multiplicity { ways: 0xffff_ffff_ffff_ffff }
    }

    fn plus(self, other: Self) -> (number: Self) {
        let wide: u128 = (self.ways as u128 + other.ways as u128) % 0x1_0000_0000_0000_0000;
        Multiplicity { ways: wide as u64 }
    }

    fn times(self, other: Self) -> (number: Self) {
        proof {
            let a = self.ways as int;
            let b = other.ways as int;
            assert(0 <= a * b <= 0xffff_ffff_ffff_ffff * 0xffff_ffff_ffff_ffff)
                by (nonlinear_arith)
                requires
                    0 <= a <= 0xffff_ffff_ffff_ffff,
                    0 <= b <= 0xffff_ffff_ffff_ffff,
            ;
        }
        let wide: u128 = (self.ways as u128 * other.ways as u128) % 0x1_0000_0000_0000_0000;
        Multiplicity { ways: wide as u64 }
    }

    fn conjugate(self) -> (number: Self) {
        self
    }

    fn is_zero(self) -> (zero: bool) {
        self.ways == 0
    }

    fn is_negligible(self) -> (negligible: bool) {
        self.ways == 0
    }

    fn is_finite(self) -> (finite: bool) {
        true
    }

    fn is_real(self) -> (real_valued: bool) {
        true
    }

    fn equals(self, other: Self) -> (same: bool) {
        self.ways == other.ways
    }

    fn within(self, other: Self, tolerance: u64) -> (close: bool) {
        let a: u128 = self.ways as u128;
        let b: u128 = other.ways as u128;
        let t: u128 = tolerance as u128;
        a <= b + t && b <= a + t
    }

    fn is_usable(tolerance: u64) -> (usable: bool) {
        true
    }

    fn strict() -> (tolerance: u64) {
        0
    }
}

impl Amplitude for Multiplicity {
    open spec fn of_local(factor: LocalFactor) -> Self {
        Multiplicity { ways: 1 }
    }

    open spec fn of_reduction(reduction: Reduction) -> Self {
        Multiplicity { ways: 1 }
    }

    open spec fn root_value(turn: nat, steps: nat) -> Self {
        Multiplicity { ways: 1 }
    }

    open spec fn member_value(phase: Self, orbit_size: nat) -> Self {
        phase
    }

    open spec fn vanishing(self) -> bool {
        self.ways == 0
    }

    open spec fn unity(self) -> bool {
        self.ways == 1
    }

    open spec fn aligned(coefficients: Seq<Self>, chosen: int) -> Option<Seq<Self>> {
        if forall|i: int|
            0 <= i < coefficients.len() ==> (#[trigger] coefficients[i]) == coefficients[chosen] {
            Some(Seq::new(coefficients.len(), |i: int| Multiplicity { ways: 1 }))
        } else {
            None
        }
    }

    open spec fn pattern(self) -> Bits {
        Bits { first: self.ways, second: 0 }
    }

    open spec fn of_bits(bits: Bits) -> Self {
        Multiplicity { ways: bits.first }
    }

    proof fn lemma_bits(self) {
    }

    fn from_local(factor: LocalFactor) -> (number: Self) {
        Multiplicity { ways: 1 }
    }

    fn from_reduction(reduction: Reduction) -> (number: Self) {
        Multiplicity { ways: 1 }
    }

    fn root(sector: usize, power: usize, steps: usize) -> (number: Self) {
        Multiplicity { ways: 1 }
    }

    fn member(phase: Self, orbit_size: usize) -> (number: Self) {
        phase
    }

    fn vanishes(self) -> (zero: bool) {
        self.ways == 0
    }

    fn is_unity(self) -> (one: bool) {
        self.ways == 1
    }

    fn align(coefficients: &Vec<Self>, chosen: usize) -> (phases: Option<Vec<Self>>) {
        let mut phases: Vec<Multiplicity> = Vec::new();
        let mut index: usize = 0;
        while index < coefficients.len()
            invariant
                chosen < coefficients@.len(),
                index <= coefficients@.len(),
                phases@.len() == index,
                forall|i: int|
                    0 <= i < index ==> (#[trigger] coefficients@[i])
                        == coefficients@[chosen as int],
                forall|i: int|
                    0 <= i < index ==> (#[trigger] phases@[i]) == (Multiplicity { ways: 1 }),
            decreases coefficients@.len() - index,
        {
            if coefficients[index].ways != coefficients[chosen].ways {
                assert(coefficients@[index as int] != coefficients@[chosen as int]);
                return None;
            }
            phases.push(Multiplicity { ways: 1 });
            index = index + 1;
        }
        assert(phases@ =~= Seq::new(
            coefficients@.len(),
            |i: int| Multiplicity { ways: 1 },
        ));
        Some(phases)
    }

    fn to_bits(self) -> (bits: Bits) {
        Bits { first: self.ways, second: 0 }
    }

    fn from_bits(bits: Bits) -> (number: Self) {
        Multiplicity { ways: bits.first }
    }
}

impl Normed for Multiplicity {
    type Magnitude = u64;

    open spec fn nothing() -> u64 {
        0
    }

    open spec fn squared(self) -> u64 {
        self.product(self).ways
    }

    open spec fn joined(first: u64, second: u64) -> u64 {
        (Multiplicity { ways: first }).sum(Multiplicity { ways: second }).ways
    }

    open spec fn ratio(self, total: u64) -> Self {
        Multiplicity { ways: self.ways / total }
    }

    open spec fn positive(total: u64) -> bool {
        total > 0
    }

    open spec fn root_value(total: u64) -> u64 {
        total
    }

    open spec fn portion(part: u64, total: u64) -> u64 {
        part / total
    }

    open spec fn surplus(first: u64, second: u64) -> u64 {
        if first > second {
            (first - second) as u64
        } else {
            0
        }
    }

    open spec fn at_most(total: u64, bound: u64) -> bool {
        total <= bound
    }

    open spec fn askable(bound: u64) -> bool {
        true
    }

    fn no_magnitude() -> (total: u64) {
        0
    }

    fn root(total: u64) -> (magnitude: u64) {
        total
    }

    fn quotient(part: u64, total: u64) -> (magnitude: u64) {
        part / total
    }

    fn excess(first: u64, second: u64) -> (magnitude: u64) {
        if first > second {
            first - second
        } else {
            0
        }
    }

    fn is_at_most(total: u64, bound: u64) -> (within: bool) {
        total <= bound
    }

    fn is_askable(bound: u64) -> (askable: bool) {
        true
    }

    fn norm_square(self) -> (total: u64) {
        self.times(self).ways
    }

    fn add_magnitudes(first: u64, second: u64) -> (total: u64) {
        let sum: Multiplicity = Multiplicity { ways: first }.plus(Multiplicity { ways: second });
        sum.ways
    }

    fn divided(self, total: u64) -> (number: Self) {
        Multiplicity { ways: self.ways / total }
    }

    fn is_positive(total: u64) -> (positive: bool) {
        total > 0
    }
}

} // verus!
