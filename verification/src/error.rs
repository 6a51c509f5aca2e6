//! Failure categories shared by the whole library.

use vstd::prelude::*;

verus! {

/// Stable failure categories for all recoverable public operations.
#[derive(Debug)]
pub enum QmbedError {
    InvalidOperator(String),
    InvalidCoupling(String),
    InvalidSite { site: usize, sites: usize },
    StateNotInBasis,
    InvalidSector(String),
    IncompatibleSymmetry(String),
    NonHermitian,
    InvalidOptions(String),
    DimensionMismatch(String),
    RankDeficient,
    UnsupportedBackend(String),
    Archive(String),
}

/// Crate-wide result type.
pub type Result<T> = std::result::Result<T, QmbedError>;

/// Alternative spelling of the error type.
pub type QuSpinError = QmbedError;

/// The decimal digits of a number.
pub open spec fn decimal(n: nat) -> Seq<char>
    decreases n,
{
    if n < 10 {
        seq![digit_of(n)]
    } else {
        decimal(n / 10).push(digit_of(n % 10))
    }
}

/// One decimal digit.
pub open spec fn digit_of(n: nat) -> char {
    if n == 0 {
        '0'
    } else if n == 1 {
        '1'
    } else if n == 2 {
        '2'
    } else if n == 3 {
        '3'
    } else if n == 4 {
        '4'
    } else if n == 5 {
        '5'
    } else if n == 6 {
        '6'
    } else if n == 7 {
        '7'
    } else if n == 8 {
        '8'
    } else {
        '9'
    }
}

fn append_digit(output: &mut String, digit: usize)
    ensures
        final(output)@ == old(output)@.push(digit_of(digit as nat)),
{
    let symbol: char = match digit {
        0 => '0',
        1 => '1',
        2 => '2',
        3 => '3',
        4 => '4',
        5 => '5',
        6 => '6',
        7 => '7',
        8 => '8',
        _ => '9',
    };
    output.push(symbol);
}

fn append_decimal(output: &mut String, number: usize)
    ensures
        final(output)@ == old(output)@ + decimal(number as nat),
    decreases number,
{
    if number < 10 {
        append_digit(output, number);
    } else {
        append_decimal(output, number / 10);
        append_digit(output, number % 10);
    }
    assert(output@ =~= old(output)@ + decimal(number as nat));
}

fn append(output: &mut String, text: &str)
    ensures
        final(output)@ == old(output)@ + text@,
{
    let ghost start = output@;
    for symbol in it: text.chars()
        invariant
            it.seq() == text@,
            output@ == start + text@.subrange(0, it.index()),
    {
        output.push(symbol);
        assert(start + text@.subrange(0, it.index() + 1) =~= (start + text@.subrange(
            0,
            it.index(),
        )).push(symbol));
    }
    assert(text@.subrange(0, text@.len() as int) =~= text@);
}

/// A heading followed by details.
fn headed(heading: &str, details: &String) -> (text: String)
    ensures
        text@ == heading@ + details@,
{
    let mut text: String = heading.to_string();
    append(&mut text, details.as_str());
    text
}

/// The first texts of a list, each followed by the number in its place, where there is one.
pub open spec fn woven(texts: Seq<&str>, numbers: Seq<usize>, upto: nat) -> Seq<char>
    decreases upto,
{
    if upto == 0 {
        Seq::empty()
    } else {
        let at = upto - 1;
        woven(texts, numbers, at as nat) + texts[at]@ + (if at < numbers.len() {
            decimal(numbers[at] as nat)
        } else {
            Seq::empty()
        })
    }
}

/// Texts with numbers between them.
pub(crate) fn weave(texts: Vec<&str>, numbers: Vec<usize>) -> (text: String)
    ensures
        text@ == woven(texts@, numbers@, texts@.len()),
{
    let mut text: String = String::new();
    let mut index: usize = 0;
    while index < texts.len()
        invariant
            index <= texts@.len(),
            text@ == woven(texts@, numbers@, index as nat),
        decreases texts@.len() - index,
    {
        append(&mut text, texts[index]);
        if index < numbers.len() {
            append_decimal(&mut text, numbers[index]);
        }
        index = index + 1;
        assert(text@ =~= woven(texts@, numbers@, index as nat));
    }
    text
}

/// A text around a quoted name.
pub(crate) fn naming(before: &str, name: &str, after: &str) -> (text: String)
    ensures
        text@ == before@ + seq!['"'] + name@ + seq!['"'] + after@,
{
    let mut text: String = before.to_string();
    text.push('"');
    append(&mut text, name);
    text.push('"');
    append(&mut text, after);
    assert(text@ =~= before@ + seq!['"'] + name@ + seq!['"'] + after@);
    text
}

impl QmbedError {
    /// The failure in words.
    pub open spec fn words(&self) -> Seq<char> {
        match self {
            QmbedError::InvalidOperator(details) => "invalid or unregistered operator: "@
                + details@,
            QmbedError::InvalidCoupling(details) => "invalid coupling: "@ + details@,
            QmbedError::InvalidSite { site, sites } => "site "@ + decimal(*site as nat)
                + " is outside a lattice with "@ + decimal(*sites as nat) + " sites"@,
            QmbedError::StateNotInBasis => "state is not represented by this basis"@,
            QmbedError::InvalidSector(details) => "invalid Hilbert-space sector: "@ + details@,
            QmbedError::IncompatibleSymmetry(details) => "incompatible symmetry request: "@
                + details@,
            QmbedError::NonHermitian => "a Hermitian operator is required"@,
            QmbedError::InvalidOptions(details) => "invalid options: "@ + details@,
            QmbedError::DimensionMismatch(details) => "dimension mismatch: "@ + details@,
            QmbedError::RankDeficient => "the supplied vectors are numerically rank deficient"@,
            QmbedError::UnsupportedBackend(details) => "unsupported backend: "@ + details@,
            QmbedError::Archive(details) => "archive error: "@ + details@,
        }
    }

    /// The failure in words.
    pub fn message(&self) -> (text: String)
        ensures
            text@ == self.words(),
    {
        match self {
            QmbedError::InvalidOperator(details) => headed(
                "invalid or unregistered operator: ",
                details,
            ),
            QmbedError::InvalidCoupling(details) => headed("invalid coupling: ", details),
            QmbedError::InvalidSite { site, sites } => {
                let mut text: String = "site ".to_string();
                append_decimal(&mut text, *site);
                append(&mut text, " is outside a lattice with ");
                append_decimal(&mut text, *sites);
                append(&mut text, " sites");
                text
            },
            QmbedError::StateNotInBasis => "state is not represented by this basis".to_string(),
            QmbedError::InvalidSector(details) => headed("invalid Hilbert-space sector: ", details),
            QmbedError::IncompatibleSymmetry(details) => headed(
                "incompatible symmetry request: ",
                details,
            ),
            QmbedError::NonHermitian => "a Hermitian operator is required".to_string(),
            QmbedError::InvalidOptions(details) => headed("invalid options: ", details),
            QmbedError::DimensionMismatch(details) => headed("dimension mismatch: ", details),
            QmbedError::RankDeficient => "the supplied vectors are numerically rank deficient".to_string(),
            QmbedError::UnsupportedBackend(details) => headed("unsupported backend: ", details),
            QmbedError::Archive(details) => headed("archive error: ", details),
        }
    }
}

} // verus!
