//! The NPY array format of operator archives.

use vstd::prelude::*;
use vstd::arithmetic::div_mod::*;
use vstd::arithmetic::mul::*;
use crate::bigint;
use crate::error::{QmbedError, Result};
use crate::error;
use crate::radix;
pub use crate::npz::load_operator_npz as load_zip;
pub use crate::npz::save_operator_npz as save_zip;
pub use crate::npz::{load_operator_npz, save_operator_npz};

verus! {

/// The version that this library writes and reads.
pub const ARCHIVE_VERSION: u8 = 1;

/// A text of plain characters as bytes.
pub open spec fn ascii(text: Seq<char>) -> Seq<u8> {
    Seq::new(text.len(), |i: int| text[i] as u8)
}

/// Appends a text of plain characters.
fn push_ascii(output: &mut Vec<u8>, text: &str)
    ensures
        final(output)@ == old(output)@ + ascii(text@),
{
    let ghost start = output@;
    assert(start + ascii(text@.subrange(0, 0)) =~= start);
    for symbol in it: text.chars()
        invariant
            it.seq() == text@,
            output@ == start + ascii(text@.subrange(0, it.index())),
    {
        output.push(symbol as u8);
        assert(output@ =~= start + ascii(text@.subrange(0, it.index() + 1)));
    }
    assert(text@.subrange(0, text@.len() as int) =~= text@);
}

/// The decimal digits of a number.
pub open spec fn decimal(n: nat) -> Seq<u8>
    decreases n,
{
    if n < 10 {
        seq![(48 + n) as u8]
    } else {
        decimal(n / 10).push((48 + n % 10) as u8)
    }
}

/// Appends the decimal digits of a number.
fn push_decimal(output: &mut Vec<u8>, number: usize)
    ensures
        final(output)@ == old(output)@ + decimal(number as nat),
    decreases number,
{
    if number < 10 {
        output.push(48 + number as u8);
        assert(output@ =~= old(output)@ + decimal(number as nat));
    } else {
        push_decimal(output, number / 10);
        output.push(48 + (number % 10) as u8);
        assert(output@ =~= old(output)@ + decimal(number as nat));
    }
}

/// The extents of an array, separated by commas.
pub open spec fn extents_text(shape: Seq<usize>) -> Seq<u8>
    decreases shape.len(),
{
    if shape.len() == 0 {
        Seq::empty()
    } else if shape.len() == 1 {
        decimal(shape[0] as nat)
    } else {
        extents_text(shape.drop_last()) + ascii(", "@) + decimal(shape.last() as nat)
    }
}

/// The shape of an array as a tuple.
pub open spec fn shape_text(shape: Seq<usize>) -> Seq<u8> {
    ascii("("@) + extents_text(shape) + (if shape.len() == 1 {
        ascii(",)"@)
    } else {
        ascii(")"@)
    })
}

/// The dictionary that describes an array.
pub open spec fn dictionary(descriptor: Seq<u8>, shape: Seq<usize>) -> Seq<u8> {
    ascii("{'descr': '"@) + descriptor + ascii("', 'fortran_order': False, 'shape': "@)
        + shape_text(shape) + ascii(", }"@)
}

/// The spaces that align the data.
pub open spec fn padding(length: nat) -> nat {
    ((16 - (length + 11) % 16) % 16) as nat
}

pub open spec fn spaces(count: nat) -> Seq<u8> {
    Seq::new(count, |i: int| 32u8)
}

/// The length of the described header behind the fixed part.
pub open spec fn header_length(descriptor: Seq<u8>, shape: Seq<usize>) -> nat {
    let length = dictionary(descriptor, shape).len();
    length + padding(length) + 1
}

/// The first bytes of every array file.
pub open spec fn magic() -> Seq<u8> {
    seq![0x93u8, 78, 85, 77, 80, 89]
}

/// The header of an array file of format version one.
pub open spec fn header_bytes(descriptor: Seq<u8>, shape: Seq<usize>) -> Seq<u8> {
    let length = header_length(descriptor, shape);
    let text = dictionary(descriptor, shape);
    magic() + seq![1u8, 0u8] + seq![(length % 256) as u8, (length / 256) as u8] + text + spaces(
        padding(text.len()),
    ) + seq![10u8]
}

/// Writes the header of an array file.
pub fn npy_header(descriptor: &[u8], shape: &[usize]) -> (result: Result<Vec<u8>>)
    ensures
        match result {
            Ok(bytes) => header_length(descriptor@, shape@) <= 0xffff && bytes@ == header_bytes(
                descriptor@,
                shape@,
            ),
            Err(error) => error is Archive && header_length(descriptor@, shape@) > 0xffff,
        },
{
    let mut text: Vec<u8> = Vec::new();
    push_ascii(&mut text, "{'descr': '");
    append_bytes(&mut text, descriptor);
    push_ascii(&mut text, "', 'fortran_order': False, 'shape': ");
    push_ascii(&mut text, "(");
    let ghost opened = text@;
    let mut index: usize = 0;
    assert(opened + extents_text(shape@.subrange(0, 0)) =~= opened);
    while index < shape.len()
        invariant
            index <= shape@.len(),
            text@ == opened + extents_text(shape@.subrange(0, index as int)),
        decreases shape@.len() - index,
    {
        let ghost before = text@;
        if index > 0 {
            push_ascii(&mut text, ", ");
        }
        push_decimal(&mut text, shape[index]);
        proof {
            let longer = shape@.subrange(0, index + 1);
            assert(longer.drop_last() =~= shape@.subrange(0, index as int));
            assert(longer.last() == shape@[index as int]);
            if index == 0 {
                assert(longer[0] == shape@[0]);
                assert(shape@.subrange(0, 0) =~= Seq::<usize>::empty());
                assert(text@ =~= opened + extents_text(longer));
            } else {
                assert(text@ =~= opened + extents_text(longer));
            }
        }
        index = index + 1;
    }
    assert(shape@.subrange(0, index as int) =~= shape@);
    if shape.len() == 1 {
        push_ascii(&mut text, ",)");
    } else {
        push_ascii(&mut text, ")");
    }
    push_ascii(&mut text, ", }");
    assert(text@ =~= dictionary(descriptor@, shape@));
    if text.len() > 0xffff {
        return Err(QmbedError::Archive("NPY v1 header is too long".to_string()));
    }
    let pad: usize = (16 - (text.len() + 11) % 16) % 16;
    let length: usize = text.len() + pad + 1;
    if length > 0xffff {
        return Err(QmbedError::Archive("NPY v1 header is too long".to_string()));
    }
    let mut output: Vec<u8> = Vec::new();
    output.push(0x93);
    output.push(78);
    output.push(85);
    output.push(77);
    output.push(80);
    output.push(89);
    output.push(1);
    output.push(0);
    output.push((length % 256) as u8);
    output.push((length / 256) as u8);
    let ghost fixed = output@;
    append_bytes(&mut output, text.as_slice());
    let mut count: usize = 0;
    assert(output@ + spaces(0) =~= output@);
    let ghost described = output@;
    while count < pad
        invariant
            count <= pad,
            output@ == described + spaces(count as nat),
        decreases pad - count,
    {
        output.push(32);
        count = count + 1;
        assert(output@ =~= described + spaces(count as nat));
    }
    output.push(10);
    assert(output@ =~= header_bytes(descriptor@, shape@));
    Ok(output)
}

/// Appends bytes.
fn append_bytes(output: &mut Vec<u8>, bytes: &[u8])
    ensures
        final(output)@ == old(output)@ + bytes@,
{
    let ghost start = output@;
    let mut index: usize = 0;
    assert(start + bytes@.subrange(0, 0) =~= start);
    while index < bytes.len()
        invariant
            index <= bytes@.len(),
            output@ == start + bytes@.subrange(0, index as int),
        decreases bytes@.len() - index,
    {
        output.push(bytes[index]);
        index = index + 1;
        assert(output@ =~= start + bytes@.subrange(0, index as int));
    }
    assert(bytes@.subrange(0, index as int) =~= bytes@);
}

/// The pattern stands at the position.
pub open spec fn occurs_at(text: Seq<u8>, pattern: Seq<u8>, i: int) -> bool {
    &&& 0 <= i
    &&& i + pattern.len() <= text.len()
    &&& forall|k: int| 0 <= k < pattern.len() ==> text[i + k] == #[trigger] pattern[k]
}

/// The first position of a pattern.
#[verifier::opaque]
pub open spec fn first_occurrence(text: Seq<u8>, pattern: Seq<u8>) -> Option<int> {
    if exists|i: int| occurs_at(text, pattern, i) {
        Some(
            choose|i: int|
                occurs_at(text, pattern, i) && forall|j: int| 0 <= j < i ==> !occurs_at(text, pattern, j),
        )
    } else {
        None
    }
}

/// The least position of a pattern is its first one.
pub proof fn lemma_first_occurrence(text: Seq<u8>, pattern: Seq<u8>, i: int)
    requires
        occurs_at(text, pattern, i),
        forall|j: int| 0 <= j < i ==> !occurs_at(text, pattern, j),
    ensures
        first_occurrence(text, pattern) == Some(i),
{
    reveal(first_occurrence);
    let first = first_occurrence(text, pattern)->0;
    assert(occurs_at(text, pattern, first) && forall|j: int|
        0 <= j < first ==> !occurs_at(text, pattern, j));
    if first < i {
        assert(!occurs_at(text, pattern, first));
    } else if i < first {
        assert(!occurs_at(text, pattern, i));
    }
}

/// A pattern that stands nowhere has no first position.
pub proof fn lemma_no_occurrence(text: Seq<u8>, pattern: Seq<u8>)
    requires
        forall|j: int| 0 <= j <= text.len() - pattern.len() ==> !occurs_at(text, pattern, j),
    ensures
        first_occurrence(text, pattern) is None,
{
    reveal(first_occurrence);
}

/// Searches for a pattern.
fn find_pattern(text: &[u8], pattern: &Vec<u8>) -> (found: Option<usize>)
    ensures
        match found {
            Some(index) => first_occurrence(text@, pattern@) == Some(index as int) && index
                + pattern@.len() <= text@.len(),
            None => first_occurrence(text@, pattern@) is None,
        },
{
    let length: usize = text.len();
    if pattern.len() > length {
        proof {
            lemma_no_occurrence(text@, pattern@);
        }
        return None;
    }
    let limit: usize = length - pattern.len();
    let mut index: usize = 0;
    loop
        invariant
            index <= limit,
            length == text@.len(),
            limit == length - pattern@.len(),
            forall|j: int| 0 <= j < index ==> !occurs_at(text@, pattern@, j),
        decreases limit - index,
    {
        let mut offset: usize = 0;
        while offset < pattern.len() && text[index + offset] == pattern[offset]
            invariant
                offset <= pattern.len(),
                index <= limit,
                length == text@.len(),
                limit == length - pattern@.len(),
                forall|k: int| 0 <= k < offset ==> text@[index + k] == #[trigger] pattern@[k],
            decreases pattern.len() - offset,
        {
            offset = offset + 1;
        }
        if offset == pattern.len() {
            proof {
                lemma_first_occurrence(text@, pattern@, index as int);
            }
            return Some(index);
        }
        assert(text@[index + offset] != pattern@[offset as int]);
        assert(!occurs_at(text@, pattern@, index as int));
        if index == limit {
            proof {
                lemma_no_occurrence(text@, pattern@);
            }
            return None;
        }
        index = index + 1;
    }
}

/// A text of plain characters.
fn ascii_bytes(text: &str) -> (bytes: Vec<u8>)
    ensures
        bytes@ == ascii(text@),
{
    let mut bytes: Vec<u8> = Vec::new();
    push_ascii(&mut bytes, text);
    assert(bytes@ =~= ascii(text@));
    bytes
}

/// The first position of a byte.
pub open spec fn first_byte(text: Seq<u8>, byte: u8) -> Option<int> {
    first_occurrence(text, seq![byte])
}

fn find_byte(text: &[u8], byte: u8) -> (found: Option<usize>)
    ensures
        match found {
            Some(index) => first_byte(text@, byte) == Some(index as int) && index < text@.len(),
            None => first_byte(text@, byte) is None,
        },
{
    let mut pattern: Vec<u8> = Vec::new();
    pattern.push(byte);
    assert(pattern@ =~= seq![byte]);
    find_pattern(text, &pattern)
}

/// The number of bytes of the white space that a text starts with, zero if none.
pub open spec fn white_width(text: Seq<u8>) -> nat {
    if text.len() == 0 {
        0
    } else if (9 <= text[0] <= 13) || text[0] == 32 {
        1
    } else if text.len() >= 2 && text[0] == 0xc2 && (text[1] == 0x85 || text[1] == 0xa0) {
        2
    } else if text.len() >= 3 && wide_white(text[0], text[1], text[2]) {
        3
    } else {
        0
    }
}

/// The white space characters of three bytes.
pub open spec fn wide_white(a: u8, b: u8, c: u8) -> bool {
    ||| a == 0xe1 && b == 0x9a && c == 0x80
    ||| a == 0xe2 && b == 0x80 && (0x80 <= c <= 0x8a || c == 0xa8 || c == 0xa9 || c == 0xaf)
    ||| a == 0xe2 && b == 0x81 && c == 0x9f
    ||| a == 0xe3 && b == 0x80 && c == 0x80
}

/// The text behind its leading white space.
pub open spec fn skip_white(text: Seq<u8>) -> Seq<u8>
    decreases text.len(),
{
    let width = white_width(text);
    if width == 0 {
        text
    } else {
        skip_white(text.subrange(width as int, text.len() as int))
    }
}

fn find_white_end(text: &[u8], from: usize) -> (end: usize)
    requires
        from <= text@.len(),
    ensures
        from <= end <= text@.len(),
        text@.subrange(end as int, text@.len() as int) == skip_white(
            text@.subrange(from as int, text@.len() as int),
        ),
{
    let ghost n = text@.len() as int;
    let ghost goal = skip_white(text@.subrange(from as int, n));
    let mut end: usize = from;
    while end < text.len()
        invariant_except_break
            skip_white(text@.subrange(end as int, n)) == goal,
        invariant
            n == text@.len(),
            from <= end <= text@.len(),
        ensures
            text@.subrange(end as int, n) == goal,
        decreases text@.len() - end,
    {
        let ghost rest = text@.subrange(end as int, n);
        let left: usize = text.len() - end;
        let a: u8 = text[end];
        let width: usize = if (9 <= a && a <= 13) || a == 32 {
            1
        } else if left >= 2 && a == 0xc2 && (text[end + 1] == 0x85 || text[end + 1] == 0xa0) {
            2
        } else if left >= 3 && is_wide_white(a, text[end + 1], text[end + 2]) {
            3
        } else {
            0
        };
        assert(width == white_width(rest));
        if width == 0 {
            break;
        }
        assert(rest.subrange(width as int, rest.len() as int) =~= text@.subrange(end + width, n));
        end = end + width;
        if end == text.len() {
            assert(text@.subrange(end as int, n).len() == 0);
        }
    }
    end
}

fn is_wide_white(a: u8, b: u8, c: u8) -> (white: bool)
    ensures
        white == wide_white(a, b, c),
{
    (a == 0xe1 && b == 0x9a && c == 0x80) || (a == 0xe2 && b == 0x80 && ((0x80 <= c && c <= 0x8a)
        || c == 0xa8 || c == 0xa9 || c == 0xaf)) || (a == 0xe2 && b == 0x81 && c == 0x9f) || (a
        == 0xe3 && b == 0x80 && c == 0x80)
}

/// A decimal digit.
pub open spec fn is_digit(byte: u8) -> bool {
    48 <= byte <= 57
}

/// The number of digits that a text starts with.
pub open spec fn digit_run(text: Seq<u8>) -> nat
    decreases text.len(),
{
    if text.len() == 0 || !is_digit(text[0]) {
        0
    } else {
        1 + digit_run(text.drop_first())
    }
}

/// The number that decimal digits stand for.
pub open spec fn decimal_value(digits: Seq<u8>) -> nat
    decreases digits.len(),
{
    if digits.len() == 0 {
        0
    } else {
        10 * decimal_value(digits.drop_last()) + (digits.last() - 48) as nat
    }
}

/// One extent between commas: blank, a number, or neither.
pub open spec fn read_extent(item: Seq<u8>) -> Option<Option<nat>> {
    let trimmed = skip_white(item);
    let unsigned = if trimmed.len() > 0 && trimmed[0] == 43 {
        trimmed.drop_first()
    } else {
        trimmed
    };
    let run = digit_run(unsigned) as int;
    let number = decimal_value(unsigned.subrange(0, run));
    if trimmed.len() == 0 {
        Some(None)
    } else if run == 0 {
        None
    } else if skip_white(unsigned.subrange(run, unsigned.len() as int)).len() != 0 {
        None
    } else if number > usize::MAX {
        None
    } else {
        Some(Some(number))
    }
}

/// The extents between the parentheses of a shape, blanks left out.
pub open spec fn read_extents(text: Seq<u8>) -> Option<Seq<nat>>
    decreases text.len(),
{
    match first_byte(text, 44) {
        Some(comma) => if 0 <= comma < text.len() {
            let first = read_extent(text.subrange(0, comma));
            let rest = read_extents(text.subrange(comma + 1, text.len() as int));
            match first {
                None => None,
                Some(extent) => match rest {
                    None => None,
                    Some(others) => match extent {
                        Some(number) => Some(seq![number] + others),
                        None => Some(others),
                    },
                },
            }
        } else {
            None
        },
        None => match read_extent(text) {
            None => None,
            Some(Some(number)) => Some(seq![number]),
            Some(None) => Some(Seq::empty()),
        },
    }
}

fn parse_extent(item: &[u8]) -> (result: Option<Option<usize>>)
    ensures
        match result {
            None => read_extent(item@) is None,
            Some(None) => read_extent(item@) == Some(None::<nat>),
            Some(Some(number)) => read_extent(item@) == Some(Some(number as nat)),
        },
{
    let length: usize = item.len();
    let ghost n = item@.len() as int;
    let from: usize = find_white_end(item, 0);
    assert(item@.subrange(0, n) =~= item@);
    let ghost trimmed = skip_white(item@);
    if from == length {
        return Some(None);
    }
    assert(trimmed[0] == item@[from as int]);
    let start: usize = if item[from] == 43 {
        from + 1
    } else {
        from
    };
    let ghost unsigned = item@.subrange(start as int, n);
    assert(item[from as int] == 43 ==> trimmed.drop_first() =~= unsigned);
    assert(item[from as int] != 43 ==> trimmed =~= unsigned);
    let mut number: usize = 0;
    let mut fits: bool = true;
    let mut end: usize = start;
    let ghost run = digit_run(unsigned) as int;
    proof {
        lemma_digit_run(unsigned);
        assert(unsigned.subrange(0, 0) =~= Seq::<u8>::empty());
    }
    while end < length && 48 <= item[end] && item[end] <= 57
        invariant
            length == item@.len(),
            n == length,
            start <= end <= length,
            unsigned == item@.subrange(start as int, n),
            run == digit_run(unsigned),
            0 <= run <= unsigned.len(),
            forall|i: int| 0 <= i < run ==> is_digit(#[trigger] unsigned[i]),
            run < unsigned.len() ==> !is_digit(unsigned[run]),
            end - start <= run,
            fits ==> number == decimal_value(unsigned.subrange(0, end - start)),
            !fits ==> decimal_value(unsigned.subrange(0, end - start)) > usize::MAX,
        decreases length - end,
    {
        let ghost seen = end - start;
        assert(unsigned[seen] == item@[end as int]);
        let digit: usize = (item[end] - 48) as usize;
        proof {
            let longer = unsigned.subrange(0, seen + 1);
            assert(longer.drop_last() =~= unsigned.subrange(0, seen));
            assert(longer.last() == item@[end as int]);
            assert(is_digit(longer.last()));
        }
        if fits {
            match number.checked_mul(10) {
                Some(tens) => match tens.checked_add(digit) {
                    Some(sum) => {
                        number = sum;
                    },
                    None => {
                        fits = false;
                    },
                },
                None => {
                    fits = false;
                },
            }
        }
        end = end + 1;
    }
    proof {
        let seen = end - start;
        if seen < run {
            assert(is_digit(unsigned[seen]));
            assert(unsigned[seen] == item@[end as int]);
        }
        assert(unsigned.subrange(run, unsigned.len() as int) =~= item@.subrange(end as int, n));
    }
    if end == start || !fits {
        return None;
    }
    if find_white_end(item, end) != length {
        return None;
    }
    Some(Some(number))
}

proof fn lemma_digit_run(text: Seq<u8>)
    ensures
        digit_run(text) <= text.len(),
        forall|i: int| 0 <= i < digit_run(text) ==> is_digit(#[trigger] text[i]),
        digit_run(text) < text.len() ==> !is_digit(text[digit_run(text) as int]),
    decreases text.len(),
{
    if text.len() > 0 && is_digit(text[0]) {
        let tail = text.drop_first();
        lemma_digit_run(tail);
        assert forall|i: int| 0 <= i < digit_run(text) implies is_digit(#[trigger] text[i]) by {
            if i > 0 {
                assert(text[i] == tail[i - 1]);
            }
        }
        if digit_run(text) < text.len() {
            assert(text[digit_run(text) as int] == tail[digit_run(tail) as int]);
        }
    }
}

/// The extents read so far, followed by those of the rest.
spec fn extents_behind(read: Seq<usize>, rest: Option<Seq<nat>>) -> Option<Seq<nat>> {
    match rest {
        None => None,
        Some(others) => Some(wide_extents(read) + others),
    }
}

/// Extents as numbers.
pub open spec fn wide_extents(shape: Seq<usize>) -> Seq<nat> {
    Seq::new(shape.len(), |i: int| shape[i] as nat)
}

fn parse_extents(text: &[u8]) -> (result: Option<Vec<usize>>)
    ensures
        match result {
            None => read_extents(text@) is None,
            Some(shape) => read_extents(text@) == Some(wide_extents(shape@)),
        },
{
    let length: usize = text.len();
    let ghost n = text@.len() as int;
    let ghost goal = read_extents(text@);
    let mut shape: Vec<usize> = Vec::new();
    let mut from: usize = 0;
    proof {
        assert(text@.subrange(0, n) =~= text@);
        if goal is Some {
            assert(wide_extents(shape@) + goal->0 =~= goal->0);
        }
    }
    loop
        invariant
            length == text@.len(),
            n == length,
            from <= length,
            goal == read_extents(text@),
            extents_behind(shape@, read_extents(text@.subrange(from as int, n))) == goal,
        decreases length - from,
    {
        let rest: &[u8] = vstd::slice::slice_subrange(text, from, length);
        let ghost before = shape@;
        match find_byte(rest, 44) {
            Some(comma) => {
                match parse_extent(vstd::slice::slice_subrange(rest, 0, comma)) {
                    None => {
                        return None;
                    },
                    Some(None) => {},
                    Some(Some(number)) => {
                        shape.push(number);
                        proof {
                            let others = read_extents(
                                rest@.subrange(comma + 1, rest@.len() as int),
                            );
                            if others is Some {
                                assert(wide_extents(shape@) + others->0 =~= wide_extents(before) + (
                                seq![number as nat] + others->0));
                            }
                        }
                    },
                }
                assert(rest@.subrange(comma + 1, rest@.len() as int) =~= text@.subrange(
                    from + comma + 1,
                    n,
                ));
                from = from + comma + 1;
            },
            None => {
                match parse_extent(rest) {
                    None => {
                        return None;
                    },
                    Some(None) => {
                        assert(wide_extents(shape@) + Seq::<nat>::empty() =~= wide_extents(shape@));
                    },
                    Some(Some(number)) => {
                        shape.push(number);
                        assert(wide_extents(shape@) =~= wide_extents(before) + seq![number as nat]);
                    },
                }
                return Some(shape);
            },
        }
    }
}

/// The position of a key, in single quotes if such a key occurs.
pub open spec fn key_position(header: Seq<u8>, single: Seq<char>, double: Seq<char>) -> Option<
    int,
> {
    match first_occurrence(header, ascii(single)) {
        Some(position) => Some(position),
        None => first_occurrence(header, ascii(double)),
    }
}

fn find_key(header: &[u8], single: &str, double: &str) -> (found: Option<usize>)
    requires
        single@.len() == 8,
        double@.len() == 8,
    ensures
        match found {
            Some(index) => key_position(header@, single@, double@) == Some(index as int) && index
                + 8 <= header@.len(),
            None => key_position(header@, single@, double@) is None,
        },
{
    match find_pattern(header, &ascii_bytes(single)) {
        Some(index) => Some(index),
        None => find_pattern(header, &ascii_bytes(double)),
    }
}

/// The element type in a described header: the quoted text behind its key.
pub open spec fn read_descriptor(header: Seq<u8>) -> Option<Seq<u8>> {
    match key_position(header, "'descr':"@, "\"descr\":"@) {
        None => None,
        Some(key) => {
            let tail = skip_white(header.subrange(key + 8, header.len() as int));
            if tail.len() == 0 || (tail[0] != 39 && tail[0] != 34) {
                None
            } else {
                let quoted = tail.drop_first();
                match first_byte(quoted, tail[0]) {
                    None => None,
                    Some(end) => Some(quoted.subrange(0, end)),
                }
            }
        },
    }
}

/// The shape in a described header: the extents in parentheses behind its key.
pub open spec fn read_shape(header: Seq<u8>) -> Option<Seq<nat>> {
    match key_position(header, "'shape':"@, "\"shape\":"@) {
        None => None,
        Some(key) => {
            let tail = header.subrange(key + 8, header.len() as int);
            match first_byte(tail, 40) {
                None => None,
                Some(open) => {
                    let body = tail.subrange(open + 1, tail.len() as int);
                    match first_byte(body, 41) {
                        None => None,
                        Some(close) => read_extents(body.subrange(0, close)),
                    }
                },
            }
        },
    }
}

/// The header says that the array is stored by columns.
pub open spec fn says_fortran(header: Seq<u8>) -> bool {
    ||| first_occurrence(header, ascii("'fortran_order': True"@)) is Some
    ||| first_occurrence(header, ascii("\"fortran_order\": True"@)) is Some
}

/// Element type and shape of a described header that is stored by rows.
pub open spec fn read_fields(header: Seq<u8>) -> Option<(Seq<u8>, Seq<nat>)> {
    if says_fortran(header) {
        None
    } else {
        match (read_descriptor(header), read_shape(header)) {
            (Some(descriptor), Some(shape)) => Some((descriptor, shape)),
            _ => None,
        }
    }
}

fn parse_descriptor(header: &[u8]) -> (result: Option<Vec<u8>>)
    ensures
        match result {
            None => read_descriptor(header@) is None,
            Some(descriptor) => read_descriptor(header@) == Some(descriptor@),
        },
{
    proof {
        reveal_strlit("'descr':");
        reveal_strlit("\"descr\":");
    }
    let length: usize = header.len();
    let ghost n = header@.len() as int;
    let key: usize = match find_key(header, "'descr':", "\"descr\":") {
        Some(key) => key,
        None => {
            return None;
        },
    };
    let start: usize = find_white_end(header, key + 8);
    let ghost tail = skip_white(header@.subrange(key + 8, n));
    if start == length {
        return None;
    }
    assert(tail[0] == header@[start as int]);
    let quote: u8 = header[start];
    if quote != 39 && quote != 34 {
        return None;
    }
    let quoted: &[u8] = vstd::slice::slice_subrange(header, start + 1, length);
    assert(quoted@ =~= tail.drop_first());
    match find_byte(quoted, quote) {
        None => None,
        Some(end) => {
            let mut descriptor: Vec<u8> = Vec::new();
            append_bytes(&mut descriptor, vstd::slice::slice_subrange(quoted, 0, end));
            assert(descriptor@ =~= quoted@.subrange(0, end as int));
            Some(descriptor)
        },
    }
}

fn parse_shape(header: &[u8]) -> (result: Option<Vec<usize>>)
    ensures
        match result {
            None => read_shape(header@) is None,
            Some(shape) => read_shape(header@) == Some(wide_extents(shape@)),
        },
{
    proof {
        reveal_strlit("'shape':");
        reveal_strlit("\"shape\":");
    }
    let key: usize = match find_key(header, "'shape':", "\"shape\":") {
        Some(key) => key,
        None => {
            return None;
        },
    };
    let length: usize = header.len();
    let tail: &[u8] = vstd::slice::slice_subrange(header, key + 8, length);
    let open: usize = match find_byte(tail, 40) {
        Some(open) => open,
        None => {
            return None;
        },
    };
    let body: &[u8] = vstd::slice::slice_subrange(tail, open + 1, tail.len());
    let close: usize = match find_byte(body, 41) {
        Some(close) => close,
        None => {
            return None;
        },
    };
    parse_extents(vstd::slice::slice_subrange(body, 0, close))
}

/// `std::str::from_utf8`: whether the bytes are a well-formed UTF-8 text.
#[verifier::external_body]
fn is_utf8(bytes: &[u8]) -> (valid: bool)
    ensures
        valid == vstd::utf8::valid_utf8(bytes@),
{
    std::str::from_utf8(bytes).is_ok()
}

/// The description of an array: element type, shape, and where the data begin.
#[derive(Debug)]
pub struct NpyHeader {
    pub descriptor: Vec<u8>,
    pub shape: Vec<usize>,
    pub length: usize,
}

/// Where the description begins and how long it is, by the format version.
pub open spec fn description_span(bytes: Seq<u8>) -> Option<(nat, nat)> {
    if bytes.len() < 8 || bytes.subrange(0, 6) != magic() {
        None
    } else if bytes[6] == 1 && bytes.len() >= 10 {
        Some((10, bytes[8] as nat + 256 * bytes[9] as nat))
    } else if (bytes[6] == 2 || bytes[6] == 3) && bytes.len() >= 12 {
        Some(
            (
                12,
                bytes[8] as nat + 256 * bytes[9] as nat + 0x10000 * bytes[10] as nat + 0x1000000
                    * bytes[11] as nat,
            ),
        )
    } else {
        None
    }
}

/// Element type, shape and start of the data of an array file.
pub open spec fn read_header(bytes: Seq<u8>) -> Option<(Seq<u8>, Seq<nat>, nat)> {
    match description_span(bytes) {
        None => None,
        Some((start, length)) => if start + length > bytes.len() {
            None
        } else {
            let header = bytes.subrange(start as int, (start + length) as int);
            if !vstd::utf8::valid_utf8(header) {
                None
            } else {
                match read_fields(header) {
                    None => None,
                    Some((descriptor, shape)) => Some((descriptor, shape, start + length)),
                }
            }
        },
    }
}

fn starts_as_array(bytes: &[u8]) -> (starts: bool)
    requires
        bytes@.len() >= 6,
    ensures
        starts == (bytes@.subrange(0, 6) == magic()),
{
    let starts: bool = bytes[0] == 0x93 && bytes[1] == 78 && bytes[2] == 85 && bytes[3] == 77
        && bytes[4] == 80 && bytes[5] == 89;
    assert(starts == (bytes@.subrange(0, 6) =~= magic())) by {
        let head = bytes@.subrange(0, 6);
        assert(forall|i: int| 0 <= i < 6 ==> head[i] == bytes@[i]);
        if head =~= magic() {
            assert(head[0] == magic()[0] && head[1] == magic()[1] && head[2] == magic()[2]
                && head[3] == magic()[3] && head[4] == magic()[4] && head[5] == magic()[5]);
        }
    }
    starts
}

/// Reads the header of an array file.
pub fn parse_npy_header(bytes: &[u8]) -> (result: Result<NpyHeader>)
    ensures
        match result {
            Ok(header) => read_header(bytes@) == Some(
                (header.descriptor@, wide_extents(header.shape@), header.length as nat),
            ) && header.length <= bytes@.len(),
            Err(error) => error is Archive && read_header(bytes@) is None,
        },
{
    let total: usize = bytes.len();
    if total < 8 {
        return Err(QmbedError::Archive("NPY file is too short".to_string()));
    }
    if !starts_as_array(bytes) {
        return Err(QmbedError::Archive("invalid NPY magic".to_string()));
    }
    let version: u8 = bytes[6];
    let start: usize;
    let length: u64;
    if version == 1 {
        if total < 10 {
            return Err(QmbedError::Archive("NPY file is too short".to_string()));
        }
        start = 10;
        length = bytes[8] as u64 + 256 * (bytes[9] as u64);
    } else if version == 2 || version == 3 {
        if total < 12 {
            return Err(QmbedError::Archive("NPY file is too short".to_string()));
        }
        start = 12;
        length = bytes[8] as u64 + 256 * (bytes[9] as u64) + 0x10000 * (bytes[10] as u64)
            + 0x1000000 * (bytes[11] as u64);
    } else {
        return Err(QmbedError::Archive("unsupported NPY version".to_string()));
    }
    if length > (total - start) as u64 {
        return Err(QmbedError::Archive("NPY file is too short".to_string()));
    }
    let end: usize = start + length as usize;
    let header: &[u8] = vstd::slice::slice_subrange(bytes, start, end);
    if !is_utf8(header) {
        return Err(QmbedError::Archive("NPY header is not a text".to_string()));
    }
    if find_pattern(header, &ascii_bytes("'fortran_order': True")).is_some() || find_pattern(
        header,
        &ascii_bytes("\"fortran_order\": True"),
    ).is_some() {
        return Err(
            QmbedError::Archive("Fortran-ordered NPY matrices are not supported".to_string()),
        );
    }
    match parse_descriptor(header) {
        None => Err(QmbedError::Archive("invalid NPY descriptor".to_string())),
        Some(descriptor) => match parse_shape(header) {
            None => Err(QmbedError::Archive("invalid NPY shape".to_string())),
            Some(shape) => Ok(NpyHeader { descriptor, shape, length: end }),
        },
    }
}

/// The bytes of a word, least significant first.
pub open spec fn word_bytes(word: u64) -> Seq<u8> {
    Seq::new(8, |i: int| radix::digit(word as nat, 256, i as nat) as u8)
}

/// The bytes of pairs of words in turn.
pub open spec fn pair_bytes(values: Seq<(u64, u64)>) -> Seq<u8>
    decreases values.len(),
{
    if values.len() == 0 {
        Seq::empty()
    } else {
        pair_bytes(values.drop_last()) + word_bytes(values.last().0) + word_bytes(values.last().1)
    }
}

fn push_word(output: &mut Vec<u8>, word: u64)
    ensures
        final(output)@ == old(output)@ + word_bytes(word),
{
    let ghost start = output@;
    let mut rest: u64 = word;
    let mut count: usize = 0;
    proof {
        lemma_div_basics(word as int);
        assert(start + word_bytes(word).subrange(0, 0) =~= start);
    }
    while count < 8
        invariant
            count <= 8,
            rest == word as nat / radix::place(256, count as nat),
            output@ == start + word_bytes(word).subrange(0, count as int),
        decreases 8 - count,
    {
        proof {
            radix::lemma_quotient_step(word as nat, 256, count as nat);
        }
        output.push((rest % 256) as u8);
        rest = rest / 256;
        count = count + 1;
        assert(output@ =~= start + word_bytes(word).subrange(0, count as int));
    }
    assert(word_bytes(word).subrange(0, 8) =~= word_bytes(word));
}

/// The word at a position, least significant byte first.
fn word_at(bytes: &[u8], from: usize) -> (word: u64)
    requires
        from + 8 <= bytes@.len(),
    ensures
        word == bigint::bytes_value(bytes@.subrange(from as int, from + 8)),
{
    let ghost ds = bigint::byte_digits(bytes@.subrange(from as int, from + 8));
    let total: usize = bytes.len();
    let mut word: u64 = 0;
    let mut left: usize = 8;
    proof {
        assert(ds.subrange(8, 8) =~= Seq::<nat>::empty());
        assert(radix::valid_digits(ds, 256));
        bigint::lemma_eight_bytes();
    }
    while left > 0
        invariant
            left <= 8,
            total == bytes@.len(),
            from + 8 <= total,
            ds == bigint::byte_digits(bytes@.subrange(from as int, from + 8)),
            radix::valid_digits(ds, 256),
            radix::place(256, 8) == 0x1_0000_0000_0000_0000,
            word == radix::value(ds.subrange(left as int, 8), 256),
        decreases left,
    {
        let ghost above = ds.subrange(left as int, 8);
        left = left - 1;
        proof {
            let longer = ds.subrange(left as int, 8);
            assert(longer[0] == bytes@[from + left]);
            assert(longer.drop_first() =~= above);
            assert(radix::valid_digits(longer, 256)) by {
                assert forall|i: int| 0 <= i < longer.len() implies #[trigger] longer[i] < 256 by {
                    assert(longer[i] == ds[left + i]);
                }
            }
            radix::lemma_value_bound(longer, 256);
            radix::lemma_place_monotone(256, longer.len(), 8);
        }
        word = bytes[from + left] as u64 + 256 * word;
    }
    assert(ds.subrange(0, 8) =~= ds);
    word
}

/// An array file of bytes.
pub open spec fn byte_file(values: Seq<u8>) -> Seq<u8> {
    header_bytes(ascii("|u1"@), seq![values.len() as usize]) + values
}

/// Writes a one-dimensional array of bytes.
pub fn write_u8_npy(values: &[u8]) -> (result: Result<Vec<u8>>)
    ensures
        match result {
            Ok(bytes) => header_length(ascii("|u1"@), seq![values@.len() as usize]) <= 0xffff
                && bytes@ == byte_file(values@),
            Err(error) => error is Archive && header_length(
                ascii("|u1"@),
                seq![values@.len() as usize],
            ) > 0xffff,
        },
{
    let descriptor: Vec<u8> = ascii_bytes("|u1");
    let mut shape: Vec<usize> = Vec::new();
    shape.push(values.len());
    assert(shape@ =~= seq![values@.len() as usize]);
    match npy_header(descriptor.as_slice(), shape.as_slice()) {
        Ok(bytes) => {
            let mut output: Vec<u8> = bytes;
            append_bytes(&mut output, values);
            Ok(output)
        },
        Err(error) => Err(error),
    }
}

/// An array file of a matrix of complex numbers, row by row.
pub open spec fn complex_file(rows: usize, columns: usize, values: Seq<(u64, u64)>) -> Seq<u8> {
    header_bytes(ascii("<c16"@), seq![rows, columns]) + pair_bytes(values)
}

/// Writes a matrix of complex numbers, each given by the bit patterns of its real and
/// imaginary parts.
pub fn write_complex_npy(rows: usize, columns: usize, values: &[(u64, u64)]) -> (result: Result<
    Vec<u8>,
>)
    ensures
        match result {
            Ok(bytes) => {
                &&& values@.len() == rows * columns
                &&& header_length(ascii("<c16"@), seq![rows, columns]) <= 0xffff
                &&& bytes@ == complex_file(rows, columns, values@)
            },
            Err(QmbedError::DimensionMismatch(_)) => values@.len() != rows * columns,
            Err(QmbedError::Archive(_)) => values@.len() == rows * columns && header_length(
                ascii("<c16"@),
                seq![rows, columns],
            ) > 0xffff,
            Err(_) => false,
        },
{
    let length: usize = values.len();
    let matches: bool = match rows.checked_mul(columns) {
        Some(count) => length == count,
        None => false,
    };
    if !matches {
        return Err(
            QmbedError::DimensionMismatch(
                "archive matrix values do not match its shape".to_string(),
            ),
        );
    }
    let descriptor: Vec<u8> = ascii_bytes("<c16");
    let mut shape: Vec<usize> = Vec::new();
    shape.push(rows);
    shape.push(columns);
    assert(shape@ =~= seq![rows, columns]);
    let mut output: Vec<u8> = match npy_header(descriptor.as_slice(), shape.as_slice()) {
        Ok(bytes) => bytes,
        Err(error) => {
            return Err(error);
        },
    };
    let ghost start = output@;
    let mut index: usize = 0;
    assert(start + pair_bytes(values@.subrange(0, 0)) =~= start);
    while index < values.len()
        invariant
            index <= values@.len(),
            output@ == start + pair_bytes(values@.subrange(0, index as int)),
        decreases values@.len() - index,
    {
        let value: (u64, u64) = values[index];
        push_word(&mut output, value.0);
        push_word(&mut output, value.1);
        proof {
            let longer = values@.subrange(0, index + 1);
            assert(longer.drop_last() =~= values@.subrange(0, index as int));
            assert(longer.last() == value);
            assert(output@ =~= start + pair_bytes(longer));
        }
        index = index + 1;
    }
    assert(values@.subrange(0, index as int) =~= values@);
    Ok(output)
}

fn same_bytes(left: &[u8], right: &[u8]) -> (same: bool)
    ensures
        same == (left@ == right@),
{
    if left.len() != right.len() {
        return false;
    }
    let mut index: usize = 0;
    while index < left.len()
        invariant
            left@.len() == right@.len(),
            index <= left@.len(),
            forall|i: int| 0 <= i < index ==> #[trigger] left@[i] == right@[i],
        decreases left@.len() - index,
    {
        if left[index] != right[index] {
            assert(left@[index as int] != right@[index as int]);
            return false;
        }
        index = index + 1;
    }
    assert(left@ =~= right@);
    true
}

/// The version stored in an archive: the one byte of a one-dimensional array.
pub open spec fn stored_version(bytes: Seq<u8>) -> Option<u8> {
    match read_header(bytes) {
        Some((descriptor, shape, start)) => if descriptor == ascii("|u1"@) && shape == seq![1nat]
            && start < bytes.len() {
            Some(bytes[start as int])
        } else {
            None
        },
        None => None,
    }
}

/// Reads the version of an archive.
pub fn read_version(bytes: &[u8]) -> (result: Result<u8>)
    ensures
        match result {
            Ok(version) => stored_version(bytes@) == Some(version),
            Err(error) => error is Archive && stored_version(bytes@) is None,
        },
{
    let header: NpyHeader = match parse_npy_header(bytes) {
        Ok(header) => header,
        Err(error) => {
            return Err(error);
        },
    };
    let expected: Vec<u8> = ascii_bytes("|u1");
    let single: bool = header.shape.len() == 1 && header.shape[0] == 1;
    assert(single == (wide_extents(header.shape@) =~= seq![1nat])) by {
        if wide_extents(header.shape@) =~= seq![1nat] {
            assert(wide_extents(header.shape@)[0] == seq![1nat][0]);
        }
    }
    if !same_bytes(header.descriptor.as_slice(), expected.as_slice()) || !single {
        return Err(QmbedError::Archive("invalid archive-version array".to_string()));
    }
    if header.length >= bytes.len() {
        return Err(QmbedError::Archive("invalid archive-version array".to_string()));
    }
    Ok(bytes[header.length])
}

/// The version is the one that this library reads.
pub fn check_version(version: u8) -> (result: Result<()>)
    ensures
        match result {
            Ok(_) => version == ARCHIVE_VERSION,
            Err(error) => error is Archive && version != ARCHIVE_VERSION,
        },
{
    if version != ARCHIVE_VERSION {
        return Err(
            QmbedError::Archive(
                error::weave(
                    vec!["unsupported operator archive version "],
                    vec![version as usize],
                ),
            ),
        );
    }
    Ok(())
}

/// A matrix of complex numbers by bit patterns, row by row.
#[derive(Clone, Debug)]
pub struct ComplexMatrix {
    pub rows: usize,
    pub columns: usize,
    pub values: Vec<(u64, u64)>,
}

/// The element types of complex numbers in the byte order of the machine's words.
pub open spec fn is_complex(descriptor: Seq<u8>) -> bool {
    descriptor == ascii("<c16"@) || descriptor == ascii("=c16"@) || descriptor == ascii("|c16"@)
}

fn is_complex_descriptor(descriptor: &[u8]) -> (complex: bool)
    ensures
        complex == is_complex(descriptor@),
{
    let little: Vec<u8> = ascii_bytes("<c16");
    let native: Vec<u8> = ascii_bytes("=c16");
    let neutral: Vec<u8> = ascii_bytes("|c16");
    same_bytes(descriptor, little.as_slice()) || same_bytes(descriptor, native.as_slice())
        || same_bytes(descriptor, neutral.as_slice())
}

/// The complex numbers stored from a position on.
pub open spec fn stored_pairs(bytes: Seq<u8>, start: int, count: nat) -> Seq<(nat, nat)> {
    Seq::new(
        count,
        |k: int|
            (
                bigint::bytes_value(bytes.subrange(start + 16 * k, start + 16 * k + 8)),
                bigint::bytes_value(bytes.subrange(start + 16 * k + 8, start + 16 * k + 16)),
            ),
    )
}

/// Shape and numbers of a stored matrix of complex numbers.
pub open spec fn stored_matrix(bytes: Seq<u8>) -> Option<(nat, nat, Seq<(nat, nat)>)> {
    match read_header(bytes) {
        Some((descriptor, shape, start)) => if is_complex(descriptor) && shape.len() == 2
            && shape[0] * shape[1] <= usize::MAX && start + 16 * (shape[0] * shape[1])
            <= bytes.len() {
            Some(
                (
                    shape[0],
                    shape[1],
                    stored_pairs(bytes, start as int, (shape[0] * shape[1]) as nat),
                ),
            )
        } else {
            None
        },
        None => None,
    }
}

pub open spec fn wide_pairs(values: Seq<(u64, u64)>) -> Seq<(nat, nat)> {
    Seq::new(values.len(), |i: int| (values[i].0 as nat, values[i].1 as nat))
}

/// Reads a matrix of complex numbers.
pub fn read_complex_matrix(bytes: &[u8]) -> (result: Result<ComplexMatrix>)
    ensures
        match result {
            Ok(matrix) => stored_matrix(bytes@) == Some(
                (matrix.rows as nat, matrix.columns as nat, wide_pairs(matrix.values@)),
            ),
            Err(error) => error is Archive && stored_matrix(bytes@) is None,
        },
{
    let total: usize = bytes.len();
    let header: NpyHeader = match parse_npy_header(bytes) {
        Ok(header) => header,
        Err(error) => {
            return Err(error);
        },
    };
    if !is_complex_descriptor(header.descriptor.as_slice()) || header.shape.len() != 2 {
        return Err(
            QmbedError::Archive("matrix.npy must be a C-order complex128 matrix".to_string()),
        );
    }
    let rows: usize = header.shape[0];
    let columns: usize = header.shape[1];
    assert(wide_extents(header.shape@)[0] == rows && wide_extents(header.shape@)[1] == columns);
    let count: usize = match rows.checked_mul(columns) {
        Some(count) => count,
        None => {
            return Err(QmbedError::Archive("archive matrix size overflow".to_string()));
        },
    };
    let start: usize = header.length;
    if count > (total - start) / 16 {
        return Err(QmbedError::Archive("archive matrix data end early".to_string()));
    }
    let mut values: Vec<(u64, u64)> = Vec::new();
    while values.len() < count
        invariant
            total == bytes@.len(),
            start + 16 * count <= total,
            values.len() <= count,
            forall|k: int|
                0 <= k < values.len() ==> {
                    &&& (#[trigger] values[k]).0 == bigint::bytes_value(
                        bytes@.subrange(start + 16 * k, start + 16 * k + 8),
                    )
                    &&& values[k].1 == bigint::bytes_value(
                        bytes@.subrange(start + 16 * k + 8, start + 16 * k + 16),
                    )
                },
        decreases count - values.len(),
    {
        let from: usize = start + 16 * values.len();
        let first: u64 = word_at(bytes, from);
        let second: u64 = word_at(bytes, from + 8);
        values.push((first, second));
    }
    assert(wide_pairs(values@) =~= stored_pairs(bytes@, start as int, count as nat));
    Ok(ComplexMatrix { rows, columns, values })
}

/// What an array file is read for.
#[derive(Clone, Copy, Debug, PartialEq, Eq, Structural)]
pub enum Purpose {
    Version,
    Matrix,
}

/// The number of bytes of an array file that reading it takes, as far as its first bytes
/// tell.
pub open spec fn needed(bytes: Seq<u8>, purpose: Purpose) -> nat {
    match description_span(bytes) {
        None => if bytes.len() < 8 || bytes.subrange(0, 6) != magic() {
            8
        } else if bytes[6] == 1 {
            10
        } else if bytes[6] == 2 || bytes[6] == 3 {
            12
        } else {
            8
        },
        Some((start, length)) => match read_header(bytes) {
            None => start + length,
            Some((descriptor, shape, begin)) => match purpose {
                Purpose::Version => begin + 1,
                Purpose::Matrix => if is_complex(descriptor) && shape.len() == 2 && shape[0]
                    * shape[1] <= usize::MAX {
                    begin + 16 * (shape[0] * shape[1]) as nat
                } else {
                    begin
                },
            },
        },
    }
}

/// Two array files give the same when read.
pub open spec fn read_alike(first: Seq<u8>, second: Seq<u8>, purpose: Purpose) -> bool {
    match purpose {
        Purpose::Version => stored_version(first) == stored_version(second),
        Purpose::Matrix => stored_matrix(first) == stored_matrix(second),
    }
}

/// Reading an array file takes no more bytes than its first bytes tell: what follows does
/// not matter, and where the bytes end before, nothing is read.
pub proof fn first_bytes_suffice(bytes: Seq<u8>, length: nat, purpose: Purpose)
    requires
        length <= bytes.len(),
        ({
            let start = bytes.take(length as int);
            needed(start, purpose) <= length || needed(start, purpose) > bytes.len()
        }),
    ensures
        read_alike(bytes.take(length as int), bytes, purpose),
{
    let start = bytes.take(length as int);
    if length >= 8 {
        assert(start.subrange(0, 6) =~= bytes.subrange(0, 6));
        if let Some((from, count)) = description_span(start) {
            assert(description_span(bytes) == Some((from, count)));
            if from + count <= length {
                assert(start.subrange(from as int, (from + count) as int) =~= bytes.subrange(
                    from as int,
                    (from + count) as int,
                ));
                assert(read_header(start) == read_header(bytes));
                if let Some((descriptor, shape, begin)) = read_header(start) {
                    if purpose == Purpose::Matrix && is_complex(descriptor) && shape.len() == 2
                        && shape[0] * shape[1] <= usize::MAX {
                        let total = (shape[0] * shape[1]) as nat;
                        if begin + 16 * total <= length {
                            assert forall|k: int| 0 <= k < total implies stored_pairs(
                                start,
                                begin as int,
                                total,
                            )[k] == stored_pairs(bytes, begin as int, total)[k] by {
                                assert(start.subrange(begin + 16 * k, begin + 16 * k + 8)
                                    =~= bytes.subrange(begin + 16 * k, begin + 16 * k + 8));
                                assert(start.subrange(begin + 16 * k + 8, begin + 16 * k + 16)
                                    =~= bytes.subrange(begin + 16 * k + 8, begin + 16 * k + 16));
                            }
                            assert(stored_pairs(start, begin as int, total) =~= stored_pairs(
                                bytes,
                                begin as int,
                                total,
                            ));
                        }
                    }
                }
            }
        }
    }
}

/// The number of bytes that reading an array file takes, as far as its first bytes tell;
/// nothing where no machine holds as many.
pub fn count_needed(bytes: &[u8], purpose: Purpose) -> (result: Option<usize>)
    ensures
        match result {
            Some(count) => count == needed(bytes@, purpose),
            None => needed(bytes@, purpose) > usize::MAX,
        },
{
    let total: usize = bytes.len();
    if total < 8 {
        return Some(8);
    }
    if !starts_as_array(bytes) {
        return Some(8);
    }
    let version: u8 = bytes[6];
    let start: usize;
    let length: u64;
    if version == 1 {
        if total < 10 {
            return Some(10);
        }
        start = 10;
        length = bytes[8] as u64 + 256 * (bytes[9] as u64);
    } else if version == 2 || version == 3 {
        if total < 12 {
            return Some(12);
        }
        start = 12;
        length = bytes[8] as u64 + 256 * (bytes[9] as u64) + 0x10000 * (bytes[10] as u64)
            + 0x1000000 * (bytes[11] as u64);
    } else {
        return Some(8);
    }
    let header: NpyHeader = match parse_npy_header(bytes) {
        Ok(header) => header,
        Err(_) => {
            let end: u64 = start as u64 + length;
            return if end <= usize::MAX as u64 {
                Some(end as usize)
            } else {
                None
            };
        },
    };
    match purpose {
        Purpose::Version => header.length.checked_add(1),
        Purpose::Matrix => {
            if !is_complex_descriptor(header.descriptor.as_slice()) || header.shape.len() != 2 {
                return Some(header.length);
            }
            assert(wide_extents(header.shape@)[0] == header.shape@[0]);
            assert(wide_extents(header.shape@)[1] == header.shape@[1]);
            match header.shape[0].checked_mul(header.shape[1]) {
                None => Some(header.length),
                Some(count) => match count.checked_mul(16) {
                    None => None,
                    Some(size) => header.length.checked_add(size),
                },
            }
        },
    }
}

} // verus!
