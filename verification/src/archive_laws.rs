//! What the archive format gives back of what was written.

use vstd::prelude::*;
use vstd::arithmetic::div_mod::*;
use vstd::arithmetic::mul::*;
use crate::archive;
use crate::bigint;
use crate::radix;

verus! {

/// The descriptor is a text without single quotes that does not say in double quotes that
/// the array is stored by columns.
pub open spec fn plain_descriptor(descriptor: Seq<u8>) -> bool {
    &&& vstd::utf8::valid_utf8(descriptor)
    &&& forall|i: int| 0 <= i < descriptor.len() ==> (#[trigger] descriptor[i]) != 39
    &&& forall|p: int| !#[trigger] archive::occurs_at(
        descriptor,
        archive::ascii("\"fortran_order\": True"@),
        p,
    )
}

/// A text without quotes is such a descriptor.
pub proof fn unquoted_descriptors_are_plain(descriptor: Seq<u8>)
    requires
        vstd::utf8::valid_utf8(descriptor),
        forall|i: int|
            0 <= i < descriptor.len() ==> (#[trigger] descriptor[i]) != 39 && descriptor[i] != 34,
    ensures
        plain_descriptor(descriptor),
{
    let pattern = archive::ascii("\"fortran_order\": True"@);
    lemma_fixed_texts();
    assert forall|p: int| !#[trigger] archive::occurs_at(descriptor, pattern, p) by {
        if archive::occurs_at(descriptor, pattern, p) {
            lemma_pattern_letter(descriptor, pattern, p, 0);
        }
    }
}

proof fn lemma_decimal(n: nat)
    ensures
        archive::decimal(n).len() > 0,
        forall|i: int|
            0 <= i < archive::decimal(n).len() ==> archive::is_digit(
                #[trigger] archive::decimal(n)[i],
            ),
        archive::decimal_value(archive::decimal(n)) == n,
    decreases n,
{
    let text = archive::decimal(n);
    if n < 10 {
        assert(text.drop_last() =~= Seq::<u8>::empty());
        assert(archive::decimal_value(text.drop_last()) == 0);
    } else {
        lemma_decimal(n / 10);
        let front = archive::decimal(n / 10);
        assert(text.drop_last() =~= front);
        assert forall|i: int| 0 <= i < text.len() implies archive::is_digit(#[trigger] text[i]) by {
            if i < front.len() {
                assert(text[i] == front[i]);
            }
        }
    }
}

proof fn lemma_all_digits(text: Seq<u8>)
    requires
        forall|i: int| 0 <= i < text.len() ==> archive::is_digit(#[trigger] text[i]),
    ensures
        archive::digit_run(text) == text.len(),
    decreases text.len(),
{
    if text.len() > 0 {
        let tail = text.drop_first();
        assert forall|i: int| 0 <= i < tail.len() implies archive::is_digit(#[trigger] tail[i]) by {
            assert(tail[i] == text[i + 1]);
        }
        lemma_all_digits(tail);
    }
}

/// A written number, with or without a space before it, is read back.
proof fn lemma_read_number(lead: Seq<u8>, n: usize)
    requires
        lead =~= Seq::<u8>::empty() || lead =~= seq![32u8],
    ensures
        archive::read_extent(lead + archive::decimal(n as nat)) == Some(Some(n as nat)),
{
    let digits = archive::decimal(n as nat);
    let item = lead + digits;
    lemma_decimal(n as nat);
    lemma_all_digits(digits);
    assert(archive::is_digit(digits[0]));
    assert(archive::white_width(digits) == 0);
    assert(archive::skip_white(digits) == digits);
    if lead.len() == 0 {
        assert(item =~= digits);
    } else {
        assert(item[0] == 32);
        assert(archive::white_width(item) == 1);
        assert(item.subrange(1, item.len() as int) =~= digits);
    }
    assert(archive::skip_white(item) == digits);
    assert(digits.subrange(0, digits.len() as int) =~= digits);
    let rest = digits.subrange(digits.len() as int, digits.len() as int);
    assert(rest.len() == 0);
    assert(archive::skip_white(rest) == rest);
}

proof fn lemma_literals()
    ensures
        archive::ascii(", "@) == seq![44u8, 32],
        archive::ascii("("@) == seq![40u8],
        archive::ascii(")"@) == seq![41u8],
        archive::ascii(",)"@) == seq![44u8, 41],
        archive::ascii(", }"@) == seq![44u8, 32, 125],
{
    reveal_strlit(", ");
    reveal_strlit("(");
    reveal_strlit(")");
    reveal_strlit(",)");
    reveal_strlit(", }");
    assert(archive::ascii(", "@) =~= seq![44u8, 32]);
    assert(archive::ascii("("@) =~= seq![40u8]);
    assert(archive::ascii(")"@) =~= seq![41u8]);
    assert(archive::ascii(",)"@) =~= seq![44u8, 41]);
    assert(archive::ascii(", }"@) =~= seq![44u8, 32, 125]);
}

/// The extents from the front.
proof fn lemma_extents_front(shape: Seq<usize>)
    requires
        shape.len() >= 2,
    ensures
        archive::extents_text(shape) == archive::decimal(shape[0] as nat) + seq![44u8, 32]
            + archive::extents_text(shape.drop_first()),
    decreases shape.len(),
{
    lemma_literals();
    let front = shape.drop_last();
    let tail = shape.drop_first();
    if shape.len() == 2 {
        assert(front.len() == 1 && front[0] == shape[0]);
        assert(tail.len() == 1 && tail[0] == shape.last());
        assert(archive::extents_text(front) == archive::decimal(shape[0] as nat));
    } else {
        lemma_extents_front(front);
        assert(front.drop_first() =~= tail.drop_last());
        assert(tail.last() == shape.last());
        assert(front[0] == shape[0]);
        assert(archive::extents_text(shape) =~= archive::decimal(shape[0] as nat) + seq![44u8, 32]
            + archive::extents_text(tail));
    }
}

proof fn lemma_extents_bytes(shape: Seq<usize>)
    ensures
        forall|i: int|
            0 <= i < archive::extents_text(shape).len() ==> {
                let b = #[trigger] archive::extents_text(shape)[i];
                archive::is_digit(b) || b == 44 || b == 32
            },
    decreases shape.len(),
{
    lemma_literals();
    let text = archive::extents_text(shape);
    if shape.len() == 1 {
        lemma_decimal(shape[0] as nat);
    } else if shape.len() > 1 {
        let front = archive::extents_text(shape.drop_last());
        lemma_extents_bytes(shape.drop_last());
        let last = archive::decimal(shape.last() as nat);
        lemma_decimal(shape.last() as nat);
        assert forall|i: int| 0 <= i < text.len() implies {
            let b = #[trigger] text[i];
            archive::is_digit(b) || b == 44 || b == 32
        } by {
            if i < front.len() {
                assert(text[i] == front[i]);
            } else if i >= front.len() + 2 {
                assert(text[i] == last[i - front.len() - 2]);
            }
        }
    }
}

proof fn lemma_byte_position(text: Seq<u8>, byte: u8, i: int)
    requires
        0 <= i < text.len(),
        text[i] == byte,
        forall|j: int| 0 <= j < i ==> #[trigger] text[j] != byte,
    ensures
        archive::first_byte(text, byte) == Some(i),
{
    let pattern = seq![byte];
    assert(archive::occurs_at(text, pattern, i));
    assert forall|j: int| 0 <= j < i implies !archive::occurs_at(text, pattern, j) by {
        assert(text[j] != byte);
        if archive::occurs_at(text, pattern, j) {
            assert(text[j + 0] == pattern[0]);
        }
    }
    archive::lemma_first_occurrence(text, pattern, i);
}

proof fn lemma_byte_missing(text: Seq<u8>, byte: u8)
    requires
        forall|j: int| 0 <= j < text.len() ==> #[trigger] text[j] != byte,
    ensures
        archive::first_byte(text, byte) is None,
{
    let pattern = seq![byte];
    assert forall|j: int| 0 <= j <= text.len() - pattern.len() implies !archive::occurs_at(
        text,
        pattern,
        j,
    ) by {
        if archive::occurs_at(text, pattern, j) {
            assert(text[j + 0] == pattern[0]);
            assert(text[j] != byte);
        }
    }
    archive::lemma_no_occurrence(text, pattern);
}

/// Written extents are read back.
#[verifier::spinoff_prover]
#[verifier::rlimit(40)]
proof fn lemma_read_extents(lead: Seq<u8>, shape: Seq<usize>)
    requires
        lead =~= Seq::<u8>::empty() || lead =~= seq![32u8],
        shape.len() >= 1,
    ensures
        archive::read_extents(lead + archive::extents_text(shape)) == Some(
            archive::wide_extents(shape),
        ),
    decreases shape.len(),
{
    let text = lead + archive::extents_text(shape);
    let first = archive::decimal(shape[0] as nat);
    lemma_decimal(shape[0] as nat);
    lemma_read_number(lead, shape[0]);
    let item = lead + first;
    assert forall|j: int| 0 <= j < item.len() implies #[trigger] item[j] != 44 by {
        if j >= lead.len() {
            assert(archive::is_digit(first[j - lead.len()]));
        }
    }
    if shape.len() == 1 {
        assert(text =~= item);
        lemma_byte_missing(text, 44);
        assert(seq![shape[0] as nat] =~= archive::wide_extents(shape));
    } else {
        let tail = shape.drop_first();
        lemma_extents_front(shape);
        let comma = item.len() as int;
        assert(text =~= item + seq![44u8, 32] + archive::extents_text(tail));
        assert(text[comma] == 44);
        assert forall|j: int| 0 <= j < comma implies #[trigger] text[j] != 44 by {
            assert(text[j] == item[j]);
        }
        lemma_byte_position(text, 44, comma);
        assert(text.subrange(0, comma) =~= item);
        let rest = text.subrange(comma + 1, text.len() as int);
        assert(rest =~= seq![32u8] + archive::extents_text(tail));
        lemma_read_extents(seq![32u8], tail);
        assert(seq![shape[0] as nat] + archive::wide_extents(tail) =~= archive::wide_extents(
            shape,
        ));
    }
}

/// What stands between the parentheses of a written shape is read back.
proof fn lemma_read_body(shape: Seq<usize>)
    ensures
        archive::read_extents(
            archive::extents_text(shape) + (if shape.len() == 1 {
                seq![44u8]
            } else {
                Seq::<u8>::empty()
            }),
        ) == Some(archive::wide_extents(shape)),
{
    let extents = archive::extents_text(shape);
    let none = Seq::<u8>::empty();
    if shape.len() == 0 {
        assert(extents + none =~= none);
        lemma_byte_missing(none, 44);
        assert(archive::skip_white(none) == none);
        assert(archive::read_extent(none) == Some(None::<nat>));
        assert(archive::read_extents(none) == Some(Seq::<nat>::empty()));
        assert(archive::wide_extents(shape) =~= Seq::<nat>::empty());
    } else if shape.len() == 1 {
        let text = extents + seq![44u8];
        lemma_decimal(shape[0] as nat);
        let comma = extents.len() as int;
        assert forall|j: int| 0 <= j < comma implies #[trigger] text[j] != 44 by {
            assert(archive::is_digit(extents[j]));
        }
        lemma_byte_position(text, 44, comma);
        assert(text.subrange(0, comma) =~= none + extents);
        lemma_read_number(none, shape[0]);
        let rest = text.subrange(comma + 1, text.len() as int);
        assert(rest =~= none);
        lemma_byte_missing(none, 44);
        assert(archive::skip_white(none) == none);
        assert(archive::read_extent(none) == Some(None::<nat>));
        assert(archive::read_extents(none) == Some(Seq::<nat>::empty()));
        assert(seq![shape[0] as nat] + Seq::<nat>::empty() =~= archive::wide_extents(shape));
    } else {
        assert(extents + none =~= none + extents);
        lemma_read_extents(none, shape);
    }
}

proof fn lemma_ascii_valid(text: Seq<u8>)
    requires
        forall|i: int| 0 <= i < text.len() ==> #[trigger] text[i] < 128,
    ensures
        vstd::utf8::valid_utf8(text),
    decreases text.len(),
{
    if text.len() > 0 {
        let tail = vstd::utf8::pop_first_scalar(text);
        let b = text[0];
        assert(b < 128);
        assert(b & 0x7f <= 0x7f) by (bit_vector);
        assert(tail =~= text.drop_first());
        assert forall|i: int| 0 <= i < tail.len() implies #[trigger] tail[i] < 128 by {
            assert(tail[i] == text[i + 1]);
        }
        lemma_ascii_valid(tail);
    }
}

/// The fixed texts before and behind the descriptor.
spec fn opening() -> Seq<u8> {
    seq![123u8, 39, 100, 101, 115, 99, 114, 39, 58, 32, 39]
}

spec fn middle() -> Seq<u8> {
    seq![
        39u8, 44, 32, 39, 102, 111, 114, 116, 114, 97, 110, 95, 111, 114, 100, 101, 114, 39, 58, 32,
        70, 97, 108, 115, 101, 44, 32, 39, 115, 104, 97, 112, 101, 39, 58, 32,
    ]
}

proof fn lemma_fixed_texts()
    ensures
        archive::ascii("{'descr': '"@) == opening(),
        archive::ascii("', 'fortran_order': False, 'shape': "@) == middle(),
        archive::ascii("'descr':"@) == seq![39u8, 100, 101, 115, 99, 114, 39, 58],
        archive::ascii("'shape':"@) == seq![39u8, 115, 104, 97, 112, 101, 39, 58],
        archive::ascii("'fortran_order': True"@) == seq![
            39u8, 102, 111, 114, 116, 114, 97, 110, 95, 111, 114, 100, 101, 114, 39, 58, 32, 84,
            114, 117, 101,
        ],
        archive::ascii("\"fortran_order\": True"@).len() == 21,
        archive::ascii("\"fortran_order\": True"@)[0] == 34,
{
    reveal_strlit("{'descr': '");
    reveal_strlit("', 'fortran_order': False, 'shape': ");
    reveal_strlit("'descr':");
    reveal_strlit("'shape':");
    reveal_strlit("'fortran_order': True");
    reveal_strlit("\"fortran_order\": True");
    assert(archive::ascii("{'descr': '"@) =~= opening());
    assert(archive::ascii("', 'fortran_order': False, 'shape': "@) =~= middle());
    assert(archive::ascii("'descr':"@) =~= seq![39u8, 100, 101, 115, 99, 114, 39, 58]);
    assert(archive::ascii("'shape':"@) =~= seq![39u8, 115, 104, 97, 112, 101, 39, 58]);
    assert(archive::ascii("'fortran_order': True"@) =~= seq![
        39u8, 102, 111, 114, 116, 114, 97, 110, 95, 111, 114, 100, 101, 114, 39, 58, 32, 84, 114,
        117, 101,
    ]);
}

/// A described header: opening, descriptor, middle, and a rest without quotes.
spec fn described(descriptor: Seq<u8>, rest: Seq<u8>) -> Seq<u8> {
    opening() + descriptor + middle() + rest
}

spec fn no_quotes(text: Seq<u8>) -> bool {
    forall|i: int|
        0 <= i < text.len() ==> (#[trigger] text[i]) < 128 && text[i] != 39 && text[i] != 34
}

/// The letters of a described header by position.
proof fn lemma_layout(d: Seq<u8>, rest: Seq<u8>, p: int)
    requires
        plain_descriptor(d),
        no_quotes(rest),
        0 <= p < described(d, rest).len(),
    ensures
        described(d, rest).len() == 47 + d.len() + rest.len(),
        p < 11 ==> described(d, rest)[p] == opening()[p],
        11 <= p < 11 + d.len() ==> described(d, rest)[p] == d[p - 11],
        11 + d.len() <= p < 47 + d.len() ==> described(d, rest)[p] == middle()[p - 11 - d.len()],
        47 + d.len() <= p ==> described(d, rest)[p] == rest[p - 47 - d.len()],
        p < 11 || 11 + d.len() <= p ==> described(d, rest)[p] != 34,
        described(d, rest)[p] == 39 ==> (p == 1 || p == 7 || p == 10 || p == 11 + d.len() || p == 14
            + d.len() || p == 28 + d.len() || p == 38 + d.len() || p == 44 + d.len()),
{
    let t = described(d, rest);
    assert(opening().len() == 11);
    assert(middle().len() == 36);
    if p < 11 {
        assert(t[p] == opening()[p]);
        let i = p;
        assert(i == 0 || i == 1 || i == 2 || i == 3 || i == 4 || i == 5 || i == 6 || i == 7 || i
            == 8 || i == 9 || i == 10);
    } else if p < 11 + d.len() {
        assert(t[p] == d[p - 11]);
    } else if p < 47 + d.len() {
        let i = p - 11 - d.len();
        assert(t[p] == middle()[i]);
        lemma_middle_letter(i);
    } else {
        assert(t[p] == rest[p - 47 - d.len()]);
    }
}

proof fn lemma_middle_letter(i: int)
    requires
        0 <= i < 36,
    ensures
        middle()[i] < 128,
        middle()[i] != 34,
        middle()[i] == 39 ==> i == 0 || i == 3 || i == 17 || i == 27 || i == 33,
{
    if i < 12 {
        assert(i == 0 || i == 1 || i == 2 || i == 3 || i == 4 || i == 5 || i == 6 || i == 7 || i
            == 8 || i == 9 || i == 10 || i == 11);
    } else if i < 24 {
        assert(i == 12 || i == 13 || i == 14 || i == 15 || i == 16 || i == 17 || i == 18 || i == 19
            || i == 20 || i == 21 || i == 22 || i == 23);
    } else {
        assert(i == 24 || i == 25 || i == 26 || i == 27 || i == 28 || i == 29 || i == 30 || i == 31
            || i == 32 || i == 33 || i == 34 || i == 35);
    }
}

proof fn lemma_pattern_letter(text: Seq<u8>, pattern: Seq<u8>, p: int, k: int)
    requires
        archive::occurs_at(text, pattern, p),
        0 <= k < pattern.len(),
    ensures
        text[p + k] == pattern[k],
        p + k < text.len(),
{
}

/// The shape key stands behind the descriptor and nowhere before.
proof fn lemma_shape_key(d: Seq<u8>, rest: Seq<u8>)
    requires
        plain_descriptor(d),
        no_quotes(rest),
    ensures
        archive::first_occurrence(described(d, rest), archive::ascii("'shape':"@)) == Some(
            38 + d.len() as int,
        ),
{
    let t = described(d, rest);
    let key = archive::ascii("'shape':"@);
    lemma_fixed_texts();
    let n = d.len() as int;
    let q = 38 + n;
    assert(t.len() == 47 + n + rest.len());
    assert forall|k: int| 0 <= k < key.len() implies t[q + k] == #[trigger] key[k] by {
        lemma_layout(d, rest, q + k);
        assert(t[q + k] == middle()[27 + k]);
        assert(k == 0 || k == 1 || k == 2 || k == 3 || k == 4 || k == 5 || k == 6 || k == 7);
    }
    assert(archive::occurs_at(t, key, q));
    assert forall|p: int| 0 <= p < q implies !archive::occurs_at(t, key, p) by {
        if archive::occurs_at(t, key, p) {
            lemma_pattern_letter(t, key, p, 0);
            lemma_pattern_letter(t, key, p, 1);
            lemma_layout(d, rest, p);
            lemma_layout(d, rest, p + 1);
            if p == 10 && n > 0 {
                // the key cannot begin with the quote that opens the descriptor
                lemma_pattern_letter(t, key, p, 6);
                lemma_pattern_letter(t, key, p, 7);
                lemma_layout(d, rest, 16);
                lemma_layout(d, rest, 17);
                lemma_layout(d, rest, 11 + n);
                if n < 5 {
                    lemma_pattern_letter(t, key, p, n + 1);
                    assert(t[11 + n] == middle()[0]);
                }
            }
        }
    }
    archive::lemma_first_occurrence(t, key, q);
}

proof fn lemma_descr_key(d: Seq<u8>, rest: Seq<u8>)
    requires
        plain_descriptor(d),
        no_quotes(rest),
    ensures
        archive::first_occurrence(described(d, rest), archive::ascii("'descr':"@)) == Some(1int),
{
    let t = described(d, rest);
    let key = archive::ascii("'descr':"@);
    lemma_fixed_texts();
    assert(t.len() == 47 + d.len() + rest.len());
    assert forall|k: int| 0 <= k < key.len() implies t[1 + k] == #[trigger] key[k] by {
        lemma_layout(d, rest, 1 + k);
        assert(k == 0 || k == 1 || k == 2 || k == 3 || k == 4 || k == 5 || k == 6 || k == 7);
    }
    assert(archive::occurs_at(t, key, 1));
    assert forall|p: int| 0 <= p < 1 implies !archive::occurs_at(t, key, p) by {
        lemma_layout(d, rest, 0);
        if archive::occurs_at(t, key, p) {
            lemma_pattern_letter(t, key, p, 0);
        }
    }
    archive::lemma_first_occurrence(t, key, 1);
}

proof fn lemma_not_fortran(d: Seq<u8>, rest: Seq<u8>)
    requires
        plain_descriptor(d),
        no_quotes(rest),
    ensures
        !archive::says_fortran(described(d, rest)),
{
    let t = described(d, rest);
    let single = archive::ascii("'fortran_order': True"@);
    let double = archive::ascii("\"fortran_order\": True"@);
    lemma_fixed_texts();
    let n = d.len() as int;
    assert forall|p: int| 0 <= p <= t.len() - double.len() implies !archive::occurs_at(
        t,
        double,
        p,
    ) by {
        if archive::occurs_at(t, double, p) {
            lemma_pattern_letter(t, double, p, 0);
            lemma_layout(d, rest, p);
            lemma_layout(d, rest, 11 + n);
            assert(t[11 + n] == middle()[0]);
            if p + 21 > 11 + n {
                lemma_pattern_letter(t, double, p, 11 + n - p);
                lemma_double_letter(11 + n - p);
            }
            assert forall|k: int| 0 <= k < double.len() implies d[p - 11 + k]
                == #[trigger] double[k] by {
                lemma_pattern_letter(t, double, p, k);
                lemma_layout(d, rest, p + k);
            }
            assert(archive::occurs_at(d, double, p - 11));
        }
    }
    archive::lemma_no_occurrence(t, double);
    assert forall|p: int| 0 <= p <= t.len() - single.len() implies !archive::occurs_at(
        t,
        single,
        p,
    ) by {
        if archive::occurs_at(t, single, p) {
            lemma_pattern_letter(t, single, p, 0);
            lemma_pattern_letter(t, single, p, 1);
            lemma_pattern_letter(t, single, p, 14);
            lemma_pattern_letter(t, single, p, 15);
            lemma_pattern_letter(t, single, p, 17);
            lemma_layout(d, rest, p);
            lemma_layout(d, rest, p + 1);
            lemma_layout(d, rest, p + 14);
            lemma_layout(d, rest, p + 15);
            lemma_layout(d, rest, p + 17);
            if p == 10 && 0 < n < 13 {
                lemma_layout(d, rest, 11 + n);
                lemma_pattern_letter(t, single, p, n + 1);
                lemma_name_letter(n + 1);
                assert(t[11 + n] == middle()[0]);
            }
        }
    }
    archive::lemma_no_occurrence(t, single);
}

proof fn lemma_double_letter(k: int)
    requires
        0 <= k < 21,
    ensures
        archive::ascii("\"fortran_order\": True"@)[k] != 39,
{
    reveal_strlit("\"fortran_order\": True");
    if k < 11 {
        assert(k == 0 || k == 1 || k == 2 || k == 3 || k == 4 || k == 5 || k == 6 || k == 7 || k
            == 8 || k == 9 || k == 10);
    } else {
        assert(k == 11 || k == 12 || k == 13 || k == 14 || k == 15 || k == 16 || k == 17 || k == 18
            || k == 19 || k == 20);
    }
}

proof fn lemma_name_letter(k: int)
    requires
        1 <= k <= 13,
    ensures
        archive::ascii("'fortran_order': True"@)[k] != 39,
{
    lemma_fixed_texts();
    assert(k == 1 || k == 2 || k == 3 || k == 4 || k == 5 || k == 6 || k == 7 || k == 8 || k == 9
        || k == 10 || k == 11 || k == 12 || k == 13);
}

proof fn lemma_read_descriptor(d: Seq<u8>, rest: Seq<u8>)
    requires
        plain_descriptor(d),
        no_quotes(rest),
    ensures
        archive::read_descriptor(described(d, rest)) == Some(d),
{
    let t = described(d, rest);
    let n = d.len() as int;
    let len = t.len() as int;
    lemma_descr_key(d, rest);
    let after = t.subrange(9, len);
    lemma_layout(d, rest, 9);
    lemma_layout(d, rest, 10);
    assert(after[0] == 32);
    assert(archive::white_width(after) == 1);
    let tail = t.subrange(10, len);
    assert(after.subrange(1, after.len() as int) =~= tail);
    assert(tail[0] == 39);
    assert(archive::white_width(tail) == 0);
    assert(archive::skip_white(tail) == tail);
    assert(archive::skip_white(after) == tail);
    let quoted = tail.drop_first();
    assert forall|j: int| 0 <= j < n implies #[trigger] quoted[j] != 39 by {
        lemma_layout(d, rest, 11 + j);
        assert(quoted[j] == t[11 + j]);
    }
    lemma_layout(d, rest, 11 + n);
    assert(quoted[n] == t[11 + n]);
    lemma_byte_position(quoted, 39, n);
    assert(quoted.subrange(0, n) =~= d) by {
        assert forall|j: int| 0 <= j < n implies quoted.subrange(0, n)[j] == d[j] by {
            lemma_layout(d, rest, 11 + j);
        }
    }
}

/// The rest of a described header behind the middle text.
spec fn closing(shape: Seq<usize>, pad: nat) -> Seq<u8> {
    archive::shape_text(shape) + seq![44u8, 32, 125] + archive::spaces(pad) + seq![10u8]
}

proof fn lemma_closing(shape: Seq<usize>, pad: nat)
    ensures
        no_quotes(closing(shape, pad)),
        closing(shape, pad).len() > 0,
        closing(shape, pad)[0] == 40,
{
    lemma_literals();
    lemma_extents_bytes(shape);
    let c = closing(shape, pad);
    let e = archive::extents_text(shape);
    let s = archive::shape_text(shape);
    let m = s.len() as int;
    assert forall|i: int| 0 <= i < c.len() implies (#[trigger] c[i]) < 128 && c[i] != 39 && c[i]
        != 34 by {
        if 1 <= i < 1 + e.len() {
            assert(c[i] == e[i - 1]);
        } else if i >= m + 3 && i < m + 3 + pad {
            assert(c[i] == archive::spaces(pad)[i - m - 3]);
        }
    }
}

proof fn lemma_read_shape(d: Seq<u8>, shape: Seq<usize>, pad: nat)
    requires
        plain_descriptor(d),
    ensures
        archive::read_shape(described(d, closing(shape, pad))) == Some(
            archive::wide_extents(shape),
        ),
{
    let rest = closing(shape, pad);
    let t = described(d, rest);
    let n = d.len() as int;
    let len = t.len() as int;
    lemma_closing(shape, pad);
    lemma_shape_key(d, rest);
    lemma_literals();
    let tail = t.subrange(46 + n, len);
    lemma_layout(d, rest, 46 + n);
    lemma_layout(d, rest, 47 + n);
    assert(tail[0] == 32);
    assert(tail[1] == 40);
    lemma_byte_position(tail, 40, 1);
    let body = tail.subrange(2, tail.len() as int);
    assert(body =~= rest.subrange(1, rest.len() as int)) by {
        assert forall|j: int| 0 <= j < body.len() implies body[j] == rest[1 + j] by {
            lemma_layout(d, rest, 48 + n + j);
        }
    }
    let e = archive::extents_text(shape);
    let inner = e + (if shape.len() == 1 {
        seq![44u8]
    } else {
        Seq::<u8>::empty()
    });
    let close = inner.len() as int;
    lemma_extents_bytes(shape);
    assert(body[close] == 41);
    assert forall|j: int| 0 <= j < close implies #[trigger] body[j] != 41 by {
        assert(body[j] == inner[j]);
        if j < e.len() {
            assert(inner[j] == e[j]);
        }
    }
    lemma_byte_position(body, 41, close);
    assert(body.subrange(0, close) =~= inner);
    lemma_read_body(shape);
}

/// Reading the header of a written array gives back its element type and shape, and
/// where its data begin, whatever the data are.
pub proof fn header_round_trip(descriptor: Seq<u8>, shape: Seq<usize>, data: Seq<u8>)
    requires
        plain_descriptor(descriptor),
        archive::header_length(descriptor, shape) <= 0xffff,
    ensures
        archive::read_header(archive::header_bytes(descriptor, shape) + data) == Some(
            (
                descriptor,
                archive::wide_extents(shape),
                archive::header_bytes(descriptor, shape).len(),
            ),
        ),
{
    let bytes = archive::header_bytes(descriptor, shape) + data;
    let length = archive::header_length(descriptor, shape);
    let text = archive::dictionary(descriptor, shape);
    let pad = archive::padding(text.len());
    let rest = closing(shape, pad);
    lemma_literals();
    lemma_fixed_texts();
    lemma_closing(shape, pad);
    let whole = described(descriptor, rest);
    assert(whole =~= text + archive::spaces(pad) + seq![10u8]);
    assert(whole.len() == length);
    assert(bytes.subrange(0, 6) =~= archive::magic());
    assert(bytes[6] == 1);
    assert(bytes[8] == (length % 256) as u8);
    assert(bytes[9] == (length / 256) as u8);
    lemma_fundamental_div_mod(length as int, 256);
    let header = bytes.subrange(10, (10 + length) as int);
    assert(header =~= whole);
    assert forall|i: int| 0 <= i < middle().len() implies #[trigger] middle()[i] < 128 by {
        lemma_middle_letter(i);
    }
    lemma_ascii_valid(opening());
    lemma_ascii_valid(middle());
    lemma_ascii_valid(rest);
    vstd::utf8::valid_utf8_concat(opening(), descriptor);
    vstd::utf8::valid_utf8_concat(opening() + descriptor, middle());
    vstd::utf8::valid_utf8_concat(opening() + descriptor + middle(), rest);
    lemma_not_fortran(descriptor, rest);
    lemma_read_descriptor(descriptor, rest);
    lemma_read_shape(descriptor, shape, pad);
}

/// A power of ten.
spec fn tens(k: nat) -> nat
    decreases k,
{
    if k == 0 {
        1
    } else {
        10 * tens((k - 1) as nat)
    }
}

proof fn lemma_decimal_length(n: nat, k: nat)
    requires
        n < tens(k),
        k > 0,
    ensures
        archive::decimal(n).len() <= k,
    decreases k,
{
    if n >= 10 {
        assert(k > 1) by {
            assert(tens(1) == 10) by {
                reveal_with_fuel(tens, 2);
            }
        }
        lemma_decimal_length(n / 10, (k - 1) as nat);
    }
}

proof fn lemma_extents_length(shape: Seq<usize>)
    ensures
        archive::extents_text(shape).len() <= 22 * shape.len(),
    decreases shape.len(),
{
    lemma_literals();
    assert(tens(20) == 100_000_000_000_000_000_000) by {
        reveal_with_fuel(tens, 21);
    }
    if shape.len() > 0 {
        assert(shape.last() <= u64::MAX);
        lemma_decimal_length(shape.last() as nat, 20);
        lemma_extents_length(shape.drop_last());
    }
}

/// The headers of arrays with few extents are short.
proof fn lemma_header_length(descriptor: Seq<u8>, shape: Seq<usize>)
    requires
        descriptor.len() <= 100,
        archive::extents_text(shape).len() <= 60_000,
    ensures
        archive::header_length(descriptor, shape) <= 0xffff,
{
    lemma_literals();
    lemma_fixed_texts();
    let length = archive::dictionary(descriptor, shape).len();
    assert(length <= 60_200);
    assert(archive::padding(length) <= 16);
}

/// The headers of version files and of matrix files have a length that can be written.
pub proof fn headers_fit(version: u8, rows: usize, columns: usize)
    ensures
        archive::header_length(archive::ascii("|u1"@), seq![1usize]) <= 0xffff,
        archive::header_length(archive::ascii("<c16"@), seq![rows, columns]) <= 0xffff,
        archive::byte_file(seq![version]).len() <= 0x1_0010,
{
    reveal_strlit("|u1");
    reveal_strlit("<c16");
    lemma_extents_length(seq![1usize]);
    lemma_header_length(archive::ascii("|u1"@), seq![1usize]);
    lemma_extents_length(seq![rows, columns]);
    lemma_header_length(archive::ascii("<c16"@), seq![rows, columns]);
    assert(seq![version].len() as usize == 1usize);
}

proof fn lemma_word_value(word: u64)
    ensures
        bigint::bytes_value(archive::word_bytes(word)) == word,
{
    bigint::lemma_eight_bytes();
    radix::lemma_value_of_digits(word as nat, 256, 8);
    radix::lemma_digits_valid(word as nat, 256, 8);
    let ds = bigint::byte_digits(archive::word_bytes(word));
    assert(ds =~= radix::digits(word as nat, 256, 8)) by {
        assert forall|i: int| 0 <= i < 8 implies ds[i] == radix::digits(word as nat, 256, 8)[i] by {
            assert(radix::digits(word as nat, 256, 8)[i] < 256);
        }
    }
}

proof fn lemma_pair_bytes(values: Seq<(u64, u64)>)
    ensures
        archive::pair_bytes(values).len() == 16 * values.len(),
        forall|k: int|
            0 <= k < values.len() ==> archive::pair_bytes(values).subrange(16 * k, 16 * k + 8)
                == archive::word_bytes((#[trigger] values[k]).0) && archive::pair_bytes(
                values,
            ).subrange(16 * k + 8, 16 * k + 16) == archive::word_bytes(values[k].1),
    decreases values.len(),
{
    if values.len() > 0 {
        let front = values.drop_last();
        lemma_pair_bytes(front);
        let a = archive::pair_bytes(front);
        let b = archive::pair_bytes(values);
        let last = values.last();
        assert forall|k: int| 0 <= k < values.len() implies b.subrange(16 * k, 16 * k + 8)
            == archive::word_bytes((#[trigger] values[k]).0) && b.subrange(16 * k + 8, 16 * k + 16)
            == archive::word_bytes(values[k].1) by {
            if k < front.len() {
                assert(front[k] == values[k]);
                assert(b.subrange(16 * k, 16 * k + 8) =~= a.subrange(16 * k, 16 * k + 8));
                assert(b.subrange(16 * k + 8, 16 * k + 16) =~= a.subrange(
                    16 * k + 8,
                    16 * k + 16,
                ));
            } else {
                assert(b.subrange(16 * k, 16 * k + 8) =~= archive::word_bytes(last.0));
                assert(b.subrange(16 * k + 8, 16 * k + 16) =~= archive::word_bytes(last.1));
            }
        }
    }
}

/// Reading a written matrix gives back its shape and every bit of its numbers.
pub proof fn matrix_round_trip(rows: usize, columns: usize, values: Seq<(u64, u64)>)
    requires
        values.len() == rows * columns,
        values.len() <= usize::MAX,
    ensures
        archive::stored_matrix(archive::complex_file(rows, columns, values)) == Some(
            (rows as nat, columns as nat, archive::wide_pairs(values)),
        ),
{
    let descriptor = archive::ascii("<c16"@);
    let shape = seq![rows, columns];
    let data = archive::pair_bytes(values);
    reveal_strlit("<c16");
    assert(descriptor =~= seq![60u8, 99, 49, 54]);
    lemma_ascii_valid(descriptor);
    unquoted_descriptors_are_plain(descriptor);
    assert(shape.drop_last() =~= seq![rows]);
    lemma_extents_length(shape);
    lemma_header_length(descriptor, shape);
    header_round_trip(descriptor, shape, data);
    let bytes = archive::complex_file(rows, columns, values);
    let start = archive::header_bytes(descriptor, shape).len() as int;
    lemma_pair_bytes(values);
    let extents = archive::wide_extents(shape);
    assert(extents[0] == rows && extents[1] == columns);
    let count = values.len();
    assert(extents[0] * extents[1] == count);
    let stored = archive::stored_pairs(bytes, start, count);
    assert forall|k: int| 0 <= k < count implies stored[k] == archive::wide_pairs(values)[k] by {
        assert(bytes.subrange(start + 16 * k, start + 16 * k + 8) =~= data.subrange(
            16 * k,
            16 * k + 8,
        ));
        assert(bytes.subrange(start + 16 * k + 8, start + 16 * k + 16) =~= data.subrange(
            16 * k + 8,
            16 * k + 16,
        ));
        lemma_word_value(values[k].0);
        lemma_word_value(values[k].1);
    }
    assert(stored =~= archive::wide_pairs(values));
}

/// Reading a written version gives back the version.
pub proof fn version_round_trip(version: u8)
    ensures
        archive::stored_version(archive::byte_file(seq![version])) == Some(version),
{
    let descriptor = archive::ascii("|u1"@);
    reveal_strlit("|u1");
    assert(descriptor =~= seq![124u8, 117, 49]);
    lemma_ascii_valid(descriptor);
    unquoted_descriptors_are_plain(descriptor);
    lemma_extents_length(seq![1usize]);
    lemma_header_length(descriptor, seq![1usize]);
    header_round_trip(descriptor, seq![1usize], seq![version]);
    assert(archive::wide_extents(seq![1usize]) =~= seq![1nat]);
    assert(seq![version].len() as usize == 1usize);
    let bytes = archive::byte_file(seq![version]);
    let start = archive::header_bytes(descriptor, seq![1usize]).len() as int;
    assert(bytes[start] == version);
}

} // verus!
