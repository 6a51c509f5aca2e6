//! Operator strings: local symbols, species separators and particle-number change.

use vstd::prelude::*;
use smallvec::SmallVec;
use crate::error::{QmbedError, Result};
use crate::error;
use crate::local::Fault;

verus! {

/// A short list of operator symbols, held in a `smallvec::SmallVec` so that the
/// usual operator strings need no allocation.
#[verifier::external_body]
pub struct SymbolList {
    items: SmallVec<[char; 8]>,
}

/// The symbols in a list, in order.
pub uninterp spec fn symbols_of(list: SymbolList) -> Seq<char>;

/// `SmallVec::new`: a list without items.
#[verifier::external_body]
pub(crate) fn no_symbols() -> (list: SymbolList)
    ensures
        symbols_of(list) == Seq::<char>::empty(),
{
    SymbolList { items: SmallVec::new() }
}

/// `SmallVec::push`: appends one item behind the others.
#[verifier::external_body]
pub(crate) fn push_symbol(list: &mut SymbolList, symbol: char)
    ensures
        symbols_of(*final(list)) == symbols_of(*old(list)).push(symbol),
{
    list.items.push(symbol);
}

/// `SmallVec::as_slice`: the items as a slice, in order.
#[verifier::external_body]
pub(crate) fn symbol_slice(list: &SymbolList) -> (slice: &[char])
    ensures
        slice@ == symbols_of(*list),
{
    list.items.as_slice()
}

/// The symbols of an operator string, the species separator left out.
pub open spec fn symbols(text: Seq<char>) -> Seq<char>
    decreases text.len(),
{
    if text.len() == 0 {
        Seq::empty()
    } else if text.last() == '|' {
        symbols(text.drop_last())
    } else {
        symbols(text.drop_last()).push(text.last())
    }
}

/// The local symbols of an operator string that acts on the given sites.
pub fn operator_chars(operator: &str, sites: &[usize]) -> (result: Result<SymbolList>)
    ensures
        match result {
            Ok(list) => symbols_of(list) == symbols(operator@) && symbols(operator@).len()
                == sites@.len(),
            Err(error) => error is InvalidCoupling && symbols(operator@).len() != sites@.len(),
        },
{
    let mut list: SymbolList = no_symbols();
    for symbol in it: operator.chars()
        invariant
            it.seq() == operator@,
            symbols_of(list) == symbols(operator@.subrange(0, it.index())),
    {
        let ghost before = operator@.subrange(0, it.index());
        assert(operator@.subrange(0, it.index() + 1).drop_last() =~= before);
        if symbol != '|' {
            push_symbol(&mut list, symbol);
        }
    }
    assert(operator@.subrange(0, operator@.len() as int) =~= operator@);
    let arity: usize = symbol_slice(&list).len();
    if arity != sites.len() {
        return Err(
            QmbedError::InvalidCoupling(
                error::weave(
                    vec!["operator arity ", " does not match ", " sites"],
                    vec![arity, sites.len()],
                ),
            ),
        );
    }
    Ok(list)
}

/// The string changes the particle number by a fixed amount.
pub open spec fn fixed_change(text: Seq<char>) -> int
    decreases text.len(),
{
    if text.len() == 0 {
        0
    } else {
        fixed_change(text.drop_last()) + (if text.last() == '+' {
            1int
        } else if text.last() == '-' {
            -1int
        } else {
            0int
        })
    }
}

/// A symbol that keeps the particle number, raises or lowers it, or separates species.
pub open spec fn fixed_symbol(c: char) -> bool {
    c == '+' || c == '-' || c == 'I' || c == 'n' || c == 'z' || c == '|'
}

/// A symbol that mixes states of different particle number.
pub open spec fn mixing_symbol(c: char) -> bool {
    c == 'x' || c == 'y'
}

/// The position of the first symbol that is no fixed one, or the length.
pub open spec fn fixed_prefix(text: Seq<char>) -> int
    decreases text.len(),
{
    if text.len() == 0 {
        0
    } else if fixed_prefix(text.drop_last()) < text.len() - 1 {
        fixed_prefix(text.drop_last())
    } else if fixed_symbol(text.last()) {
        text.len() as int
    } else {
        text.len() - 1
    }
}

proof fn lemma_fixed_prefix(text: Seq<char>, position: int)
    requires
        0 <= position < text.len(),
        forall|i: int| 0 <= i < position ==> fixed_symbol(#[trigger] text[i]),
        !fixed_symbol(text[position]),
    ensures
        fixed_prefix(text) == position,
    decreases text.len(),
{
    let front = text.drop_last();
    if position < front.len() {
        assert forall|i: int| 0 <= i < position implies fixed_symbol(#[trigger] front[i]) by {
            assert(front[i] == text[i]);
        }
        lemma_fixed_prefix(front, position);
    } else {
        lemma_all_fixed(front);
    }
}

proof fn lemma_all_fixed(text: Seq<char>)
    requires
        forall|i: int| 0 <= i < text.len() ==> fixed_symbol(#[trigger] text[i]),
    ensures
        fixed_prefix(text) == text.len(),
    decreases text.len(),
{
    if text.len() > 0 {
        let front = text.drop_last();
        assert forall|i: int| 0 <= i < front.len() implies fixed_symbol(#[trigger] front[i]) by {
            assert(front[i] == text[i]);
        }
        lemma_all_fixed(front);
    }
}

/// The change of the particle number by an operator string: nothing fixed when a
/// mixing symbol comes before any unknown one.
pub open spec fn number_change(text: Seq<char>) -> std::result::Result<Option<int>, Fault> {
    let prefix = fixed_prefix(text);
    if prefix == text.len() {
        Ok(Some(fixed_change(text)))
    } else if mixing_symbol(text[prefix]) {
        Ok(None)
    } else {
        Err(Fault::Symbol)
    }
}

/// The computed change is the one of the text.
pub open spec fn tells_change(result: Result<Option<i32>>, text: Seq<char>) -> bool {
    match result {
        Ok(Some(change)) => number_change(text) == std::result::Result::<Option<int>, Fault>::Ok(
            Some(change as int),
        ),
        Ok(None) => number_change(text) == std::result::Result::<Option<int>, Fault>::Ok(None),
        Err(error) => number_change(text) is Err && error is InvalidOperator,
    }
}

/// The characters of a text.
pub fn text_chars(text: &str) -> (chars: Vec<char>)
    ensures
        chars@ == text@,
{
    let mut chars: Vec<char> = Vec::new();
    for symbol in it: text.chars()
        invariant
            it.seq() == text@,
            chars@ == text@.subrange(0, it.index()),
    {
        chars.push(symbol);
        assert(text@.subrange(0, it.index() + 1) =~= text@.subrange(0, it.index()).push(symbol));
    }
    assert(text@.subrange(0, text@.len() as int) =~= text@);
    chars
}

/// A part of a text.
fn part_text(chars: &Vec<char>, from: usize, to: usize) -> (text: String)
    requires
        from <= to <= chars.len(),
    ensures
        text@ == chars@.subrange(from as int, to as int),
{
    let mut text: String = String::new();
    let mut position: usize = from;
    while position < to
        invariant
            from <= position <= to <= chars.len(),
            text@ =~= chars@.subrange(from as int, position as int),
        decreases to - position,
    {
        text.push(chars[position]);
        position = position + 1;
    }
    text
}

/// The change of the particle number by a part of an operator string.
pub fn part_number_change(chars: &Vec<char>, from: usize, to: usize) -> (result: Result<
    Option<i32>,
>)
    requires
        from <= to <= chars.len() <= i32::MAX,
    ensures
        tells_change(result, chars@.subrange(from as int, to as int)),
        result matches Ok(Some(change)) ==> -(to - from) <= change <= to - from,
{
    let ghost text = chars@.subrange(from as int, to as int);
    let mut change: i32 = 0;
    let mut position: usize = from;
    assert(text.subrange(0, 0) =~= Seq::<char>::empty());
    while position < to
        invariant
            from <= position <= to <= chars.len() <= i32::MAX,
            text == chars@.subrange(from as int, to as int),
            -(position - from) <= change <= position - from,
            change == fixed_change(text.subrange(0, position - from)),
            forall|i: int| 0 <= i < position - from ==> fixed_symbol(#[trigger] text[i]),
        decreases to - position,
    {
        let symbol: char = chars[position];
        let ghost reached = position - from;
        assert(text[reached] == symbol);
        assert(text.subrange(0, reached + 1).drop_last() =~= text.subrange(0, reached));
        if symbol == '+' {
            change = change + 1;
        } else if symbol == '-' {
            change = change - 1;
        } else if symbol == 'x' || symbol == 'y' {
            proof {
                lemma_fixed_prefix(text, reached);
            }
            return Ok(None);
        } else if symbol != 'I' && symbol != 'n' && symbol != 'z' && symbol != '|' {
            proof {
                lemma_fixed_prefix(text, reached);
            }
            return Err(QmbedError::InvalidOperator(part_text(chars, from, to)));
        }
        position = position + 1;
    }
    assert(text.subrange(0, to - from) =~= text);
    proof {
        lemma_all_fixed(text);
    }
    Ok(Some(change))
}

/// The change of the particle number by an operator string.
pub fn operator_number_change(operator: &str) -> (result: Result<Option<i32>>)
    requires
        operator@.len() <= i32::MAX,
    ensures
        tells_change(result, operator@),
{
    let chars: Vec<char> = text_chars(operator);
    assert(chars@.subrange(0, chars@.len() as int) =~= chars@);
    part_number_change(&chars, 0, chars.len())
}

/// The position of the first species separator, or the length.
pub open spec fn separator(text: Seq<char>) -> nat
    decreases text.len(),
{
    if text.len() == 0 {
        0
    } else if text[0] == '|' {
        0
    } else {
        1 + separator(text.drop_first())
    }
}

pub proof fn lemma_separator(text: Seq<char>, position: int)
    requires
        0 <= position <= text.len(),
        forall|i: int| 0 <= i < position ==> #[trigger] text[i] != '|',
        position < text.len() ==> text[position] == '|',
    ensures
        separator(text) == position,
    decreases text.len(),
{
    if text.len() > 0 && position > 0 {
        let tail = text.drop_first();
        assert(text[0] != '|');
        assert forall|i: int| 0 <= i < position - 1 implies #[trigger] tail[i] != '|' by {
            assert(tail[i] == text[i + 1]);
        }
        lemma_separator(tail, position - 1);
    }
}

/// The text before the first separator.
pub open spec fn text_before(text: Seq<char>) -> Seq<char> {
    text.subrange(0, separator(text) as int)
}

/// The text behind the first separator, empty without one.
pub open spec fn text_behind(text: Seq<char>) -> Seq<char> {
    if separator(text) < text.len() {
        text.subrange((separator(text) + 1) as int, text.len() as int)
    } else {
        Seq::empty()
    }
}

/// The position of the first separator, or the length.
pub fn find_separator(chars: &Vec<char>, from: usize) -> (position: usize)
    requires
        from <= chars.len(),
    ensures
        from <= position <= chars.len(),
        position - from == separator(chars@.subrange(from as int, chars.len() as int)),
        position < chars.len() <==> chars@.subrange(from as int, chars.len() as int).contains('|'),
{
    let ghost text = chars@.subrange(from as int, chars.len() as int);
    let mut position: usize = from;
    while position < chars.len() && chars[position] != '|'
        invariant
            from <= position <= chars.len(),
            text == chars@.subrange(from as int, chars.len() as int),
            forall|i: int| 0 <= i < position - from ==> #[trigger] text[i] != '|',
        decreases chars.len() - position,
    {
        assert(text[position - from] == chars[position as int]);
        position = position + 1;
    }
    proof {
        if position < chars.len() {
            assert(text[position - from] == '|');
        }
        lemma_separator(text, position - from);
    }
    position
}

/// The number of symbols before the first separator, where there is one.
pub open spec fn species_split(text: Seq<char>) -> Option<nat> {
    if text.contains('|') {
        Some(separator(text))
    } else {
        None
    }
}

/// The text holds exactly one separator.
pub open spec fn separated_once(text: Seq<char>) -> bool {
    text.contains('|') && !text_behind(text).contains('|')
}

/// The place of the separator and whether it is the only one.
pub fn locate_separator(text: &str) -> (result: (Option<usize>, bool))
    ensures
        match result.0 {
            Some(position) => species_split(text@) == Some(position as nat),
            None => species_split(text@) is None,
        },
        result.1 == separated_once(text@),
{
    let chars: Vec<char> = text_chars(text);
    let length: usize = chars.len();
    let first: usize = find_separator(&chars, 0);
    assert(chars@.subrange(0, length as int) =~= text@);
    if first == length {
        return (None, false);
    }
    let second: usize = find_separator(&chars, first + 1);
    assert(chars@.subrange(first + 1, length as int) =~= text_behind(text@));
    (Some(first), second == length)
}

/// The site is one of the lattice.
pub fn checked_site(site: usize, sites: usize) -> (result: Result<()>)
    ensures
        match result {
            Ok(_) => site < sites,
            Err(error) => site >= sites && (error matches QmbedError::InvalidSite {
                site: s,
                sites: n,
            } && s == site && n == sites),
        },
{
    if site >= sites {
        Err(QmbedError::InvalidSite { site, sites })
    } else {
        Ok(())
    }
}

} // verus!
