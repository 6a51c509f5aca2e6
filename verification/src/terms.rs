//! Products of local operators with their couplings.

use vstd::prelude::*;
use crate::error::{QmbedError, Result};
use crate::error;
use crate::interop;
use crate::notation::SymbolList;
use crate::notation;
use crate::scalar::Scalar;

verus! {

/// `String::push`: appends one character behind the others.
pub assume_specification[ String::push ](text: &mut String, symbol: char)
    ensures
        final(text)@ == old(text)@.push(symbol),
;

/// An operator on a single site.
#[derive(Clone, Copy, Debug, PartialEq, Eq, Structural)]
pub enum LocalOperator {
    Identity,
    Number,
    Z,
    Raising,
    Lowering,
    X,
    Y,
    Custom(char),
}

impl LocalOperator {
    /// The character that stands for the operator in operator strings.
    pub open spec fn letter(self) -> char {
        match self {
            LocalOperator::Identity => 'I',
            LocalOperator::Number => 'n',
            LocalOperator::Z => 'z',
            LocalOperator::Raising => '+',
            LocalOperator::Lowering => '-',
            LocalOperator::X => 'x',
            LocalOperator::Y => 'y',
            LocalOperator::Custom(symbol) => symbol,
        }
    }

    pub fn symbol(self) -> (symbol: char)
        ensures
            symbol == self.letter(),
    {
        match self {
            LocalOperator::Identity => 'I',
            LocalOperator::Number => 'n',
            LocalOperator::Z => 'z',
            LocalOperator::Raising => '+',
            LocalOperator::Lowering => '-',
            LocalOperator::X => 'x',
            LocalOperator::Y => 'y',
            LocalOperator::Custom(symbol) => symbol,
        }
    }
}

/// The characters of a list of operators.
pub open spec fn letters(local: Seq<LocalOperator>) -> Seq<char> {
    Seq::new(local.len(), |i: int| local[i].letter())
}

/// The operator string with the species separator in its place.
pub open spec fn spelled_out(local: Seq<LocalOperator>, split: Option<usize>) -> Seq<char> {
    match split {
        None => letters(local),
        Some(position) => letters(local).subrange(0, position as int).push('|') + letters(
            local,
        ).subrange(position as int, local.len() as int),
    }
}

/// The local operator that a character of an operator string stands for.
pub open spec fn lettered(symbol: char) -> LocalOperator {
    if symbol == 'I' {
        LocalOperator::Identity
    } else if symbol == 'n' {
        LocalOperator::Number
    } else if symbol == 'z' {
        LocalOperator::Z
    } else if symbol == '+' {
        LocalOperator::Raising
    } else if symbol == '-' {
        LocalOperator::Lowering
    } else if symbol == 'x' {
        LocalOperator::X
    } else if symbol == 'y' {
        LocalOperator::Y
    } else {
        LocalOperator::Custom(symbol)
    }
}

fn letter_operator(symbol: char) -> (operator: LocalOperator)
    ensures
        operator == lettered(symbol),
{
    if symbol == 'I' {
        LocalOperator::Identity
    } else if symbol == 'n' {
        LocalOperator::Number
    } else if symbol == 'z' {
        LocalOperator::Z
    } else if symbol == '+' {
        LocalOperator::Raising
    } else if symbol == '-' {
        LocalOperator::Lowering
    } else if symbol == 'x' {
        LocalOperator::X
    } else if symbol == 'y' {
        LocalOperator::Y
    } else {
        LocalOperator::Custom(symbol)
    }
}

/// The local operators of an operator string.
pub open spec fn operators_in(text: Seq<char>) -> Seq<LocalOperator> {
    Seq::new(notation::symbols(text).len(), |i: int| lettered(notation::symbols(text)[i]))
}

/// An operator string has at least one symbol and at most one separator.
pub open spec fn parsable(text: Seq<char>) -> bool {
    notation::symbols(text).len() > 0 && !notation::text_behind(text).contains('|')
}

/// Reads an operator string.
pub fn parse_operator_product(text: &str) -> (result: Result<OpProduct>)
    ensures
        match result {
            Ok(product) => {
                &&& parsable(text@)
                &&& product.wf()
                &&& product.operators() == operators_in(text@)
                &&& spelled_out(product.operators(), product.boundary()) == text@
            },
            Err(error) => error is InvalidOperator && !parsable(text@),
        },
{
    let chars: Vec<char> = notation::text_chars(text);
    let length: usize = chars.len();
    let cut: usize = notation::find_separator(&chars, 0);
    assert(chars@.subrange(0, length as int) =~= text@);
    if cut < length {
        assert(chars@.subrange(cut + 1, length as int) =~= notation::text_behind(text@));
        if notation::find_separator(&chars, cut + 1) < length {
            return Err(
                QmbedError::InvalidOperator(
                    "an operator string contains too many separators".to_string(),
                ),
            );
        }
    }
    let mut local: Vec<LocalOperator> = Vec::new();
    let mut position: usize = 0;
    let ghost head = text@.subrange(0, cut as int);
    proof {
        lemma_no_separator(text@, cut as int);
        assert(text@.subrange(0, 0) =~= Seq::<char>::empty());
        assert(operators_in(text@.subrange(0, 0)) =~= Seq::<LocalOperator>::empty());
    }
    while position < length
        invariant
            chars@ == text@,
            length == text@.len(),
            position <= length,
            local@ == operators_in(text@.subrange(0, position as int)),
        decreases length - position,
    {
        let symbol: char = chars[position];
        let ghost shorter = text@.subrange(0, position as int);
        let ghost longer = text@.subrange(0, position + 1);
        assert(longer.drop_last() =~= shorter);
        if symbol != '|' {
            local.push(letter_operator(symbol));
            assert(notation::symbols(longer) == notation::symbols(shorter).push(symbol));
            assert(local@ =~= operators_in(longer));
        } else {
            assert(local@ =~= operators_in(longer));
        }
        position = position + 1;
    }
    assert(text@.subrange(0, length as int) =~= text@);
    let split: Option<usize> = if cut < length {
        Some(cut)
    } else {
        None
    };
    proof {
        lemma_symbols_parts(text@, cut as int);
        assert forall|i: int| 0 <= i < local@.len() implies #[trigger] local@[i]
            != LocalOperator::Custom('|') by {
            lemma_symbol_plain(text@, i);
        }
        assert forall|i: int| 0 <= i < local@.len() implies #[trigger] local@[i].letter()
            == notation::symbols(text@)[i] by {}
        assert(letters(local@) =~= notation::symbols(text@));
        assert(spelled_out(local@, split) =~= text@);
    }
    OpProduct::with_split(local, split)
}

/// No separator stands before the first one.
proof fn lemma_no_separator(text: Seq<char>, cut: int)
    requires
        0 <= cut <= text.len(),
        cut == notation::separator(text),
    ensures
        forall|i: int| 0 <= i < cut ==> #[trigger] text[i] != '|',
        cut < text.len() ==> text[cut] == '|',
    decreases text.len(),
{
    if text.len() > 0 && text[0] != '|' {
        let tail = text.drop_first();
        lemma_no_separator(tail, cut - 1);
        assert forall|i: int| 0 <= i < cut implies #[trigger] text[i] != '|' by {
            if i > 0 {
                assert(tail[i - 1] == text[i]);
            }
        }
        if cut < text.len() {
            assert(tail[cut - 1] == text[cut]);
        }
    }
}

/// A text without separators is its own list of symbols.
proof fn lemma_plain_symbols(text: Seq<char>)
    requires
        forall|i: int| 0 <= i < text.len() ==> #[trigger] text[i] != '|',
    ensures
        notation::symbols(text) == text,
    decreases text.len(),
{
    if text.len() > 0 {
        let front = text.drop_last();
        assert forall|i: int| 0 <= i < front.len() implies #[trigger] front[i] != '|' by {
            assert(front[i] == text[i]);
        }
        lemma_plain_symbols(front);
        assert(text.last() == text[text.len() - 1]);
        assert(front.push(text.last()) =~= text);
    } else {
        assert(notation::symbols(text) =~= text);
    }
}

proof fn lemma_symbols_concat(left: Seq<char>, right: Seq<char>)
    ensures
        notation::symbols(left + right) == notation::symbols(left) + notation::symbols(right),
    decreases right.len(),
{
    if right.len() == 0 {
        assert(left + right =~= left);
        assert(notation::symbols(left) + notation::symbols(right) =~= notation::symbols(left));
    } else {
        assert((left + right).drop_last() =~= left + right.drop_last());
        lemma_symbols_concat(left, right.drop_last());
        assert(notation::symbols(left + right) =~= notation::symbols(left) + notation::symbols(
            right,
        ));
    }
}

/// Reading the label of an operator product gives back its symbols and the place of its
/// separator.
pub proof fn labels_spell_products(local: Seq<LocalOperator>, split: Option<usize>)
    requires
        acceptable(local, split),
    ensures
        notation::symbols(spelled_out(local, split)) == letters(local),
        notation::species_split(spelled_out(local, split)) == (match split {
            Some(position) => Some(position as nat),
            None => None,
        }),
{
    let all = letters(local);
    let text = spelled_out(local, split);
    lemma_plain_symbols(all);
    match split {
        None => {
            assert(!text.contains('|'));
        },
        Some(position) => {
            let cut = position as int;
            let head = all.subrange(0, cut);
            let tail = all.subrange(cut, all.len() as int);
            assert(text =~= (head + seq!['|']) + tail);
            lemma_symbols_concat(head + seq!['|'], tail);
            lemma_symbols_concat(head, seq!['|']);
            assert(seq!['|'].drop_last() =~= Seq::<char>::empty());
            assert(notation::symbols(seq!['|']) =~= Seq::<char>::empty()) by {
                reveal_with_fuel(notation::symbols, 2);
            }
            lemma_plain_symbols(head);
            lemma_plain_symbols(tail);
            assert(head + tail =~= all);
            assert(head + Seq::<char>::empty() =~= head);
            assert(text[cut] == '|');
            assert forall|i: int| 0 <= i < cut implies #[trigger] text[i] != '|' by {
                assert(text[i] == all[i]);
            }
            notation::lemma_separator(text, cut);
        },
    }
}

/// The symbols before and behind a single separator.
proof fn lemma_symbols_parts(text: Seq<char>, cut: int)
    requires
        0 <= cut <= text.len(),
        cut == notation::separator(text),
        !notation::text_behind(text).contains('|'),
    ensures
        cut < text.len() ==> notation::symbols(text) == text.subrange(0, cut) + text.subrange(
            cut + 1,
            text.len() as int,
        ),
        cut == text.len() ==> notation::symbols(text) == text,
{
    lemma_no_separator(text, cut);
    let head = text.subrange(0, cut);
    assert forall|i: int| 0 <= i < head.len() implies #[trigger] head[i] != '|' by {
        assert(head[i] == text[i]);
    }
    lemma_plain_symbols(head);
    if cut == text.len() {
        assert(head =~= text);
    } else {
        let middle = seq!['|'];
        let tail = text.subrange(cut + 1, text.len() as int);
        assert(tail == notation::text_behind(text));
        assert forall|i: int| 0 <= i < tail.len() implies #[trigger] tail[i] != '|' by {
            assert(tail.contains(tail[i]));
        }
        lemma_plain_symbols(tail);
        assert(text =~= (head + middle) + tail);
        lemma_symbols_concat(head + middle, tail);
        lemma_symbols_concat(head, middle);
        reveal_with_fuel(notation::symbols, 2);
        assert(middle.drop_last() =~= Seq::<char>::empty());
        assert(notation::symbols(middle) =~= Seq::<char>::empty());
        assert(notation::symbols(text) =~= head + tail);
    }
}

/// Symbols are no separators.
proof fn lemma_symbol_plain(text: Seq<char>, i: int)
    requires
        0 <= i < notation::symbols(text).len(),
    ensures
        notation::symbols(text)[i] != '|',
    decreases text.len(),
{
    if text.len() > 0 {
        let front = notation::symbols(text.drop_last());
        if i < front.len() {
            lemma_symbol_plain(text.drop_last(), i);
        }
    }
}

/// A product of local operators, with an optional boundary between two species.
pub struct OpProduct {
    local: Vec<LocalOperator>,
    symbols: SymbolList,
    split: Option<usize>,
    label: String,
}

/// The local operators form a product.
pub open spec fn acceptable(local: Seq<LocalOperator>, split: Option<usize>) -> bool {
    &&& local.len() > 0
    &&& !local.contains(LocalOperator::Custom('|'))
    &&& split matches Some(position) ==> position <= local.len()
}

impl OpProduct {
    pub closed spec fn operators(&self) -> Seq<LocalOperator> {
        self.local@
    }

    pub closed spec fn boundary(&self) -> Option<usize> {
        self.split
    }

    pub closed spec fn wf(&self) -> bool {
        &&& acceptable(self.local@, self.split)
        &&& notation::symbols_of(self.symbols) == letters(self.local@)
        &&& self.label@ == spelled_out(self.local@, self.split)
    }

    pub proof fn lemma_wf(&self)
        requires
            self.wf(),
        ensures
            acceptable(self.operators(), self.boundary()),
    {
    }

    /// A product on one species.
    pub fn new(local: Vec<LocalOperator>) -> (result: Result<Self>)
        ensures
            match result {
                Ok(product) => {
                    &&& product.wf()
                    &&& product.operators() == local@
                    &&& product.boundary() is None
                },
                Err(error) => error is InvalidOperator && !acceptable(local@, None),
            },
    {
        Self::with_split(local, None)
    }

    /// A product on two species.
    pub fn spinful(up: Vec<LocalOperator>, down: Vec<LocalOperator>) -> (result: Result<Self>)
        requires
            up@.len() + down@.len() <= usize::MAX,
        ensures
            match result {
                Ok(product) => {
                    &&& product.wf()
                    &&& product.operators() == up@ + down@
                    &&& product.boundary() == Some(up.len())
                },
                Err(error) => error is InvalidOperator && !acceptable(
                    up@ + down@,
                    Some(up.len()),
                ),
            },
    {
        let split: usize = up.len();
        let mut local: Vec<LocalOperator> = up;
        let mut index: usize = 0;
        assert(local@ + down@.subrange(0, 0) =~= local@);
        while index < down.len()
            invariant
                index <= down@.len(),
                local@ == up@ + down@.subrange(0, index as int),
            decreases down@.len() - index,
        {
            local.push(down[index]);
            index = index + 1;
            assert(local@ =~= up@ + down@.subrange(0, index as int));
        }
        assert(local@ =~= up@ + down@);
        Self::with_split(local, Some(split))
    }

    /// A product with an optional boundary between two species.
    pub fn with_split(local: Vec<LocalOperator>, split: Option<usize>) -> (result: Result<Self>)
        ensures
            match result {
                Ok(product) => {
                    &&& product.wf()
                    &&& product.operators() == local@
                    &&& product.boundary() == split
                },
                Err(error) => error is InvalidOperator && !acceptable(local@, split),
            },
    {
        let length: usize = local.len();
        if length == 0 {
            return Err(
                QmbedError::InvalidOperator("operator products cannot be empty".to_string()),
            );
        }
        let mut symbols: SymbolList = notation::no_symbols();
        let mut label: String = String::new();
        let mut position: usize = 0;
        let ghost cut = match split {
            Some(boundary) => boundary as int,
            None => length + 1,
        };
        proof {
            assert(letters(local@).subrange(0, 0) =~= Seq::<char>::empty());
            assert(label_prefix(local@, cut, 0) =~= Seq::<char>::empty());
        }
        while position < length
            invariant
                length == local@.len(),
                position <= length,
                cut == (match split {
                    Some(boundary) => boundary as int,
                    None => length + 1,
                }),
                notation::symbols_of(symbols) == letters(local@).subrange(0, position as int),
                label@ == label_prefix(local@, cut, position as int),
                forall|i: int|
                    0 <= i < position ==> #[trigger] local@[i] != LocalOperator::Custom('|'),
            decreases length - position,
        {
            let operator: LocalOperator = local[position];
            if let LocalOperator::Custom(symbol) = operator {
                if symbol == '|' {
                    assert(local@[position as int] == LocalOperator::Custom('|'));
                    return Err(
                        QmbedError::InvalidOperator(
                            "the species separator is not a local operator".to_string(),
                        ),
                    );
                }
            }
            let symbol: char = operator.symbol();
            if split == Some(position) {
                label.push('|');
            }
            label.push(symbol);
            notation::push_symbol(&mut symbols, symbol);
            proof {
                assert(letters(local@).subrange(0, position + 1) =~= letters(local@).subrange(
                    0,
                    position as int,
                ).push(symbol));
                assert(label@ =~= label_prefix(local@, cut, position + 1));
            }
            position = position + 1;
        }
        assert(!local@.contains(LocalOperator::Custom('|')));
        if let Some(boundary) = split {
            if boundary > length {
                return Err(
                    QmbedError::InvalidOperator(
                        "spinful operator split exceeds product arity".to_string(),
                    ),
                );
            }
            if boundary == length {
                label.push('|');
            }
        }
        proof {
            assert(letters(local@).subrange(0, length as int) =~= letters(local@));
            assert(label@ =~= spelled_out(local@, split));
        }
        Ok(OpProduct { local, symbols, split, label })
    }

    pub fn local_operators(&self) -> (local: &[LocalOperator])
        ensures
            local@ == self.operators(),
    {
        self.local.as_slice()
    }

    pub fn split(&self) -> (split: Option<usize>)
        ensures
            split == self.boundary(),
    {
        self.split
    }

    /// The operator string.
    pub fn label(&self) -> (label: &str)
        requires
            self.wf(),
        ensures
            label@ == spelled_out(self.operators(), self.boundary()),
    {
        self.label.as_str()
    }

    pub(crate) fn symbols(&self) -> (symbols: &[char])
        requires
            self.wf(),
        ensures
            symbols@ == letters(self.operators()),
    {
        notation::symbol_slice(&self.symbols)
    }
}

/// The beginning of an operator string with the separator at `cut`.
spec fn label_prefix(local: Seq<LocalOperator>, cut: int, upto: int) -> Seq<char> {
    if upto <= cut {
        letters(local).subrange(0, upto)
    } else {
        letters(local).subrange(0, cut).push('|') + letters(local).subrange(cut, upto)
    }
}

/// A coefficient and the sites that a product acts on.
#[derive(Clone, Debug)]
pub struct Coupling<V> {
    pub coefficient: V,
    pub sites: Vec<usize>,
}

impl<V> Coupling<V> {
    pub fn new(coefficient: V, sites: Vec<usize>) -> (coupling: Self)
        ensures
            coupling.coefficient == coefficient,
            coupling.sites == sites,
    {
        Coupling { coefficient, sites }
    }
}

/// Alternative spelling of a term.
pub type OperatorSpec<V> = OperatorTerm<V>;

/// A product of local operators, summed over couplings.
pub struct OperatorTerm<V> {
    product: OpProduct,
    couplings: Vec<Coupling<V>>,
}

/// Every coupling has one site per operator and a finite coefficient.
pub open spec fn fitting<V: Scalar>(couplings: Seq<Coupling<V>>, arity: nat) -> bool {
    forall|i: int|
        0 <= i < couplings.len() ==> (#[trigger] couplings[i]).sites@.len() == arity
            && couplings[i].coefficient.proper()
}

/// All sites of a coupling can be rearranged.
pub open spec fn placed<V>(coupling: Coupling<V>, permutation: Seq<usize>) -> bool {
    forall|i: int|
        0 <= i < coupling.sites@.len() ==> #[trigger] coupling.sites@[i] < permutation.len()
}

/// The coupling with its sites rearranged.
pub open spec fn moved_coupling<V>(
    before: Coupling<V>,
    permutation: Seq<usize>,
    after: Coupling<V>,
) -> bool {
    &&& placed(before, permutation)
    &&& after.coefficient == before.coefficient
    &&& after.sites@ == interop::rearranged(permutation, before.sites@)
}

/// The term with its sites rearranged.
pub open spec fn relocated<V: Scalar>(
    before: OperatorTerm<V>,
    permutation: Seq<usize>,
    after: OperatorTerm<V>,
) -> bool {
    &&& after.factors() == before.factors()
    &&& after.terms().len() == before.terms().len()
    &&& forall|i: int|
        0 <= i < after.terms().len() ==> moved_coupling(
            before.terms()[i],
            permutation,
            #[trigger] after.terms()[i],
        )
}

/// The coupling in place `at` is the first with a site that cannot be rearranged, and the
/// error names the first such site.
pub open spec fn misplaced_first<V>(
    list: Seq<Coupling<V>>,
    permutation: Seq<usize>,
    at: int,
    error: QmbedError,
) -> bool {
    &&& 0 <= at < list.len()
    &&& forall|i: int| 0 <= i < at ==> placed(#[trigger] list[i], permutation)
    &&& error matches QmbedError::InvalidSite { site, sites } && {
        &&& sites == permutation.len()
        &&& exists|k: int|
            0 <= k < list[at].sites@.len() && #[trigger] list[at].sites@[k] == site && site
                >= sites && forall|j: int| 0 <= j < k ==> #[trigger] list[at].sites@[j] < sites
    }
}

impl<V: Scalar> OperatorTerm<V> {
    pub closed spec fn factors(&self) -> OpProduct {
        self.product
    }

    pub closed spec fn terms(&self) -> Seq<Coupling<V>> {
        self.couplings@
    }

    pub open spec fn wf(&self) -> bool {
        self.factors().wf() && fitting(self.terms(), self.factors().operators().len())
    }

    /// A term from an operator string and its couplings.
    pub fn new(operator: &str, couplings: Vec<Coupling<V>>) -> (result: Result<Self>)
        ensures
            match result {
                Ok(term) => {
                    &&& parsable(operator@)
                    &&& term.wf()
                    &&& term.factors().operators() == operators_in(operator@)
                    &&& spelled_out(term.factors().operators(), term.factors().boundary())
                        == operator@
                    &&& term.terms() == couplings@
                },
                Err(QmbedError::InvalidOperator(_)) => !parsable(operator@),
                Err(QmbedError::InvalidCoupling(_)) => parsable(operator@) && !fitting(
                    couplings@,
                    operators_in(operator@).len(),
                ),
                Err(_) => false,
            },
    {
        let product: OpProduct = match parse_operator_product(operator) {
            Ok(product) => product,
            Err(error) => {
                return Err(error);
            },
        };
        Self::from_product(product, couplings)
    }

    /// A term from a product and its couplings.
    pub fn from_product(product: OpProduct, couplings: Vec<Coupling<V>>) -> (result: Result<Self>)
        requires
            product.wf(),
        ensures
            match result {
                Ok(term) => {
                    &&& term.wf()
                    &&& term.factors() == product
                    &&& term.terms() == couplings@
                },
                Err(error) => error is InvalidCoupling && !fitting(
                    couplings@,
                    product.operators().len(),
                ),
            },
    {
        let arity: usize = product.local_operators().len();
        let mut index: usize = 0;
        while index < couplings.len()
            invariant
                product.wf(),
                index <= couplings@.len(),
                arity == product.operators().len(),
                forall|i: int|
                    0 <= i < index ==> (#[trigger] couplings@[i]).sites@.len() == arity
                        && couplings@[i].coefficient.proper(),
            decreases couplings@.len() - index,
        {
            if couplings[index].sites.len() != arity {
                assert(couplings@[index as int].sites@.len() != arity);
                return Err(
                    QmbedError::InvalidCoupling(
                        error::naming(
                            "operator ",
                            product.label(),
                            error::weave(
                                vec![" has arity ", ", but a coupling has ", " sites"],
                                vec![arity, couplings[index].sites.len()],
                            ).as_str(),
                        ),
                    ),
                );
            }
            if !couplings[index].coefficient.is_finite() {
                assert(!couplings@[index as int].coefficient.proper());
                return Err(
                    QmbedError::InvalidCoupling(
                        "coupling coefficients must be finite".to_string(),
                    ),
                );
            }
            index = index + 1;
        }
        Ok(OperatorTerm { product, couplings })
    }

    /// The term with its sites rearranged.
    pub fn with_site_permutation(self, permutation: &[usize]) -> (result: Result<Self>)
        requires
            self.wf(),
        ensures
            match result {
                Ok(term) => term.wf() && relocated(self, permutation@, term),
                Err(error) => exists|i: int| #[trigger]
                    misplaced_first(self.terms(), permutation@, i, error),
            },
    {
        let ghost all = self.couplings@;
        let mut list: Vec<Coupling<V>> = Vec::new();
        let mut index: usize = 0;
        while index < self.couplings.len()
            invariant
                self.wf(),
                all == self.couplings@,
                index <= all.len(),
                list@.len() == index,
                forall|i: int| 0 <= i < index ==> moved_coupling(all[i], permutation@, #[trigger] list@[i]),
            decreases all.len() - index,
        {
            match interop::permute_sites(permutation, self.couplings[index].sites.as_slice()) {
                Ok(sites) => {
                    list.push(Coupling { coefficient: self.couplings[index].coefficient, sites });
                },
                Err(error) => {
                    proof {
                        assert forall|i: int| 0 <= i < index implies placed(
                            #[trigger] all[i],
                            permutation@,
                        ) by {
                            assert(moved_coupling(all[i], permutation@, list@[i]));
                        }
                        assert(misplaced_first(all, permutation@, index as int, error));
                    }
                    return Err(error);
                },
            }
            index = index + 1;
        }
        proof {
            assert forall|i: int| 0 <= i < list@.len() implies (#[trigger] list@[i]).sites@.len()
                == self.factors().operators().len() && list@[i].coefficient.proper() by {
                assert(moved_coupling(all[i], permutation@, list@[i]));
                assert(all[i].sites@.len() == self.factors().operators().len());
            }
        }
        Ok(OperatorTerm { product: self.product, couplings: list })
    }

    /// The operator string.
    pub fn operator(&self) -> (label: &str)
        requires
            self.wf(),
        ensures
            label@ == spelled_out(self.factors().operators(), self.factors().boundary()),
    {
        self.product.label()
    }

    pub fn product(&self) -> (product: &OpProduct)
        ensures
            *product == self.factors(),
    {
        &self.product
    }

    pub fn couplings(&self) -> (couplings: &[Coupling<V>])
        ensures
            couplings@ == self.terms(),
    {
        self.couplings.as_slice()
    }
}

/// Which properties an assembled operator is checked for.
#[derive(Clone, Copy, Debug, PartialEq, Eq, Structural)]
pub struct AssemblyChecks {
    pub hermiticity: bool,
    pub particle_conservation: bool,
    pub symmetry_compatibility: bool,
}

impl AssemblyChecks {
    /// Every check.
    pub fn all() -> (checks: Self)
        ensures
            checks == (AssemblyChecks {
                hermiticity: true,
                particle_conservation: true,
                symmetry_compatibility: true,
            }),
    {
        AssemblyChecks {
            hermiticity: true,
            particle_conservation: true,
            symmetry_compatibility: true,
        }
    }

    /// No check.
    pub fn none() -> (checks: Self)
        ensures
            checks == (AssemblyChecks {
                hermiticity: false,
                particle_conservation: false,
                symmetry_compatibility: false,
            }),
    {
        AssemblyChecks {
            hermiticity: false,
            particle_conservation: false,
            symmetry_compatibility: false,
        }
    }

    /// The checks that make sense between different bases.
    pub fn rectangular() -> (checks: Self)
        ensures
            checks == (AssemblyChecks {
                hermiticity: false,
                particle_conservation: false,
                symmetry_compatibility: true,
            }),
    {
        AssemblyChecks {
            hermiticity: false,
            particle_conservation: false,
            symmetry_compatibility: true,
        }
    }
}

impl Default for AssemblyChecks {
    fn default() -> (checks: Self)
        ensures
            checks == (AssemblyChecks {
                hermiticity: true,
                particle_conservation: true,
                symmetry_compatibility: true,
            }),
    {
        AssemblyChecks::all()
    }
}

} // verus!
