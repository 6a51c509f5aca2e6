//! Bases with states and local operators of the user's own.

use vstd::prelude::*;
use crate::basis::{Basis, Landing};
use crate::basis;
use crate::error::{QmbedError, Result};
use crate::general;
use crate::local::{Factor, Fault, ProductOutcome, Reduction, Transition};
use crate::local;
use crate::order::StateOrder;
use crate::order;
use crate::radix;
use crate::scalar::{Amplitude, Scalar};
use crate::states;
use crate::weights::Weighted;
use crate::weights;

verus! {

/// Local operators by their symbols.
/// What an implementation leaves out of the specification is not specified.
pub trait UserAction<S, V> {
    open spec fn knows(&self, symbol: char) -> bool {
        arbitrary()
    }

    /// What an operator does to a state, or nothing where it refuses the state.
    open spec fn outcomes(&self, symbol: char, state: S, site: usize) -> Option<Seq<Weighted<S, V>>> {
        arbitrary()
    }

    /// The errors with which an operator refuses a state.
    open spec fn refusals(&self, symbol: char, state: S, site: usize) -> Set<QmbedError> {
        arbitrary()
    }

    /// Applies an operator; nothing where the symbol is not known.
    fn act(&self, symbol: char, state: S, site: usize) -> (result: Result<
        Option<Vec<Weighted<S, V>>>,
    >)
        ensures
            match result {
                Ok(Some(list)) => self.knows(symbol) && self.outcomes(symbol, state, site) == Some(
                    list@,
                ),
                Ok(None) => !self.knows(symbol),
                Err(error) => self.knows(symbol) && self.outcomes(symbol, state, site) is None
                    && self.refusals(symbol, state, site).contains(error),
            },
    ;
}

/// One row of a table of local operators.
#[derive(Clone, Copy, Debug)]
pub struct TableRow<S, V> {
    pub symbol: char,
    pub site: usize,
    pub source: S,
    pub target: S,
    pub amplitude: V,
}

/// Local operators given by a table of their matrix elements.
#[derive(Debug)]
pub struct ActionTable<S, V> {
    pub symbols: Vec<char>,
    pub rows: Vec<TableRow<S, V>>,
}

/// The outcomes that the first rows of a table hold.
pub open spec fn table_outcomes<S, V>(
    rows: Seq<TableRow<S, V>>,
    symbol: char,
    state: S,
    site: usize,
) -> Seq<Weighted<S, V>>
    decreases rows.len(),
{
    if rows.len() == 0 {
        Seq::empty()
    } else {
        let front = table_outcomes(rows.drop_last(), symbol, state, site);
        let last = rows.last();
        if last.symbol == symbol && last.site == site && last.source == state {
            front.push(Weighted { state: last.target, amplitude: last.amplitude })
        } else {
            front
        }
    }
}

impl<S: StateOrder, V: Scalar> UserAction<S, V> for ActionTable<S, V> {
    open spec fn knows(&self, symbol: char) -> bool {
        self.symbols@.contains(symbol)
    }

    open spec fn outcomes(&self, symbol: char, state: S, site: usize) -> Option<
        Seq<Weighted<S, V>>,
    > {
        Some(table_outcomes(self.rows@, symbol, state, site))
    }

    open spec fn refusals(&self, symbol: char, state: S, site: usize) -> Set<QmbedError> {
        Set::empty()
    }

    fn act(&self, symbol: char, state: S, site: usize) -> (result: Result<
        Option<Vec<Weighted<S, V>>>,
    >) {
        let mut known: bool = false;
        let mut index: usize = 0;
        while index < self.symbols.len()
            invariant
                index <= self.symbols@.len(),
                known == self.symbols@.subrange(0, index as int).contains(symbol),
            decreases self.symbols@.len() - index,
        {
            let ghost shorter = self.symbols@.subrange(0, index as int);
            let ghost longer = self.symbols@.subrange(0, index + 1);
            let found: char = self.symbols[index];
            proof {
                assert(longer =~= shorter.push(found));
                assert(longer[index as int] == found);
                if shorter.contains(symbol) {
                    let k = shorter.index_of(symbol);
                    assert(longer[k] == symbol);
                }
                if longer.contains(symbol) && found != symbol {
                    let k = longer.index_of(symbol);
                    assert(shorter[k] == symbol);
                }
            }
            if found == symbol {
                known = true;
            }
            index = index + 1;
        }
        assert(self.symbols@.subrange(0, index as int) =~= self.symbols@);
        if !known {
            return Ok(None);
        }
        let mut list: Vec<Weighted<S, V>> = Vec::new();
        let mut position: usize = 0;
        assert(self.rows@.subrange(0, 0) =~= Seq::<TableRow<S, V>>::empty());
        while position < self.rows.len()
            invariant
                position <= self.rows@.len(),
                list@ == table_outcomes(
                    self.rows@.subrange(0, position as int),
                    symbol,
                    state,
                    site,
                ),
            decreases self.rows@.len() - position,
        {
            let row: TableRow<S, V> = self.rows[position];
            assert(self.rows@.subrange(0, position + 1).drop_last() =~= self.rows@.subrange(
                0,
                position as int,
            ));
            if row.symbol == symbol && row.site == site && order::same_state(row.source, state) {
                list.push(Weighted { state: row.target, amplitude: row.amplitude });
            }
            position = position + 1;
        }
        assert(self.rows@.subrange(0, position as int) =~= self.rows@);
        Ok(Some(list))
    }
}

/// What the leftmost `remaining` operators of a product do to a state that the others
/// have already acted on; the rightmost acts first.
pub open spec fn user_action<S, V: Amplitude, A: UserAction<S, V>>(
    actions: &A,
    lattice: usize,
    state: S,
    factors: Seq<Factor>,
    symbols: Seq<char>,
    sites: Seq<usize>,
    remaining: nat,
) -> ProductOutcome<S>
    decreases remaining, 0nat,
{
    if remaining == 0 {
        Ok(seq![(state, factors)])
    } else {
        let position = (remaining - 1) as nat;
        let site = sites[position as int];
        let symbol = symbols[position as int];
        if site >= lattice {
            Err(Fault::Site { site, sites: lattice })
        } else if !actions.knows(symbol) {
            Err(Fault::Symbol)
        } else {
            match actions.outcomes(symbol, state, site) {
                None => Err(Fault::Refused(actions.refusals(symbol, state, site))),
                Some(list) => user_spread(
                    actions,
                    lattice,
                    list,
                    factors,
                    symbols,
                    sites,
                    position,
                ),
            }
        }
    }
}

/// The rest of the product on each of several outcomes in turn, those of negligible
/// amplitude left out.
pub open spec fn user_spread<S, V: Amplitude, A: UserAction<S, V>>(
    actions: &A,
    lattice: usize,
    list: Seq<Weighted<S, V>>,
    factors: Seq<Factor>,
    symbols: Seq<char>,
    sites: Seq<usize>,
    remaining: nat,
) -> ProductOutcome<S>
    decreases remaining, list.len() + 1,
{
    if list.len() == 0 {
        Ok(Seq::empty())
    } else {
        let front = user_spread(
            actions,
            lattice,
            list.drop_last(),
            factors,
            symbols,
            sites,
            remaining,
        );
        if list.last().amplitude.tiny() {
            front
        } else {
            local::joined(
                front,
                user_action(
                    actions,
                    lattice,
                    list.last().state,
                    factors.push(Factor::Given(list.last().amplitude.pattern())),
                    symbols,
                    sites,
                    remaining,
                ),
            )
        }
    }
}

/// Follows the branches of a product.
fn follow<S: StateOrder, V: Amplitude, A: UserAction<S, V>>(
    actions: &A,
    lattice: usize,
    state: S,
    factors: &Vec<Factor>,
    symbols: &[char],
    sites: &[usize],
    remaining: usize,
    output: &mut Vec<Transition<S>>,
) -> (result: Result<()>)
    requires
        remaining <= symbols@.len(),
        symbols@.len() == sites@.len(),
    ensures
        match result {
            Ok(()) => {
                let found = user_action(
                    actions,
                    lattice,
                    state,
                    factors@,
                    symbols@,
                    sites@,
                    remaining as nat,
                );
                found is Ok && local::transitions_view(final(output)@) == local::transitions_view(
                    old(output)@,
                ) + found->Ok_0
            },
            Err(error) => {
                let found = user_action(
                    actions,
                    lattice,
                    state,
                    factors@,
                    symbols@,
                    sites@,
                    remaining as nat,
                );
                found is Err && local::reports(error, found->Err_0)
            },
        },
    decreases remaining,
{
    if remaining == 0 {
        let path: Vec<Factor> = local::copy_factors(factors);
        output.push(Transition { state, factors: path });
        assert(local::transitions_view(output@) =~= local::transitions_view(old(output)@) + seq![
            (state, factors@),
        ]);
        return Ok(());
    }
    let position: usize = remaining - 1;
    let site: usize = sites[position];
    let symbol: char = symbols[position];
    if site >= lattice {
        return Err(QmbedError::InvalidSite { site, sites: lattice });
    }
    let list: Vec<Weighted<S, V>> = match actions.act(symbol, state, site) {
        Err(error) => {
            return Err(error);
        },
        Ok(None) => {
            return Err(QmbedError::InvalidOperator(symbol.to_string()));
        },
        Ok(Some(list)) => list,
    };
    let ghost start = local::transitions_view(output@);
    let mut index: usize = 0;
    proof {
        assert(list@.subrange(0, 0) =~= Seq::empty());
        assert(start + Seq::<(S, Seq<Factor>)>::empty() =~= start);
    }
    while index < list.len()
        invariant
            remaining <= symbols@.len(),
            symbols@.len() == sites@.len(),
            position == remaining - 1,
            site < lattice,
            site == sites@[position as int],
            symbol == symbols@[position as int],
            actions.knows(symbol),
            actions.outcomes(symbol, state, site) == Some(list@),
            index <= list@.len(),
            user_spread(
                actions,
                lattice,
                list@.subrange(0, index as int),
                factors@,
                symbols@,
                sites@,
                position as nat,
            ) is Ok,
            local::transitions_view(output@) == start + user_spread(
                actions,
                lattice,
                list@.subrange(0, index as int),
                factors@,
                symbols@,
                sites@,
                position as nat,
            )->Ok_0,
        decreases list@.len() - index,
    {
        let item: Weighted<S, V> = list[index];
        let ghost shorter = list@.subrange(0, index as int);
        let ghost longer = list@.subrange(0, index + 1);
        let ghost before = user_spread(
            actions,
            lattice,
            shorter,
            factors@,
            symbols@,
            sites@,
            position as nat,
        );
        proof {
            assert(longer.drop_last() =~= shorter);
            assert(longer.last() == item);
        }
        if !item.amplitude.is_negligible() {
            let mut path: Vec<Factor> = local::copy_factors(factors);
            path.push(Factor::Given(item.amplitude.to_bits()));
            match follow(
                actions,
                lattice,
                item.state,
                &path,
                symbols,
                sites,
                position,
                output,
            ) {
                Ok(()) => {},
                Err(error) => {
                    proof {
                        lemma_spread_stops(
                            actions,
                            lattice,
                            list@,
                            factors@,
                            symbols@,
                            sites@,
                            position as nat,
                            (index + 1) as nat,
                            list@.len(),
                        );
                        assert(list@.subrange(0, list@.len() as int) =~= list@);
                    }
                    return Err(error);
                },
            }
            proof {
                let added = user_action(
                    actions,
                    lattice,
                    item.state,
                    path@,
                    symbols@,
                    sites@,
                    position as nat,
                )->Ok_0;
                assert(start + before->Ok_0 + added =~= start + (before->Ok_0 + added));
            }
        }
        index = index + 1;
    }
    assert(list@.subrange(0, index as int) =~= list@);
    Ok(())
}

proof fn lemma_spread_stops<S, V: Amplitude, A: UserAction<S, V>>(
    actions: &A,
    lattice: usize,
    list: Seq<Weighted<S, V>>,
    factors: Seq<Factor>,
    symbols: Seq<char>,
    sites: Seq<usize>,
    remaining: nat,
    from: nat,
    upto: nat,
)
    requires
        from <= upto <= list.len(),
        user_spread(
            actions,
            lattice,
            list.subrange(0, from as int),
            factors,
            symbols,
            sites,
            remaining,
        ) is Err,
    ensures
        user_spread(
            actions,
            lattice,
            list.subrange(0, upto as int),
            factors,
            symbols,
            sites,
            remaining,
        ) == user_spread(
            actions,
            lattice,
            list.subrange(0, from as int),
            factors,
            symbols,
            sites,
            remaining,
        ),
    decreases upto - from,
{
    if from < upto {
        lemma_spread_stops(
            actions,
            lattice,
            list,
            factors,
            symbols,
            sites,
            remaining,
            from,
            (upto - 1) as nat,
        );
        assert(list.subrange(0, upto as int).drop_last() =~= list.subrange(0, upto - 1));
    }
}

/// A list of states with local operators of the user's own.
#[derive(Debug)]
pub struct UserBasis<S, V, A> {
    sites: usize,
    states: Vec<S>,
    sorted: Vec<S>,
    places: Vec<usize>,
    actions: A,
    scale: std::marker::PhantomData<V>,
}

/// Collects what a basis of the user's own is made of.
#[derive(Debug)]
pub struct UserBasisBuilder<S, A> {
    pub sites: usize,
    pub states: Vec<S>,
    pub actions: A,
}

/// The states are sorted in the index, each with its place in the list.
spec fn indexed<S: StateOrder>(listed: Seq<S>, sorted: Seq<S>, places: Seq<usize>) -> bool {
    &&& order::sorted(sorted)
    &&& places.len() == sorted.len()
    &&& sorted.len() == listed.len()
    &&& forall|i: int|
        0 <= i < places.len() ==> (#[trigger] places[i]) < listed.len()
            && listed[places[i] as int] == sorted[i]
    &&& forall|i: int| 0 <= i < listed.len() ==> sorted.contains(#[trigger] listed[i])
}

impl<S: StateOrder, V: Amplitude, A: UserAction<S, V>> UserBasis<S, V, A> {
    pub closed spec fn lattice(&self) -> usize {
        self.sites
    }

    pub closed spec fn list(&self) -> Seq<S> {
        self.states@
    }

    pub closed spec fn operators(&self) -> A {
        self.actions
    }

    pub closed spec fn wf(&self) -> bool {
        indexed(self.states@, self.sorted@, self.places@) && self.states@.no_duplicates()
    }

    /// Begins a basis on a lattice with given operators.
    pub fn builder(sites: usize, actions: A) -> (builder: UserBasisBuilder<S, A>)
        ensures
            builder.sites == sites,
            builder.states@.len() == 0,
            builder.actions == actions,
    {
        UserBasisBuilder { sites, states: Vec::new(), actions }
    }

    /// What an operator string does to a state: the sums over each final state, in the
    /// order in which they are first reached, those that count as zero left out.
    pub fn apply_local_transitions(&self, state: S, operator: &str, sites: &[usize]) -> (result:
        Result<Vec<Weighted<S, V>>>)
        requires
            self.wf(),
        ensures
            match result {
                Ok(list) => {
                    let outcome = weights::text_action(self, state, operator@, sites@);
                    outcome is Ok && list@ == counted(
                        general::coefficients(weights::weighed::<S, V>(outcome->Ok_0)),
                    )
                },
                Err(error) => {
                    let outcome = weights::text_action(self, state, operator@, sites@);
                    outcome is Err && local::reports(error, outcome->Err_0)
                },
            },
    {
        let list: Vec<Weighted<S, V>> = match weights::apply_local_transitions(
            self,
            state,
            operator,
            sites,
        ) {
            Ok(list) => list,
            Err(error) => {
                return Err(error);
            },
        };
        let sums: Vec<Weighted<S, V>> = general::gather(&list);
        let mut kept: Vec<Weighted<S, V>> = Vec::new();
        let mut index: usize = 0;
        assert(sums@.subrange(0, 0) =~= Seq::empty());
        while index < sums.len()
            invariant
                index <= sums@.len(),
                kept@ == counted(sums@.subrange(0, index as int)),
            decreases sums@.len() - index,
        {
            let item: Weighted<S, V> = sums[index];
            assert(sums@.subrange(0, index + 1).drop_last() =~= sums@.subrange(0, index as int));
            if !item.amplitude.is_negligible() {
                kept.push(item);
            }
            index = index + 1;
        }
        assert(sums@.subrange(0, index as int) =~= sums@);
        Ok(kept)
    }
}

/// The outcomes whose amplitudes do not count as zero.
pub open spec fn counted<S, V: Scalar>(list: Seq<Weighted<S, V>>) -> Seq<Weighted<S, V>>
    decreases list.len(),
{
    if list.len() == 0 {
        Seq::empty()
    } else if list.last().amplitude.tiny() {
        counted(list.drop_last())
    } else {
        counted(list.drop_last()).push(list.last())
    }
}

impl<S: StateOrder, A> UserBasisBuilder<S, A> {
    /// Replaces the states.
    pub fn states(self, states: Vec<S>) -> (builder: Self)
        ensures
            builder.sites == self.sites,
            builder.actions == self.actions,
            builder.states == states,
    {
        UserBasisBuilder { sites: self.sites, states, actions: self.actions }
    }

    /// Lists the states, taking them from the factory where none were given.
    pub fn materialize<V: Amplitude, F: Fn() -> Result<Vec<S>>>(self, factory: F) -> (result:
        Result<UserBasis<S, V, A>>) where A: UserAction<S, V>
        requires
            factory.requires(()),
        ensures
            if self.states@.len() > 0 {
                basis_built(self, self.states@, result)
            } else {
                exists|made: Result<Vec<S>>| #[trigger] factory.ensures((), made) && match made {
                    Ok(states) => basis_built(self, states@, result),
                    Err(error) => result == Result::<UserBasis<S, V, A>>::Err(error),
                }
            },
    {
        if self.states.len() > 0 {
            return self.build();
        }
        let made: Result<Vec<S>> = factory();
        match made {
            Ok(states) => {
                let ghost given = states;
                let builder: UserBasisBuilder<S, A> = UserBasisBuilder {
                    sites: self.sites,
                    states,
                    actions: self.actions,
                };
                let result: Result<UserBasis<S, V, A>> = builder.build();
                assert(factory.ensures((), Ok(given)));
                result
            },
            Err(error) => Err(error),
        }
    }

    /// Lists the states.
    pub fn build<V: Amplitude>(self) -> (result: Result<UserBasis<S, V, A>>) where
        A: UserAction<S, V>,

        ensures
            basis_built(self, self.states@, result),
    {
        if self.states.len() == 0 {
            return Err(
                QmbedError::InvalidSector(
                    "UserBasis requires at least one accepted state".to_string(),
                ),
            );
        }
        let length: usize = self.states.len();
        let mut sorted: Vec<S> = Vec::new();
        let mut places: Vec<usize> = Vec::new();
        let mut index: usize = 0;
        while index < length
            invariant
                length == self.states@.len(),
                index <= length,
                indexed(self.states@.subrange(0, index as int), sorted@, places@),
                self.states@.subrange(0, index as int).no_duplicates(),
            decreases length - index,
        {
            let state: S = self.states[index];
            let ghost shorter = self.states@.subrange(0, index as int);
            let ghost longer = self.states@.subrange(0, index + 1);
            proof {
                order::lemma_sorted_ascending(sorted@);
            }
            let place: usize = order::place_of(&sorted, state);
            if place < sorted.len() && order::same_state(sorted[place], state) {
                proof {
                    let k = places@[place as int] as int;
                    assert(shorter[k] == sorted@[place as int]);
                    assert(self.states@[k] == self.states@[index as int]);
                    assert(k < index);
                }
                return Err(
                    QmbedError::InvalidSector("UserBasis states must be unique".to_string()),
                );
            }
            let ghost old_sorted = sorted@;
            let ghost old_places = places@;
            sorted.insert(place, state);
            places.insert(place, index);
            proof {
                lemma_index_grows(shorter, old_sorted, old_places, state, place as int);
                assert(longer =~= shorter.push(state));
                assert(sorted@ =~= old_sorted.insert(place as int, state));
                assert(places@ =~= old_places.insert(place as int, index));
            }
            index = index + 1;
        }
        assert(self.states@.subrange(0, index as int) =~= self.states@);
        Ok(
            UserBasis {
                sites: self.sites,
                states: self.states,
                sorted,
                places,
                actions: self.actions,
                scale: std::marker::PhantomData,
            },
        )
    }
}

/// The basis lists the given states; they have to be there and all different.
pub open spec fn basis_built<S: StateOrder, V: Amplitude, A: UserAction<S, V>>(
    builder: UserBasisBuilder<S, A>,
    states: Seq<S>,
    result: Result<UserBasis<S, V, A>>,
) -> bool {
    match result {
        Ok(basis) => {
            &&& states.len() > 0
            &&& states.no_duplicates()
            &&& basis.wf()
            &&& basis.list() == states
            &&& basis.lattice() == builder.sites
            &&& basis.operators() == builder.actions
        },
        Err(error) => error is InvalidSector && (states.len() == 0 || !states.no_duplicates()),
    }
}

proof fn lemma_index_grows<S: StateOrder>(
    listed: Seq<S>,
    sorted: Seq<S>,
    places: Seq<usize>,
    state: S,
    place: int,
)
    requires
        indexed(listed, sorted, places),
        listed.no_duplicates(),
        listed.len() < usize::MAX,
        0 <= place <= sorted.len(),
        forall|i: int| 0 <= i < place ==> (#[trigger] sorted[i]).before(state),
        forall|i: int| place <= i < sorted.len() ==> !(#[trigger] sorted[i]).before(state),
        place < sorted.len() ==> sorted[place] != state,
    ensures
        indexed(
            listed.push(state),
            sorted.insert(place, state),
            places.insert(place, listed.len() as usize),
        ),
        listed.push(state).no_duplicates(),
{
    let more = listed.push(state);
    let grown = sorted.insert(place, state);
    let moved = places.insert(place, listed.len() as usize);
    assert forall|i: int| 0 <= i < sorted.len() implies #[trigger] sorted[i] != state by {
        S::lemma_order(state, state, state);
        if i > place {
            assert(sorted[place].before(sorted[i]));
        }
    }
    assert forall|i: int, j: int| 0 <= i < j < grown.len() implies (#[trigger] grown[i]).before(
        #[trigger] grown[j],
    ) by {
        if i < place && j > place {
            assert(sorted[i].before(sorted[j - 1]));
        } else if i == place {
            let other = sorted[j - 1];
            assert(!other.before(state));
            S::lemma_order(other, state, state);
        } else if j == place {
            assert(sorted[i].before(state));
        } else if i < place {
            assert(sorted[i].before(sorted[j]));
        } else {
            assert(sorted[i - 1].before(sorted[j - 1]));
        }
    }
    assert forall|i: int| 0 <= i < moved.len() implies (#[trigger] moved[i]) < more.len()
        && more[moved[i] as int] == grown[i] by {
        if i < place {
            assert(moved[i] == places[i]);
            assert(listed[places[i] as int] == sorted[i]);
        } else if i > place {
            assert(moved[i] == places[i - 1]);
            assert(listed[places[i - 1] as int] == sorted[i - 1]);
        }
    }
    assert forall|i: int| 0 <= i < more.len() implies grown.contains(#[trigger] more[i]) by {
        if i < listed.len() {
            assert(sorted.contains(listed[i]));
            let k = sorted.index_of(listed[i]);
            if k < place {
                assert(grown[k] == listed[i]);
            } else {
                assert(grown[k + 1] == listed[i]);
            }
        } else {
            assert(grown[place] == state);
        }
    }
    assert forall|i: int, j: int|
        0 <= i < more.len() && 0 <= j < more.len() && i != j implies more[i] != more[j] by {
        if i == listed.len() {
            assert(sorted.contains(listed[j]));
        } else if j == listed.len() {
            assert(sorted.contains(listed[i]));
        }
    }
}

impl<A> UserBasisBuilder<u128, A> {
    /// Takes as states the numbers below `2^sites` that the test accepts.
    pub fn state_filter<F: Fn(u128) -> bool>(self, keep: F) -> (result: Result<Self>)
        requires
            forall|state: u128| keep.requires((state,)),
        ensures
            match result {
                Ok(builder) => {
                    &&& self.sites <= 127
                    &&& builder.sites == self.sites
                    &&& builder.actions == self.actions
                    &&& filtered(keep, builder.states@, radix::place(2, self.sites as nat))
                },
                Err(error) => error is UnsupportedBackend && self.sites > 127,
            },
    {
        if self.sites > 127 {
            return Err(
                QmbedError::UnsupportedBackend(
                    "u128 UserBasis filters support at most 127 sites".to_string(),
                ),
            );
        }
        proof {
            states::lemma_power_of_two(self.sites);
        }
        let limit: u128 = 1u128 << (self.sites as u32);
        let mut kept: Vec<u128> = Vec::new();
        let mut state: u128 = 0;
        while state < limit
            invariant
                state <= limit,
                forall|state: u128| keep.requires((state,)),
                filtered(keep, kept@, state as nat),
            decreases limit - state,
        {
            let ghost before = kept@;
            let accepted: bool = keep(state);
            if accepted {
                kept.push(state);
            }
            proof {
                assert forall|i: int| 0 <= i < kept@.len() implies (#[trigger] kept@[i]) < state + 1
                    && keep.ensures((kept@[i],), true) by {
                    if i < before.len() {
                        assert(kept@[i] == before[i]);
                    }
                }
                assert forall|other: u128|
                    other < state + 1 && !(#[trigger] kept@.contains(other)) implies keep.ensures(
                    (other,),
                    false,
                ) by {
                    if other < state {
                        if before.contains(other) {
                            let k = before.index_of(other);
                            assert(kept@[k] == other);
                        }
                    } else if accepted {
                        assert(kept@[before.len() as int] == other);
                    }
                }
            }
            state = state + 1;
        }
        Ok(UserBasisBuilder { sites: self.sites, states: kept, actions: self.actions })
    }
}

/// The list holds, in ascending order, the numbers below a bound that the test has
/// accepted, and only rejected ones are missing.
pub open spec fn filtered<F: Fn(u128) -> bool>(keep: F, list: Seq<u128>, bound: nat) -> bool {
    &&& states::ascending(list)
    &&& forall|i: int|
        0 <= i < list.len() ==> (#[trigger] list[i]) < bound && keep.ensures((list[i],), true)
    &&& forall|state: u128|
        state < bound && !(#[trigger] list.contains(state)) ==> keep.ensures((state,), false)
}

impl<S: StateOrder, V: Amplitude, A: UserAction<S, V>> Basis for UserBasis<S, V, A> {
    type State = S;

    open spec fn well_formed(&self) -> bool {
        self.wf()
    }

    open spec fn listed(&self) -> Seq<S> {
        self.list()
    }

    open spec fn accepts(&self, state: S) -> bool {
        true
    }

    open spec fn action(
        &self,
        state: S,
        symbols: Seq<char>,
        split: Option<usize>,
        sites: Seq<usize>,
    ) -> ProductOutcome<S> {
        if symbols.len() != sites.len() {
            Err(Fault::Arity)
        } else {
            user_action::<S, V, A>(
                &self.operators(),
                self.lattice(),
                state,
                Seq::empty(),
                symbols,
                sites,
                symbols.len(),
            )
        }
    }

    open spec fn distinct(&self) -> bool {
        true
    }

    open spec fn seat(&self, state: S) -> int {
        self.listed().index_of(state)
    }

    proof fn lemma_seat(&self, state: S) {
    }

    proof fn lemma_distinct(&self) {
    }

    open spec fn orbit_weight(&self, state: S) -> nat {
        1
    }

    open spec fn landing(&self, state: S, source_orbit: usize) -> Option<Landing> {
        if self.list().contains(state) {
            Some(
                Landing {
                    index: self.list().index_of(state) as usize,
                    reduction: basis::no_reduction(),
                },
            )
        } else {
            None
        }
    }

    open spec fn two_parts(&self) -> bool {
        false
    }

    fn needs_separator(&self) -> (needed: bool) {
        false
    }

    open spec fn orbit_reduced(&self) -> bool {
        false
    }

    fn is_orbit_reduced(&self) -> (reduced: bool) {
        false
    }

    fn len(&self) -> (length: usize) {
        self.states.len()
    }

    fn state(&self, index: usize) -> (result: Result<S>) {
        if index < self.states.len() {
            Ok(self.states[index])
        } else {
            Err(QmbedError::StateNotInBasis)
        }
    }

    fn index(&self, state: S) -> (result: Result<usize>) {
        proof {
            order::lemma_sorted_ascending(self.sorted@);
        }
        match order::find_state(&self.sorted, state) {
            Some(place) => {
                proof {
                    assert(self.places@[place as int] < self.states@.len());
                    self.lemma_distinct();
                    basis::lemma_one_place(self.states@, self.places@[place as int] as int);
                }
                Ok(self.places[place])
            },
            None => {
                proof {
                    if self.states@.contains(state) {
                        let k = self.states@.index_of(state);
                        assert(self.sorted@.contains(self.states@[k]));
                    }
                }
                Err(QmbedError::StateNotInBasis)
            },
        }
    }

    fn unreduced_transitions(
        &self,
        state: S,
        symbols: &[char],
        split: Option<usize>,
        sites: &[usize],
    ) -> (result: Result<Vec<Transition<S>>>) {
        if symbols.len() != sites.len() {
            return Err(
                QmbedError::InvalidCoupling("operator arity does not match its sites".to_string()),
            );
        }
        let mut output: Vec<Transition<S>> = Vec::new();
        let start: Vec<Factor> = Vec::new();
        assert(start@ =~= Seq::<Factor>::empty());
        match follow::<S, V, A>(
            &self.actions,
            self.sites,
            state,
            &start,
            symbols,
            sites,
            symbols.len(),
            &mut output,
        ) {
            Ok(()) => {
                assert(local::transitions_view(output@) =~= user_action::<S, V, A>(
                    &self.actions,
                    self.sites,
                    state,
                    Seq::empty(),
                    symbols@,
                    sites@,
                    symbols@.len(),
                )->Ok_0);
                Ok(output)
            },
            Err(error) => Err(error),
        }
    }

    fn transition_orbit_size(&self, state: S) -> (result: Result<usize>) {
        Ok(1)
    }

    open spec fn preservation(&self, operator: Seq<char>) -> std::result::Result<bool, Fault> {
        Ok(true)
    }

    fn operator_preserves_particle_sector(&self, operator: &str) -> (result: Result<bool>) {
        Ok(true)
    }

    fn index_transition(&self, state: S, source_orbit_size: usize) -> (result: Option<Landing>) {
        match self.index(state) {
            Ok(index) => {
                proof {
                    let list = self.list();
                    assert(list[index as int] == state);
                    assert(list.contains(state));
                    assert(list[list.index_of(state)] == state);
                }
                Some(
                    Landing {
                        index,
                        reduction: Reduction {
                            turn: 0,
                            steps: 1,
                            given: None,
                            source_orbit: 1,
                            target_orbit: 1,
                        },
                    },
                )
            },
            Err(_) => None,
        }
    }
}

} // verus!
