//! Symmetries that move the sites of a lattice and relabel their local states.

use vstd::prelude::*;
use vstd::arithmetic::div_mod::*;
use vstd::arithmetic::mul::*;
use crate::error::{QmbedError, Result};
use crate::general::SymmetryMap;
use crate::interop;
use crate::radix;
use crate::scalar::Amplitude;

verus! {

/// What happens to the phase when particles change places.
#[derive(Clone, Copy, Debug, PartialEq, Eq, Structural)]
pub enum ExchangeStatistics {
    Distinguishable,
    Fermionic,
}

/// Local states after the relabelling of each site, where there is one.
pub type Levels = Option<Seq<Seq<usize>>>;

pub open spec fn levels_view(levels: Option<Vec<Vec<usize>>>) -> Levels {
    match levels {
        Some(list) => Some(Seq::new(list@.len(), |i: int| list@[i]@)),
        None => None,
    }
}

/// The local state that a local state of a site becomes.
pub open spec fn relabelled(levels: Levels, site: int, level: nat) -> nat {
    match levels {
        Some(list) => list[site][level as int] as nat,
        None => level,
    }
}

/// Each site has a rearrangement of its local states.
pub open spec fn levels_fit(levels: Levels, base: usize, sites: nat) -> bool {
    levels matches Some(list) ==> {
        &&& list.len() == sites
        &&& forall|i: int|
            0 <= i < sites ==> (#[trigger] list[i]).len() == base && interop::is_permutation(
                list[i],
            )
    }
}

/// Some local state changes.
pub open spec fn changes_levels(levels: Levels, base: usize, sites: nat) -> bool {
    exists|i: int, d: nat| 0 <= i < sites && d < base && #[trigger] relabelled(levels, i, d) != d
}

/// The digits after each site has been relabelled and moved.
pub open spec fn moved_digits(ds: Seq<nat>, permutation: Seq<usize>, levels: Levels) -> Seq<nat> {
    Seq::new(
        ds.len(),
        |i: int|
            {
                let from = permutation.index_of(i as usize);
                relabelled(levels, from, ds[from])
            },
    )
}

/// The number of occupied sites below `upto` that land above where site `site` lands.
pub open spec fn overtaken(ds: Seq<nat>, permutation: Seq<usize>, site: int, upto: nat) -> nat
    decreases upto,
{
    if upto == 0 {
        0
    } else {
        let rest = overtaken(ds, permutation, site, (upto - 1) as nat);
        if ds[upto - 1] != 0 && permutation[upto - 1] > permutation[site] {
            rest + 1
        } else {
            rest
        }
    }
}

/// The number of pairs of occupied sites whose order is exchanged, among the first
/// sites.
pub open spec fn exchanges(ds: Seq<nat>, permutation: Seq<usize>, upto: nat) -> nat
    decreases upto,
{
    if upto == 0 {
        0
    } else {
        let rest = exchanges(ds, permutation, (upto - 1) as nat);
        if ds[upto - 1] != 0 {
            rest + overtaken(ds, permutation, upto - 1, (upto - 1) as nat)
        } else {
            rest
        }
    }
}

/// Where a site is after a number of steps.
pub open spec fn site_after(permutation: Seq<usize>, site: usize, steps: nat) -> usize
    decreases steps,
{
    if steps == 0 {
        site
    } else {
        permutation[site_after(permutation, site, (steps - 1) as nat) as int]
    }
}

/// What a local state of a site has become after a number of steps.
pub open spec fn level_after(
    permutation: Seq<usize>,
    levels: Levels,
    site: usize,
    level: nat,
    steps: nat,
) -> nat
    decreases steps,
{
    if steps == 0 {
        level
    } else {
        relabelled(
            levels,
            site_after(permutation, site, (steps - 1) as nat) as int,
            level_after(permutation, levels, site, level, (steps - 1) as nat),
        )
    }
}

/// A number of steps brings every local state of every site back.
pub open spec fn returns_after(
    permutation: Seq<usize>,
    levels: Levels,
    base: usize,
    steps: nat,
) -> bool {
    &&& forall|s: usize| s < permutation.len() ==> #[trigger] site_after(permutation, s, steps) == s
    &&& forall|s: usize, d: nat|
        s < permutation.len() && d < base ==> #[trigger] level_after(
            permutation,
            levels,
            s,
            d,
            steps,
        ) == d
}

/// The least positive number of steps that brings everything back.
pub open spec fn least_return(
    permutation: Seq<usize>,
    levels: Levels,
    base: usize,
    period: usize,
) -> bool {
    &&& period > 0
    &&& returns_after(permutation, levels, base, period as nat)
    &&& forall|k: nat| 0 < k < period ==> !#[trigger] returns_after(permutation, levels, base, k)
}

/// The parts do not describe a symmetry.
pub open spec fn malformed(
    base: usize,
    permutation: Seq<usize>,
    levels: Levels,
    statistics: ExchangeStatistics,
) -> bool {
    ||| base == 0
    ||| !interop::is_permutation(permutation)
    ||| !levels_fit(levels, base, permutation.len())
    ||| statistics == ExchangeStatistics::Fermionic && (base != 2 || changes_levels(
        levels,
        base,
        permutation.len(),
    ))
}

/// A rearrangement of the sites of a lattice, with relabelled local states and the
/// phase of exchanged particles.
#[derive(Debug)]
pub struct LatticeSymmetryMap {
    states_per_site: usize,
    permutation: Vec<usize>,
    levels: Option<Vec<Vec<usize>>>,
    statistics: ExchangeStatistics,
    period: usize,
}

/// A rearrangement reaches every site.
pub proof fn lemma_reaches_all(permutation: Seq<usize>, site: usize)
    requires
        interop::is_permutation(permutation),
        site < permutation.len(),
    ensures
        permutation.contains(site),
{
    let wide = permutation.map_values(|x: usize| x as int);
    assert(wide.no_duplicates());
    wide.unique_seq_to_set();
    let all = vstd::set_lib::set_int_range(0, permutation.len() as int);
    vstd::set_lib::lemma_int_range(0, permutation.len() as int);
    assert forall|x: int| wide.to_set().contains(x) implies all.contains(x) by {
        let i = choose|i: int| 0 <= i < wide.len() && wide[i] == x;
        assert(permutation[i] == x);
    }
    assert(wide.to_set().subset_of(all));
    vstd::set_lib::lemma_subset_equality(wide.to_set(), all);
    assert(all.contains(site as int));
    assert(wide.contains(site as int));
    let i = choose|i: int| 0 <= i < wide.len() && wide[i] == site as int;
    assert(permutation[i] == site);
}

fn is_rearrangement(list: &[usize]) -> (fits: bool)
    ensures
        fits == interop::is_permutation(list@),
{
    match interop::validate_site_permutation(list) {
        Ok(_) => true,
        Err(_) => false,
    }
}

impl LatticeSymmetryMap {
    #[verifier::type_invariant]
    pub closed spec fn wf(&self) -> bool {
        let levels = levels_view(self.levels);
        &&& !malformed(self.states_per_site, self.permutation@, levels, self.statistics)
        &&& radix::place(self.states_per_site as nat, self.permutation@.len()) <= u128::MAX + 1
        &&& least_return(self.permutation@, levels, self.states_per_site, self.period)
    }

    pub closed spec fn spec_states_per_site(&self) -> usize {
        self.states_per_site
    }

    pub closed spec fn spec_permutation(&self) -> Seq<usize> {
        self.permutation@
    }

    pub closed spec fn spec_levels(&self) -> Levels {
        levels_view(self.levels)
    }

    pub closed spec fn spec_statistics(&self) -> ExchangeStatistics {
        self.statistics
    }

    pub closed spec fn spec_period(&self) -> usize {
        self.period
    }

    /// The parts describe a symmetry.
    pub open spec fn is_sound(&self) -> bool {
        !malformed(
            self.spec_states_per_site(),
            self.spec_permutation(),
            self.spec_levels(),
            self.spec_statistics(),
        )
    }

    /// The number of states of the lattice.
    pub open spec fn capacity(&self) -> nat {
        radix::place(self.spec_states_per_site() as nat, self.spec_permutation().len())
    }

    pub open spec fn digits_of(&self, state: u128) -> Seq<nat> {
        radix::digits(
            state as nat,
            self.spec_states_per_site() as nat,
            self.spec_permutation().len(),
        )
    }

    /// The state with its sites moved and relabelled.
    pub open spec fn moved(&self, state: u128) -> nat {
        radix::value(
            moved_digits(self.digits_of(state), self.spec_permutation(), self.spec_levels()),
            self.spec_states_per_site() as nat,
        )
    }

    /// An odd number of pairs of fermions changes places.
    pub open spec fn flips(&self, state: u128) -> bool {
        self.spec_statistics() == ExchangeStatistics::Fermionic && exchanges(
            self.digits_of(state),
            self.spec_permutation(),
            self.spec_permutation().len(),
        ) % 2 == 1
    }

    /// A symmetry from its parts: the number of local states, where each site moves,
    /// what the local states of each site become, and the exchange statistics.
    pub fn new(
        states_per_site: usize,
        permutation: Vec<usize>,
        local_maps: Option<Vec<Vec<usize>>>,
        statistics: ExchangeStatistics,
    ) -> (result: Result<Self>)
        ensures
            match result {
                Ok(map) => {
                    &&& map.wf()
                    &&& map.spec_states_per_site() == states_per_site
                    &&& map.spec_permutation() == permutation@
                    &&& map.spec_levels() == levels_view(local_maps)
                    &&& map.spec_statistics() == statistics
                    &&& !malformed(
                        states_per_site,
                        permutation@,
                        levels_view(local_maps),
                        statistics,
                    )
                },
                Err(QmbedError::InvalidOptions(_)) => malformed(
                    states_per_site,
                    permutation@,
                    levels_view(local_maps),
                    statistics,
                ),
                Err(QmbedError::UnsupportedBackend(_)) => {
                    &&& !malformed(
                        states_per_site,
                        permutation@,
                        levels_view(local_maps),
                        statistics,
                    )
                    &&& radix::place(states_per_site as nat, permutation@.len()) > u128::MAX + 1
                        || forall|k: nat|
                        0 < k <= usize::MAX ==> !#[trigger] returns_after(
                            permutation@,
                            levels_view(local_maps),
                            states_per_site,
                            k,
                        )
                },
                Err(_) => false,
            },
    {
        let ghost view = levels_view(local_maps);
        let sites: usize = permutation.len();
        if states_per_site == 0 {
            return Err(
                QmbedError::InvalidOptions("a site needs at least one local state".to_string()),
            );
        }
        if !is_rearrangement(permutation.as_slice()) {
            return Err(
                QmbedError::InvalidOptions("the site permutation must be a bijection".to_string()),
            );
        }
        let fermionic: bool = statistics == ExchangeStatistics::Fermionic;
        if fermionic && states_per_site != 2 {
            return Err(
                QmbedError::InvalidOptions("fermionic orbitals have two local states".to_string()),
            );
        }
        if let Some(list) = &local_maps {
            if list.len() != sites {
                return Err(
                    QmbedError::InvalidOptions("each site needs one local-state map".to_string()),
                );
            }
            let mut site: usize = 0;
            while site < sites
                invariant
                    local_maps == Some(*list),
                    view == levels_view(local_maps),
                    sites == permutation@.len(),
                    list@.len() == sites,
                    site <= sites,
                    states_per_site > 0,
                    interop::is_permutation(permutation@),
                    fermionic == (statistics == ExchangeStatistics::Fermionic),
                    fermionic ==> states_per_site == 2,
                    forall|i: int|
                        0 <= i < site ==> (#[trigger] view->Some_0[i]).len() == states_per_site
                            && interop::is_permutation(view->Some_0[i]),
                decreases sites - site,
            {
                assert(view->Some_0[site as int] == list@[site as int]@);
                if list[site].len() != states_per_site || !is_rearrangement(
                    list[site].as_slice(),
                ) {
                    return Err(
                        QmbedError::InvalidOptions(
                            "each local-state map must be a bijection".to_string(),
                        ),
                    );
                }
                site = site + 1;
            }
            if fermionic {
                site = 0;
                while site < sites
                    invariant
                        local_maps == Some(*list),
                        view == levels_view(local_maps),
                        sites == permutation@.len(),
                        list@.len() == sites,
                        site <= sites,
                        fermionic == (statistics == ExchangeStatistics::Fermionic),
                        fermionic,
                        states_per_site == 2,
                        levels_fit(view, states_per_site, sites as nat),
                        forall|i: int, d: nat|
                            0 <= i < site && d < states_per_site ==> #[trigger] relabelled(
                                view,
                                i,
                                d,
                            ) == d,
                    decreases sites - site,
                {
                    assert(view->Some_0[site as int] == list@[site as int]@);
                    assert(view->Some_0[site as int].len() == states_per_site);
                    if list[site][0] != 0 || list[site][1] != 1 {
                        proof {
                            if list@[site as int]@[0] != 0 {
                                assert(relabelled(view, site as int, 0) != 0);
                            } else {
                                assert(relabelled(view, site as int, 1) != 1);
                            }
                        }
                        return Err(
                            QmbedError::InvalidOptions(
                                "a fermionic symmetry cannot change occupations".to_string(),
                            ),
                        );
                    }
                    site = site + 1;
                }
            }
        }
        assert(!malformed(states_per_site, permutation@, view, statistics));
        if !fits_encoding(states_per_site, sites) {
            return Err(
                QmbedError::UnsupportedBackend("the lattice exceeds the encoding".to_string()),
            );
        }
        match find_period(&permutation, &local_maps, states_per_site) {
            Some(period) => Ok(
                LatticeSymmetryMap {
                    states_per_site,
                    permutation,
                    levels: local_maps,
                    statistics,
                    period,
                },
            ),
            None => Err(
                QmbedError::UnsupportedBackend("the symmetry takes too long to return".to_string()),
            ),
        }
    }

    /// A symmetry that only moves sites.
    pub fn site_permutation(states_per_site: usize, permutation: Vec<usize>) -> (result: Result<
        Self,
    >)
        ensures
            match result {
                Ok(map) => {
                    &&& map.wf()
                    &&& map.spec_states_per_site() == states_per_site
                    &&& map.spec_permutation() == permutation@
                    &&& map.spec_levels() is None
                    &&& map.spec_statistics() == ExchangeStatistics::Distinguishable
                },
                Err(QmbedError::InvalidOptions(_)) => states_per_site == 0
                    || !interop::is_permutation(permutation@),
                Err(QmbedError::UnsupportedBackend(_)) => {
                    &&& states_per_site > 0 && interop::is_permutation(permutation@)
                    &&& radix::place(states_per_site as nat, permutation@.len()) > u128::MAX + 1
                        || forall|k: nat|
                        0 < k <= usize::MAX ==> !#[trigger] returns_after(
                            permutation@,
                            None,
                            states_per_site,
                            k,
                        )
                },
                Err(_) => false,
            },
    {
        Self::new(states_per_site, permutation, None, ExchangeStatistics::Distinguishable)
    }

    /// A symmetry that moves fermions between orbitals.
    pub fn fermionic_orbital_permutation(permutation: Vec<usize>) -> (result: Result<Self>)
        ensures
            match result {
                Ok(map) => {
                    &&& map.wf()
                    &&& map.spec_states_per_site() == 2
                    &&& map.spec_permutation() == permutation@
                    &&& map.spec_levels() is None
                    &&& map.spec_statistics() == ExchangeStatistics::Fermionic
                },
                Err(QmbedError::InvalidOptions(_)) => !interop::is_permutation(permutation@),
                Err(QmbedError::UnsupportedBackend(_)) => {
                    &&& interop::is_permutation(permutation@)
                    &&& radix::place(2, permutation@.len()) > u128::MAX + 1 || forall|k: nat|
                        0 < k <= usize::MAX ==> !#[trigger] returns_after(permutation@, None, 2, k)
                },
                Err(_) => false,
            },
    {
        Self::new(2, permutation, None, ExchangeStatistics::Fermionic)
    }

    pub fn sites(&self) -> (sites: usize)
        ensures
            sites == self.spec_permutation().len(),
    {
        self.permutation.len()
    }

    pub fn states_per_site(&self) -> (states: usize)
        ensures
            states == self.spec_states_per_site(),
    {
        self.states_per_site
    }

    /// The least number of steps that brings every state back.
    pub fn period(&self) -> (period: usize)
        ensures
            period == self.spec_period(),
            least_return(
                self.spec_permutation(),
                self.spec_levels(),
                self.spec_states_per_site(),
                period,
            ),
    {
        proof {
            use_type_invariant(self);
        }
        self.period
    }

    /// Moves a state, and tells whether its sign changes.
    pub fn exchange(&self, state: u128) -> (result: Result<(u128, bool)>)
        ensures
            match result {
                Ok((image, flips)) => {
                    &&& state < self.capacity()
                    &&& image == self.moved(state)
                    &&& flips == self.flips(state)
                },
                Err(error) => error is StateNotInBasis && state >= self.capacity(),
            },
    {
        proof {
            use_type_invariant(self);
        }
        let base: u128 = self.states_per_site as u128;
        let sites: usize = self.permutation.len();
        let ghost b = self.states_per_site as nat;
        let ghost n = sites as nat;
        let ghost ds = self.digits_of(state);
        let mut digits: Vec<usize> = Vec::new();
        let mut rest: u128 = state;
        proof {
            lemma_div_basics(state as int);
        }
        while digits.len() < sites
            invariant
                base == b,
                b > 0,
                b <= usize::MAX,
                n == sites,
                ds == radix::digits(state as nat, b, n),
                digits@.len() <= sites,
                rest == state as nat / radix::place(b, digits@.len()),
                forall|i: int|
                    0 <= i < digits@.len() ==> #[trigger] digits@[i] == ds[i] && digits@[i] < b,
            decreases sites - digits@.len(),
        {
            proof {
                radix::lemma_quotient_step(state as nat, b, digits@.len());
                lemma_mod_bound(rest as int, b as int);
            }
            digits.push((rest % base) as usize);
            rest = rest / base;
        }
        proof {
            radix::lemma_place_positive(b, n);
            lemma_quotient_zero(state as nat, radix::place(b, n));
        }
        if rest != 0 {
            return Err(QmbedError::StateNotInBasis);
        }
        let mut target: Vec<usize> = Vec::new();
        while target.len() < sites
            invariant
                target@.len() <= sites,
            decreases sites - target@.len(),
        {
            target.push(0);
        }
        let ghost view = levels_view(self.levels);
        let ghost out = moved_digits(ds, self.permutation@, view);
        let mut site: usize = 0;
        while site < sites
            invariant
                view == levels_view(self.levels),
                b == self.states_per_site,
                n == sites,
                sites == self.permutation@.len(),
                interop::is_permutation(self.permutation@),
                levels_fit(view, self.states_per_site, n),
                ds.len() == n,
                digits@.len() == sites,
                target@.len() == sites,
                site <= sites,
                forall|i: int|
                    0 <= i < digits@.len() ==> #[trigger] digits@[i] == ds[i] && digits@[i] < b,
                forall|i: int|
                    0 <= i < site ==> target@[#[trigger] self.permutation@[i] as int] == relabelled(
                        view,
                        i,
                        ds[i],
                    ) && target@[self.permutation@[i] as int] < b,
            decreases sites - site,
        {
            let level: usize = digits[site];
            let to: usize = self.permutation[site];
            let next: usize = match &self.levels {
                Some(list) => {
                    proof {
                        assert(view->Some_0[site as int] == list@[site as int]@);
                        assert(view->Some_0[site as int].len() == b);
                        assert(interop::is_permutation(view->Some_0[site as int]));
                    }
                    list[site][level]
                },
                None => level,
            };
            assert(next < b);
            target.set(to, next);
            site = site + 1;
        }
        proof {
            assert forall|i: int| 0 <= i < n implies #[trigger] target@[i] == out[i] && target@[i]
                < b by {
                lemma_reaches_all(self.permutation@, i as usize);
                let from = self.permutation@.index_of(i as usize);
                assert(self.permutation@[from] == i as usize);
            }
            assert forall|i: int| 0 <= i < out.len() implies #[trigger] out[i] < b by {
                assert(target@[i] == out[i]);
            }
        }
        let mut image: u128 = 0;
        let mut at: usize = sites;
        proof {
            assert(out.subrange(n as int, n as int).len() == 0);
        }
        while at > 0
            invariant
                base == b,
                b > 0,
                n == sites,
                at <= sites,
                target@.len() == sites,
                out.len() == n,
                radix::place(b, n) <= u128::MAX + 1,
                radix::valid_digits(out, b),
                forall|i: int| 0 <= i < n ==> #[trigger] target@[i] == out[i],
                image == radix::value(out.subrange(at as int, n as int), b),
            decreases at,
        {
            at = at - 1;
            proof {
                let part = out.subrange(at as int, n as int);
                assert(part.drop_first() =~= out.subrange(at + 1, n as int));
                assert(part[0] == out[at as int]);
                radix::lemma_value_bound(part, b);
                radix::lemma_place_monotone(b, part.len(), n);
                lemma_mul_is_commutative(b as int, image as int);
                lemma_mul_nonnegative(image as int, b as int);
            }
            image = image * base + target[at] as u128;
        }
        assert(out.subrange(0, n as int) =~= out);
        let flips: bool = self.statistics == ExchangeStatistics::Fermionic && odd_exchanges(
            &digits,
            &self.permutation,
            Ghost(ds),
        );
        Ok((image, flips))
    }
}

impl LatticeSymmetryMap {
    /// The state after a number of steps.
    pub open spec fn after(&self, state: u128, steps: nat) -> nat
        decreases steps,
    {
        if steps == 0 {
            state as nat
        } else {
            self.moved(self.after(state, (steps - 1) as nat) as u128)
        }
    }
}

pub proof fn lemma_moved_digit(map: &LatticeSymmetryMap, state: u128, site: int)
    requires
        map.wf(),
        state < map.capacity(),
        0 <= site < map.spec_permutation().len(),
    ensures
        map.moved(state) < map.capacity(),
        radix::digits(
            map.moved(state),
            map.spec_states_per_site() as nat,
            map.spec_permutation().len(),
        )[map.spec_permutation()[site] as int] == relabelled(
            map.spec_levels(),
            site,
            map.digits_of(state)[site],
        ),
        relabelled(map.spec_levels(), site, map.digits_of(state)[site])
            < map.spec_states_per_site(),
{
    let p = map.spec_permutation();
    let b = map.spec_states_per_site() as nat;
    let ds = map.digits_of(state);
    let out = moved_digits(ds, p, map.spec_levels());
    assert forall|i: int| 0 <= i < p.len() implies relabelled(
        map.spec_levels(),
        i,
        #[trigger] ds[i],
    ) < b by {
        lemma_mod_bound((state as nat / radix::place(b, i as nat)) as int, b as int);
        if let Some(list) = map.spec_levels() {
            assert(list[i].len() == b && interop::is_permutation(list[i]));
        }
    }
    assert forall|i: int| 0 <= i < out.len() implies #[trigger] out[i] < b by {
        lemma_reaches_all(p, i as usize);
        let from = p.index_of(i as usize);
        assert(p[from] == i as usize);
        assert(relabelled(map.spec_levels(), from, ds[from]) < b);
    }
    radix::lemma_digits_of_value(out, b);
    radix::lemma_value_bound(out, b);
    let to = p[site];
    let from = p.index_of(to);
    assert(p.contains(to));
    assert(p[from] == to);
    assert(from == site);
    assert(ds[site] == ds[from]);
}

proof fn lemma_after(map: &LatticeSymmetryMap, state: u128, site: usize, steps: nat)
    requires
        map.wf(),
        state < map.capacity(),
        site < map.spec_permutation().len(),
    ensures
        map.after(state, steps) < map.capacity(),
        site_after(map.spec_permutation(), site, steps) < map.spec_permutation().len(),
        radix::digits(
            map.after(state, steps),
            map.spec_states_per_site() as nat,
            map.spec_permutation().len(),
        )[site_after(map.spec_permutation(), site, steps) as int] == level_after(
            map.spec_permutation(),
            map.spec_levels(),
            site,
            map.digits_of(state)[site as int],
            steps,
        ),
    decreases steps,
{
    if steps > 0 {
        let before = (steps - 1) as nat;
        lemma_after(map, state, site, before);
        let middle = map.after(state, before) as u128;
        let at = site_after(map.spec_permutation(), site, before);
        lemma_moved_digit(map, middle, at as int);
    }
}

/// After its period a symmetry has brought every state back.
pub proof fn periods_restore_states(map: &LatticeSymmetryMap, state: u128)
    requires
        map.wf(),
        state < map.capacity(),
    ensures
        map.after(state, map.spec_period() as nat) == state,
{
    let p = map.spec_permutation();
    let b = map.spec_states_per_site() as nat;
    let steps = map.spec_period() as nat;
    let end = map.after(state, steps);
    assert(map.permutation.len() == p.len());
    if p.len() == 0 {
        assert(map.capacity() == 1);
        lemma_after_empty(map, state, steps);
    } else {
        lemma_after(map, state, 0, steps);
        let ds = map.digits_of(state);
        let es = radix::digits(end, b, p.len());
        assert forall|i: int| 0 <= i < p.len() implies es[i] == ds[i] by {
            lemma_after(map, state, i as usize, steps);
            lemma_mod_bound((state as nat / radix::place(b, i as nat)) as int, b as int);
            assert(site_after(p, i as usize, steps) == i as usize);
            assert(level_after(p, map.spec_levels(), i as usize, ds[i], steps) == ds[i]);
        }
        assert(es =~= ds);
        radix::lemma_value_of_digits(state as nat, b, p.len());
        radix::lemma_value_of_digits(end, b, p.len());
    }
}

/// A lattice without sites has one state, and it stays.
proof fn lemma_after_empty(map: &LatticeSymmetryMap, state: u128, steps: nat)
    requires
        map.wf(),
        map.spec_permutation().len() == 0,
        state == 0,
    ensures
        map.after(state, steps) == 0,
    decreases steps,
{
    if steps > 0 {
        lemma_after_empty(map, state, (steps - 1) as nat);
        assert(moved_digits(
            map.digits_of(0),
            map.spec_permutation(),
            map.spec_levels(),
        ).len() == 0);
    }
}

proof fn lemma_quotient_zero(x: nat, y: nat)
    requires
        y > 0,
    ensures
        (x / y == 0) == (x < y),
{
    if x < y {
        lemma_basic_div(x as int, y as int);
    } else {
        lemma_div_non_zero(x as int, y as int);
    }
}

/// Whether an odd number of pairs of occupied sites changes order.
fn odd_exchanges(digits: &Vec<usize>, permutation: &Vec<usize>, Ghost(ds): Ghost<Seq<nat>>) -> (odd:
    bool)
    requires
        digits@.len() == permutation@.len(),
        ds.len() == digits@.len(),
        forall|i: int| 0 <= i < ds.len() ==> #[trigger] digits@[i] == ds[i],
    ensures
        odd == (exchanges(ds, permutation@, permutation@.len()) % 2 == 1),
{
    let sites: usize = permutation.len();
    let mut odd: bool = false;
    let mut site: usize = 0;
    while site < sites
        invariant
            sites == permutation@.len(),
            digits@.len() == sites,
            ds.len() == sites,
            site <= sites,
            forall|i: int| 0 <= i < ds.len() ==> #[trigger] digits@[i] == ds[i],
            odd == (exchanges(ds, permutation@, site as nat) % 2 == 1),
        decreases sites - site,
    {
        if digits[site] != 0 {
            let mut other: usize = 0;
            let ghost before = exchanges(ds, permutation@, site as nat);
            while other < site
                invariant
                    site < sites,
                    sites == permutation@.len(),
                    digits@.len() == sites,
                    ds.len() == sites,
                    other <= site,
                    forall|i: int| 0 <= i < ds.len() ==> #[trigger] digits@[i] == ds[i],
                    odd == ((before + overtaken(ds, permutation@, site as int, other as nat)) % 2
                        == 1),
                decreases site - other,
            {
                if digits[other] != 0 && permutation[other] > permutation[site] {
                    odd = !odd;
                }
                other = other + 1;
            }
        }
        site = site + 1;
    }
    odd
}

impl<V: Amplitude> SymmetryMap<u128, V> for LatticeSymmetryMap {
    open spec fn order(&self) -> usize {
        self.spec_period()
    }

    open spec fn image(&self, state: u128) -> Option<(u128, V)> {
        if state >= self.capacity() {
            None
        } else if self.flips(state) {
            Some((self.moved(state) as u128, V::minus_one_value()))
        } else {
            Some((self.moved(state) as u128, V::one_value()))
        }
    }

    open spec fn refusals(&self, state: u128) -> Set<QmbedError> {
        Set::new(|error: QmbedError| error is StateNotInBasis)
    }

    fn period(&self) -> (period: usize) {
        self.period
    }

    fn apply(&self, state: u128) -> (result: Result<(u128, V)>) {
        match self.exchange(state) {
            Ok((image, true)) => Ok((image, V::minus_one())),
            Ok((image, false)) => Ok((image, V::one())),
            Err(error) => Err(error),
        }
    }
}

/// Whether the encoded states of a lattice fit the machine encoding.
fn fits_encoding(base: usize, sites: usize) -> (fits: bool)
    requires
        base > 0,
    ensures
        fits == (radix::place(base as nat, sites as nat) <= u128::MAX + 1),
{
    let mut top: u128 = 0;
    let mut site: usize = 0;
    while site < sites
        invariant
            base > 0,
            site <= sites,
            top + 1 == radix::place(base as nat, site as nat),
        decreases sites - site,
    {
        let ghost b = base as int;
        let ghost t = top as int;
        proof {
            radix::lemma_place_monotone(base as nat, (site + 1) as nat, sites as nat);
            assert(b * (t + 1) == t * b + b) by (nonlinear_arith);
            assert(t * b >= 0) by (nonlinear_arith)
                requires
                    t >= 0,
                    b > 0,
            ;
        }
        match top.checked_mul(base as u128) {
            Some(product) => match product.checked_add(base as u128 - 1) {
                Some(next) => {
                    top = next;
                },
                None => {
                    return false;
                },
            },
            None => {
                return false;
            },
        }
        site = site + 1;
    }
    true
}

/// The least number of steps that brings every local state of every site back, as far
/// as the machine can count.
fn find_period(permutation: &Vec<usize>, levels: &Option<Vec<Vec<usize>>>, base: usize) -> (result:
    Option<usize>)
    requires
        interop::is_permutation(permutation@),
        levels_fit(levels_view(*levels), base, permutation@.len()),
    ensures
        match result {
            Some(period) => least_return(permutation@, levels_view(*levels), base, period),
            None => forall|k: nat|
                0 < k <= usize::MAX ==> !#[trigger] returns_after(
                    permutation@,
                    levels_view(*levels),
                    base,
                    k,
                ),
        },
{
    let ghost view = levels_view(*levels);
    let count: usize = permutation.len();
    let mut place: Vec<usize> = Vec::new();
    while place.len() < count
        invariant
            count == permutation@.len(),
            place@.len() <= count,
            forall|s: int| 0 <= s < place@.len() ==> #[trigger] place@[s] == s,
        decreases count - place@.len(),
    {
        let next: usize = place.len();
        place.push(next);
    }
    let mut level: Vec<Vec<usize>> = Vec::new();
    if levels.is_some() {
        while level.len() < count
            invariant
                count == permutation@.len(),
                level@.len() <= count,
                forall|s: int|
                    0 <= s < level@.len() ==> (#[trigger] level@[s])@.len() == base && forall|
                        d: int,
                    |
                        0 <= d < base ==> #[trigger] level@[s]@[d] == d,
            decreases count - level@.len(),
        {
            let mut row: Vec<usize> = Vec::new();
            while row.len() < base
                invariant
                    row@.len() <= base,
                    forall|d: int| 0 <= d < row@.len() ==> #[trigger] row@[d] == d,
                decreases base - row@.len(),
            {
                let next: usize = row.len();
                row.push(next);
            }
            level.push(row);
        }
    }
    let mut steps: usize = 0;
    while steps < usize::MAX
        invariant
            view == levels_view(*levels),
            count == permutation@.len(),
            interop::is_permutation(permutation@),
            levels_fit(view, base, permutation@.len()),
            tracks(permutation@, view, base, steps as nat, place@, level@),
            forall|k: nat|
                0 < k <= steps ==> !#[trigger] returns_after(permutation@, view, base, k),
        decreases usize::MAX - steps,
    {
        advance(permutation, levels, base, Ghost(steps as nat), &mut place, &mut level);
        steps = steps + 1;
        if all_home(permutation, levels, base, Ghost(steps as nat), &place, &level) {
            return Some(steps);
        }
    }
    None
}

/// The lists hold where sites and local states are after a number of steps.
spec fn tracks(
    permutation: Seq<usize>,
    levels: Levels,
    base: usize,
    steps: nat,
    place: Seq<usize>,
    level: Seq<Vec<usize>>,
) -> bool {
    &&& place.len() == permutation.len()
    &&& forall|s: int|
        0 <= s < place.len() ==> #[trigger] place[s] == site_after(permutation, s as usize, steps)
            && place[s] < permutation.len()
    &&& levels is Some ==> {
        &&& level.len() == permutation.len()
        &&& forall|s: int| 0 <= s < level.len() ==> (#[trigger] level[s])@.len() == base
        &&& forall|s: int, d: int|
            0 <= s < level.len() && 0 <= d < base ==> #[trigger] level[s]@[d] == level_after(
                permutation,
                levels,
                s as usize,
                d as nat,
                steps,
            ) && level[s]@[d] < base
    }
}

/// Makes one more step.
fn advance(
    permutation: &Vec<usize>,
    levels: &Option<Vec<Vec<usize>>>,
    base: usize,
    Ghost(steps): Ghost<nat>,
    place: &mut Vec<usize>,
    level: &mut Vec<Vec<usize>>,
)
    requires
        interop::is_permutation(permutation@),
        levels_fit(levels_view(*levels), base, permutation@.len()),
        tracks(permutation@, levels_view(*levels), base, steps, old(place)@, old(level)@),
    ensures
        tracks(
            permutation@,
            levels_view(*levels),
            base,
            steps + 1,
            final(place)@,
            final(level)@,
        ),
{
    let ghost view = levels_view(*levels);
    let count: usize = permutation.len();
    if let Some(list) = levels {
        let mut next: Vec<Vec<usize>> = Vec::new();
        while next.len() < count
            invariant
                count == permutation@.len(),
                *levels == Some(*list),
                view == levels_view(*levels),
                levels_fit(view, base, permutation@.len()),
                tracks(permutation@, view, base, steps, place@, level@),
                next@.len() <= count,
                forall|s: int| 0 <= s < next@.len() ==> (#[trigger] next@[s])@.len() == base,
                forall|s: int, d: int|
                    0 <= s < next@.len() && 0 <= d < base ==> #[trigger] next@[s]@[d]
                        == level_after(permutation@, view, s as usize, d as nat, steps + 1)
                        && next@[s]@[d] < base,
            decreases count - next@.len(),
        {
            let site: usize = next.len();
            let mut row: Vec<usize> = Vec::new();
            while row.len() < base
                invariant
                    site < count,
                    count == permutation@.len(),
                    *levels == Some(*list),
                    view == levels_view(*levels),
                    levels_fit(view, base, permutation@.len()),
                    tracks(permutation@, view, base, steps, place@, level@),
                    row@.len() <= base,
                    forall|d: int|
                        0 <= d < row@.len() ==> #[trigger] row@[d] == level_after(
                            permutation@,
                            view,
                            site,
                            d as nat,
                            steps + 1,
                        ) && row@[d] < base,
                decreases base - row@.len(),
            {
                let at: usize = row.len();
                proof {
                    assert(level@[site as int]@.len() == base);
                    assert(place@[site as int] < permutation@.len());
                    let p = place@[site as int] as int;
                    let d = level@[site as int]@[at as int] as int;
                    assert(d < base);
                    assert(view->Some_0[p] == list@[p]@);
                    assert(view->Some_0[p].len() == base);
                    assert(interop::is_permutation(view->Some_0[p]));
                    assert(view->Some_0[p][d] < base);
                }
                row.push(list[place[site]][level[site][at]]);
            }
            next.push(row);
        }
        *level = next;
    }
    let ghost before = place@;
    let mut site: usize = 0;
    while site < count
        invariant
            count == permutation@.len(),
            interop::is_permutation(permutation@),
            site <= count,
            place@.len() == count,
            before.len() == count,
            forall|s: int|
                0 <= s < count ==> #[trigger] before[s] == site_after(
                    permutation@,
                    s as usize,
                    steps,
                ) && before[s] < count,
            forall|s: int|
                0 <= s < site ==> #[trigger] place@[s] == site_after(
                    permutation@,
                    s as usize,
                    steps + 1,
                ) && place@[s] < count,
            forall|s: int| site <= s < count ==> #[trigger] place@[s] == before[s],
        decreases count - site,
    {
        let now: usize = place[site];
        assert(before[site as int] == now);
        let to: usize = permutation[now];
        place.set(site, to);
        site = site + 1;
    }
}

/// Whether every site and local state is back.
fn all_home(
    permutation: &Vec<usize>,
    levels: &Option<Vec<Vec<usize>>>,
    base: usize,
    Ghost(steps): Ghost<nat>,
    place: &Vec<usize>,
    level: &Vec<Vec<usize>>,
) -> (home: bool)
    requires
        tracks(permutation@, levels_view(*levels), base, steps, place@, level@),
    ensures
        home == returns_after(permutation@, levels_view(*levels), base, steps),
{
    let ghost view = levels_view(*levels);
    let mut site: usize = 0;
    while site < place.len()
        invariant
            view == levels_view(*levels),
            tracks(permutation@, view, base, steps, place@, level@),
            site <= place@.len(),
            forall|s: usize| s < site ==> #[trigger] site_after(permutation@, s, steps) == s,
            forall|s: usize, d: nat|
                s < site && d < base && view is Some ==> #[trigger] level_after(
                    permutation@,
                    view,
                    s,
                    d,
                    steps,
                ) == d,
        decreases place@.len() - site,
    {
        if place[site] != site {
            assert(site_after(permutation@, site, steps) != site);
            return false;
        }
        if levels.is_some() {
            let mut at: usize = 0;
            while at < base
                invariant
                    view == levels_view(*levels),
                    view is Some,
                    tracks(permutation@, view, base, steps, place@, level@),
                    site < place@.len(),
                    at <= base,
                    forall|d: nat|
                        d < at ==> #[trigger] level_after(permutation@, view, site, d, steps) == d,
                decreases base - at,
            {
                assert(level@[site as int]@.len() == base);
                assert(level@[site as int]@[at as int] == level_after(
                    permutation@,
                    view,
                    site,
                    at as nat,
                    steps,
                ));
                if level[site][at] != at {
                    return false;
                }
                at = at + 1;
            }
        }
        site = site + 1;
    }
    proof {
        if view is None {
            assert forall|s: usize, d: nat| s < permutation@.len() && d < base implies
                #[trigger] level_after(permutation@, view, s, d, steps) == d by {
                lemma_levels_stay(permutation@, s, d, steps);
            }
        }
    }
    true
}

proof fn lemma_levels_stay(permutation: Seq<usize>, site: usize, level: nat, steps: nat)
    ensures
        level_after(permutation, None, site, level, steps) == level,
    decreases steps,
{
    if steps > 0 {
        lemma_levels_stay(permutation, site, level, (steps - 1) as nat);
    }
}

} // verus!
