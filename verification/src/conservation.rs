//! What operator products keep: particle numbers, and the signs of exchanged fermions.

use vstd::prelude::*;
use vstd::arithmetic::div_mod::*;
use crate::boson::BosonBasis1D;
use crate::fermion::SpinlessFermionBasis1D;
use crate::fermion;
use crate::local::{Factor, LocalAlgebra, LocalFactor, ProductOutcome};
use crate::local;
use crate::notation;
use crate::radix;
use crate::spin::SpinBasis1D;
use crate::states;

verus! {

/// The change of the particle number by one symbol.
pub open spec fn charge(symbol: char) -> int {
    if symbol == '+' {
        1
    } else if symbol == '-' {
        -1
    } else {
        0
    }
}

/// Every outcome of the symbol in a place stays inside and has the particle number
/// changed by the charge of the symbol.
pub open spec fn steps_by<A: LocalAlgebra>(
    algebra: &A,
    inside: spec_fn(A::State) -> bool,
    occupation: spec_fn(A::State) -> int,
    state: A::State,
    symbol: char,
    position: nat,
    site: usize,
) -> bool {
    match algebra.moves(state, symbol, position, site) {
        Ok(list) => forall|i: int|
            0 <= i < list.len() ==> inside((#[trigger] list[i]).0) && occupation(list[i].0)
                == occupation(state) + charge(symbol),
        Err(_) => true,
    }
}

/// The fixed symbols of an algebra change a particle number by their charges.
pub open spec fn carries<A: LocalAlgebra>(
    algebra: &A,
    inside: spec_fn(A::State) -> bool,
    occupation: spec_fn(A::State) -> int,
) -> bool {
    forall|state: A::State, symbol: char, position: nat, site: usize|
        inside(state) && notation::fixed_symbol(symbol) ==> #[trigger] steps_by(
            algebra,
            inside,
            occupation,
            state,
            symbol,
            position,
            site,
        )
}

/// All outcomes stay inside and have a particle number.
spec fn all_have<S>(
    outcome: ProductOutcome<S>,
    inside: spec_fn(S) -> bool,
    occupation: spec_fn(S) -> int,
    number: int,
) -> bool {
    outcome matches Ok(list) ==> forall|i: int|
        0 <= i < list.len() ==> inside((#[trigger] list[i]).0) && occupation(list[i].0) == number
}

proof fn lemma_product<A: LocalAlgebra>(
    algebra: &A,
    inside: spec_fn(A::State) -> bool,
    occupation: spec_fn(A::State) -> int,
    state: A::State,
    factors: Seq<Factor>,
    symbols: Seq<char>,
    sites: Seq<usize>,
    remaining: nat,
)
    requires
        carries(algebra, inside, occupation),
        inside(state),
        remaining <= symbols.len(),
        forall|i: int| 0 <= i < symbols.len() ==> notation::fixed_symbol(#[trigger] symbols[i]),
    ensures
        all_have(
            local::product_action(algebra, state, factors, symbols, sites, remaining),
            inside,
            occupation,
            occupation(state) + notation::fixed_change(symbols.take(remaining as int)),
        ),
    decreases remaining, 0nat,
{
    if remaining > 0 {
        let position = (remaining - 1) as nat;
        let symbol = symbols[position as int];
        let whole = symbols.take(remaining as int);
        assert(whole.drop_last() =~= symbols.take(position as int));
        assert(whole.last() == symbol);
        assert(steps_by(
            algebra,
            inside,
            occupation,
            state,
            symbol,
            position,
            sites[position as int],
        ));
        if let Ok(moves) = algebra.moves(state, symbol, position, sites[position as int]) {
            lemma_spread(
                algebra,
                inside,
                occupation,
                moves,
                factors,
                symbols,
                sites,
                position,
                occupation(state) + charge(symbol),
            );
        }
    }
}

proof fn lemma_spread<A: LocalAlgebra>(
    algebra: &A,
    inside: spec_fn(A::State) -> bool,
    occupation: spec_fn(A::State) -> int,
    moves: Seq<(A::State, Option<LocalFactor>)>,
    factors: Seq<Factor>,
    symbols: Seq<char>,
    sites: Seq<usize>,
    remaining: nat,
    number: int,
)
    requires
        carries(algebra, inside, occupation),
        remaining <= symbols.len(),
        forall|i: int| 0 <= i < symbols.len() ==> notation::fixed_symbol(#[trigger] symbols[i]),
        forall|i: int|
            0 <= i < moves.len() ==> inside((#[trigger] moves[i]).0) && occupation(moves[i].0)
                == number,
    ensures
        all_have(
            local::spread_action(algebra, moves, factors, symbols, sites, remaining),
            inside,
            occupation,
            number + notation::fixed_change(symbols.take(remaining as int)),
        ),
    decreases remaining, moves.len() + 1,
{
    if moves.len() > 0 {
        let rest = moves.drop_first();
        assert forall|i: int| 0 <= i < rest.len() implies inside((#[trigger] rest[i]).0)
            && occupation(rest[i].0) == number by {
            assert(rest[i] == moves[i + 1]);
        }
        let path = local::extended(factors, moves[0].1);
        assert(inside(moves[0].0));
        lemma_product(
            algebra,
            inside,
            occupation,
            moves[0].0,
            path,
            symbols,
            sites,
            remaining,
        );
        lemma_spread(algebra, inside, occupation, rest, factors, symbols, sites, remaining, number);
    }
}

proof fn lemma_all_symbols_fixed(text: Seq<char>)
    requires
        notation::fixed_prefix(text) == text.len(),
    ensures
        forall|i: int| 0 <= i < text.len() ==> notation::fixed_symbol(#[trigger] text[i]),
    decreases text.len(),
{
    if text.len() > 0 {
        let front = text.drop_last();
        lemma_prefix_bound(front);
        lemma_all_symbols_fixed(front);
        assert forall|i: int| 0 <= i < text.len() implies notation::fixed_symbol(
            #[trigger] text[i],
        ) by {
            if i < front.len() {
                assert(front[i] == text[i]);
            }
        }
    }
}

proof fn lemma_prefix_bound(text: Seq<char>)
    ensures
        notation::fixed_prefix(text) <= text.len(),
    decreases text.len(),
{
    if text.len() > 0 {
        lemma_prefix_bound(text.drop_last());
    }
}

proof fn lemma_outcomes<A: LocalAlgebra>(
    algebra: &A,
    inside: spec_fn(A::State) -> bool,
    occupation: spec_fn(A::State) -> int,
    state: A::State,
    symbols: Seq<char>,
    sites: Seq<usize>,
)
    requires
        carries(algebra, inside, occupation),
        inside(state),
        notation::fixed_prefix(symbols) == symbols.len(),
    ensures
        all_have(
            local::operator_action(algebra, state, symbols, sites),
            inside,
            occupation,
            occupation(state) + notation::fixed_change(symbols),
        ),
{
    lemma_all_symbols_fixed(symbols);
    assert(symbols.take(symbols.len() as int) =~= symbols);
    if symbols.len() == sites.len() {
        lemma_product(
            algebra,
            inside,
            occupation,
            state,
            Seq::empty(),
            symbols,
            sites,
            symbols.len(),
        );
    }
}

/// Raising or lowering a digit of a lattice state stays on the lattice.
proof fn lemma_ladder(state: u128, base: nat, site: nat, sites: nat)
    requires
        base > 0,
        site < sites,
        state < radix::place(base, sites),
        radix::place(base, sites) <= u128::MAX + 1,
    ensures
        radix::digit(state as nat, base, site) < base,
        radix::digit(state as nat, base, site) + 1 < base ==> {
            &&& state + radix::place(base, site) < radix::place(base, sites)
            &&& radix::digit_sum(state as nat + radix::place(base, site), base, sites)
                == radix::digit_sum(state as nat, base, sites) + 1
        },
        radix::digit(state as nat, base, site) > 0 ==> {
            &&& radix::place(base, site) <= state
            &&& radix::digit_sum((state - radix::place(base, site)) as nat, base, sites) + 1
                == radix::digit_sum(state as nat, base, sites)
        },
{
    let s = state as nat;
    let p = radix::place(base, site);
    let whole = radix::place(base, sites);
    lemma_mod_bound((s / p) as int, base as int);
    radix::lemma_place_positive(base, sites);
    if radix::digit(s, base, site) + 1 < base {
        radix::lemma_raise_digit(s, base, site, sites);
        lemma_basic_div(s as int, whole as int);
        if s + p >= whole {
            lemma_div_non_zero((s + p) as int, whole as int);
        }
    }
    if radix::digit(s, base, site) > 0 {
        radix::lemma_lower_digit(s, base, site, sites);
    }
}

/// An operator string on spins that changes the particle number by a fixed amount leads
/// from each sector to the sector that differs by this amount.
pub proof fn spin_products_change_sectors(
    basis: &SpinBasis1D,
    state: u128,
    symbols: Seq<char>,
    sites: Seq<usize>,
    i: int,
)
    requires
        basis.wf(),
        state < radix::place(basis.base(), basis.spec_sites() as nat),
        notation::number_change(symbols) matches Ok(Some(_)),
        local::operator_action(basis, state, symbols, sites) matches Ok(list) && 0 <= i
            < list.len(),
    ensures
        local::operator_action(basis, state, symbols, sites)->Ok_0[i].0 < radix::place(
            basis.base(),
            basis.spec_sites() as nat,
        ),
        radix::digit_sum(
            local::operator_action(basis, state, symbols, sites)->Ok_0[i].0 as nat,
            basis.base(),
            basis.spec_sites() as nat,
        ) == radix::digit_sum(state as nat, basis.base(), basis.spec_sites() as nat)
            + notation::number_change(symbols)->Ok_0->Some_0,
{
    let b = basis.base();
    let n = basis.spec_sites() as nat;
    let inside = |s: u128| s < radix::place(b, n);
    let occupation = |s: u128| radix::digit_sum(s as nat, b, n) as int;
    assert(carries(basis, inside, occupation)) by {
        assert forall|s: u128, symbol: char, position: nat, site: usize|
            inside(s) && notation::fixed_symbol(symbol) implies #[trigger] steps_by(
            basis,
            inside,
            occupation,
            s,
            symbol,
            position,
            site,
        ) by {
            if site < n {
                lemma_ladder(s, b, site as nat, n);
            }
        }
    }
    lemma_outcomes(basis, inside, occupation, state, symbols, sites);
}

/// An operator string on bosons that changes the particle number by a fixed amount
/// leads from each sector to the sector that differs by this amount.
pub proof fn boson_products_change_sectors(
    basis: &BosonBasis1D,
    state: u128,
    symbols: Seq<char>,
    sites: Seq<usize>,
    i: int,
)
    requires
        basis.wf(),
        state < radix::place(basis.spec_states_per_site() as nat, basis.spec_sites() as nat),
        notation::number_change(symbols) matches Ok(Some(_)),
        local::operator_action(basis, state, symbols, sites) matches Ok(list) && 0 <= i
            < list.len(),
    ensures
        local::operator_action(basis, state, symbols, sites)->Ok_0[i].0 < radix::place(
            basis.spec_states_per_site() as nat,
            basis.spec_sites() as nat,
        ),
        radix::digit_sum(
            local::operator_action(basis, state, symbols, sites)->Ok_0[i].0 as nat,
            basis.spec_states_per_site() as nat,
            basis.spec_sites() as nat,
        ) == radix::digit_sum(
            state as nat,
            basis.spec_states_per_site() as nat,
            basis.spec_sites() as nat,
        ) + notation::number_change(symbols)->Ok_0->Some_0,
{
    let b = basis.spec_states_per_site() as nat;
    let n = basis.spec_sites() as nat;
    let inside = |s: u128| s < radix::place(b, n);
    let occupation = |s: u128| radix::digit_sum(s as nat, b, n) as int;
    assert(carries(basis, inside, occupation)) by {
        assert forall|s: u128, symbol: char, position: nat, site: usize|
            inside(s) && notation::fixed_symbol(symbol) implies #[trigger] steps_by(
            basis,
            inside,
            occupation,
            s,
            symbol,
            position,
            site,
        ) by {
            if site < n {
                lemma_ladder(s, b, site as nat, n);
            }
        }
    }
    lemma_outcomes(basis, inside, occupation, state, symbols, sites);
}

/// An operator string on fermions that changes the particle number by a fixed amount
/// leads from each sector to the sector that differs by this amount.
pub proof fn fermion_products_change_sectors(
    basis: &SpinlessFermionBasis1D,
    state: u128,
    symbols: Seq<char>,
    sites: Seq<usize>,
    i: int,
)
    requires
        basis.wf(),
        state < radix::place(2, basis.spec_sites() as nat),
        notation::number_change(symbols) matches Ok(Some(_)),
        local::operator_action(basis, state, symbols, sites) matches Ok(list) && 0 <= i
            < list.len(),
    ensures
        local::operator_action(basis, state, symbols, sites)->Ok_0[i].0 < radix::place(
            2,
            basis.spec_sites() as nat,
        ),
        radix::digit_sum(
            local::operator_action(basis, state, symbols, sites)->Ok_0[i].0 as nat,
            2,
            basis.spec_sites() as nat,
        ) == radix::digit_sum(state as nat, 2, basis.spec_sites() as nat)
            + notation::number_change(symbols)->Ok_0->Some_0,
{
    let n = basis.spec_sites() as nat;
    let inside = |s: u128| s < radix::place(2, n);
    let occupation = |s: u128| radix::digit_sum(s as nat, 2, n) as int;
    states::lemma_power_of_two(128);
    radix::lemma_place_monotone(2, n, 128);
    assert(carries(basis, inside, occupation)) by {
        assert forall|s: u128, symbol: char, position: nat, site: usize|
            inside(s) && notation::fixed_symbol(symbol) implies #[trigger] steps_by(
            basis,
            inside,
            occupation,
            s,
            symbol,
            position,
            site,
        ) by {
            if site < n {
                lemma_ladder(s, 2, site as nat, n);
            }
        }
    }
    lemma_outcomes(basis, inside, occupation, state, symbols, sites);
}

/// The state and the sign that one creation or annihilation leads to, if any.
pub open spec fn hop(state: u128, orbital: nat, symbol: char) -> Option<(u128, bool)> {
    match fermion::fermion_moves(state, orbital, symbol) {
        Ok(list) => if list.len() == 1 {
            match list[0].1 {
                Some(factor) => Some((list[0].0, factor == fermion::unit_factor(2))),
                None => Some((list[0].0, false)),
            }
        } else {
            None
        },
        Err(_) => None,
    }
}

/// The second operator, then the first.
pub open spec fn two_hops(state: u128, a: nat, f: char, b: nat, g: char) -> Option<(u128, bool)> {
    match hop(state, b, g) {
        None => None,
        Some((middle, flipped)) => match hop(middle, a, f) {
            None => None,
            Some((end, turned)) => Some((end, flipped != turned)),
        },
    }
}

/// A symbol that creates or annihilates a particle.
pub open spec fn ladder_symbol(symbol: char) -> bool {
    symbol == '+' || symbol == '-'
}

pub proof fn lemma_toggle(state: u128, a: nat, k: nat)
    requires
        a < 128,
        k < 128,
    ensures
        fermion::toggled(state as nat, a) <= u128::MAX,
        k != a ==> fermion::occupied(fermion::toggled(state as nat, a), k) == fermion::occupied(
            state as nat,
            k,
        ),
        fermion::occupied(fermion::toggled(state as nat, a), a) != fermion::occupied(
            state as nat,
            a,
        ),
        fermion::odd_below(fermion::toggled(state as nat, a), k) == (if a < k {
            !fermion::odd_below(state as nat, k)
        } else {
            fermion::odd_below(state as nat, k)
        }),
{
    let s = state as nat;
    let t = fermion::toggled(s, a);
    fermion::lemma_toggled_fits(state, a);
    let ds = radix::digits(s, 2, 128);
    let dt = radix::digits(t, 2, 128);
    if fermion::occupied(s, a) {
        radix::lemma_lower_digit(s, 2, a, 128);
        if a < k {
            radix::lemma_lower_digit(s, 2, a, k);
        }
    } else {
        radix::lemma_raise_digit(s, 2, a, 128);
        if a < k {
            radix::lemma_raise_digit(s, 2, a, k);
        }
    }
    assert(dt[k as int] == radix::digit(t, 2, k));
    assert(ds[k as int] == radix::digit(s, 2, k));
    assert(dt[a as int] == radix::digit(t, 2, a));
    if k <= a {
        assert forall|j: int| 0 <= j < k implies radix::digits(t, 2, k)[j] == radix::digits(
            s,
            2,
            k,
        )[j] by {
            assert(dt[j] == ds[j]);
        }
        assert(radix::digits(t, 2, k) =~= radix::digits(s, 2, k));
    }
}

/// Creations and annihilations on different orbitals anticommute: in either order they
/// lead to the same state, with opposite signs, or both to nothing.
pub proof fn fermions_anticommute(state: u128, a: nat, f: char, b: nat, g: char)
    requires
        a < 128,
        b < 128,
        a != b,
        ladder_symbol(f),
        ladder_symbol(g),
    ensures
        match two_hops(state, a, f, b, g) {
            None => two_hops(state, b, g, a, f) is None,
            Some((end, negative)) => two_hops(state, b, g, a, f) == Some((end, !negative)),
        },
{
    lemma_toggle(state, a, b);
    lemma_toggle(state, b, a);
    let over_a = fermion::toggled(state as nat, a) as u128;
    let over_b = fermion::toggled(state as nat, b) as u128;
    fermion::lemma_toggled_fits(over_a, b);
    fermion::lemma_toggled_fits(over_b, a);
    fermion::lemma_toggled_fits(state, a);
    fermion::lemma_toggled_fits(state, b);
    assert(fermion::toggled(over_a as nat, b) == fermion::toggled(over_b as nat, a));
}

/// An orbital holds one particle: creating two of them leads to nothing, and so does
/// annihilating two. Annihilating a particle and creating it again gives the state back.
pub proof fn orbitals_hold_one_particle(state: u128, a: nat)
    requires
        a < 128,
    ensures
        two_hops(state, a, '+', a, '+') is None,
        two_hops(state, a, '-', a, '-') is None,
        two_hops(state, a, '+', a, '-') == (if fermion::occupied(state as nat, a) {
            Some((state, false))
        } else {
            None
        }),
        two_hops(state, a, '-', a, '+') == (if fermion::occupied(state as nat, a) {
            None
        } else {
            Some((state, false))
        }),
{
    lemma_toggle(state, a, a);
    fermion::lemma_toggled_fits(state, a);
    let over = fermion::toggled(state as nat, a) as u128;
    fermion::lemma_toggled_fits(over, a);
}

} // verus!
