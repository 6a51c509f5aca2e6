//! Conversions between encoded states and arrays of local occupations.

use vstd::prelude::*;
use vstd::arithmetic::div_mod::*;
use vstd::arithmetic::mul::*;
use crate::error::{QmbedError, Result};
use crate::radix;
use crate::states;
pub use crate::measurement::{
    distinct_names, energy_window_indices, expectation, matrix_element, partial_trace,
    partial_trace_density, project_operator,
};
pub use crate::observables::{observables_vs_time, quantum_fluctuation, Observable};
pub use crate::subsystem::{partial_trace_density_subsystem, partial_trace_subsystem};

verus! {

/// An array of occupations as digits.
pub open spec fn occupation_digits(row: Seq<usize>) -> Seq<nat> {
    Seq::new(row.len(), |i: int| row[i] as nat)
}

/// An array of bits as digits, the first bit being the most significant.
pub open spec fn bit_digits(row: Seq<u8>) -> Seq<nat> {
    Seq::new(row.len(), |i: int| row[row.len() - 1 - i] as nat)
}

/// The row holds the occupations of the sites in the state, site zero first.
pub open spec fn has_occupations(state: u128, row: Seq<usize>, sites: nat, base: nat) -> bool {
    state < radix::place(base, sites) && occupation_digits(row) == radix::digits(
        state as nat,
        base,
        sites,
    )
}

/// The row holds the bits of the state, most significant first.
pub open spec fn has_bits(state: u128, row: Seq<u8>, sites: nat) -> bool {
    state < radix::place(2, sites) && bit_digits(row) == radix::digits(state as nat, 2, sites)
}

/// The state is the one that a row of occupations encodes.
pub open spec fn encodes_occupations(state: u128, row: Seq<usize>, base: nat) -> bool {
    state == radix::value(occupation_digits(row), base)
}

/// The state is the one that a row of bits encodes.
pub open spec fn encodes_bits(state: u128, row: Seq<u8>) -> bool {
    state == radix::value(bit_digits(row), 2)
}

/// The digits of one state, if there are not more than `sites`.
fn state_digits(state: u128, sites: usize, base: u128) -> (result: Option<Vec<usize>>)
    requires
        2 <= base <= usize::MAX,
    ensures
        match result {
            Some(row) => state < radix::place(base as nat, sites as nat) && occupation_digits(row@)
                == radix::digits(state as nat, base as nat, sites as nat),
            None => state >= radix::place(base as nat, sites as nat),
        },
{
    let ghost s = state as nat;
    let ghost b = base as nat;
    let mut row: Vec<usize> = Vec::new();
    let mut value: u128 = state;
    let mut site: usize = 0;
    proof {
        lemma_div_basics(s as int);
        assert(occupation_digits(row@) =~= radix::digits(s, b, 0));
    }
    while site < sites
        invariant
            2 <= base <= usize::MAX,
            b == base as nat,
            s == state as nat,
            site <= sites,
            value == s / radix::place(b, site as nat),
            occupation_digits(row@) == radix::digits(s, b, site as nat),
        decreases sites - site,
    {
        proof {
            radix::lemma_quotient_step(s, b, site as nat);
            lemma_mod_bound(value as int, base as int);
        }
        let ghost before = row@;
        row.push((value % base) as usize);
        proof {
            assert(occupation_digits(row@) =~= occupation_digits(before).push(
                (value % base) as nat,
            ));
            assert(radix::digits(s, b, (site + 1) as nat) =~= radix::digits(
                s,
                b,
                site as nat,
            ).push((value % base) as nat));
        }
        value = value / base;
        site = site + 1;
    }
    proof {
        radix::lemma_place_positive(b, sites as nat);
        if s < radix::place(b, sites as nat) {
            lemma_basic_div(s as int, radix::place(b, sites as nat) as int);
        } else {
            lemma_div_non_zero(s as int, radix::place(b, sites as nat) as int);
        }
    }
    if value != 0 {
        return None;
    }
    Some(row)
}

/// The local occupations of each state, site zero first.
pub fn states_to_array(states: &[u128], sites: usize, local_dimension: usize) -> (result: Result<
    Vec<Vec<usize>>,
>)
    ensures
        match result {
            Ok(rows) => {
                &&& local_dimension >= 2
                &&& rows.len() == states@.len()
                &&& forall|k: int|
                    #![trigger rows[k]]
                    #![trigger states@[k]]
                    0 <= k < rows.len() ==> has_occupations(
                        states@[k],
                        rows[k]@,
                        sites as nat,
                        local_dimension as nat,
                    )
            },
            Err(QmbedError::InvalidSector(_)) => local_dimension < 2,
            Err(QmbedError::StateNotInBasis) => local_dimension >= 2 && exists|k: int|
                0 <= k < states@.len() && #[trigger] states@[k] >= radix::place(
                    local_dimension as nat,
                    sites as nat,
                ),
            Err(_) => false,
        },
{
    if local_dimension < 2 {
        return Err(QmbedError::InvalidSector("local dimension must be at least two".to_string()));
    }
    let base: u128 = local_dimension as u128;
    let mut rows: Vec<Vec<usize>> = Vec::new();
    while rows.len() < states.len()
        invariant
            base == local_dimension,
            local_dimension >= 2,
            rows.len() <= states@.len(),
            forall|k: int|
                #![trigger rows[k]]
                #![trigger states@[k]]
                0 <= k < rows.len() ==> has_occupations(
                        states@[k],
                        rows[k]@,
                        sites as nat,
                        local_dimension as nat,
                    ),
        decreases states@.len() - rows.len(),
    {
        let state: u128 = states[rows.len()];
        match state_digits(state, sites, base) {
            Some(row) => {
                rows.push(row);
            },
            None => {
                assert(states@[rows.len() as int] == state);
                return Err(QmbedError::StateNotInBasis);
            },
        }
    }
    Ok(rows)
}

/// The row has the common length and holds only digits of the base.
pub open spec fn proper_row(row: Seq<usize>, sites: nat, base: nat) -> bool {
    row.len() == sites && radix::valid_digits(occupation_digits(row), base)
}

/// The length of the first row.
pub open spec fn first_length<T>(arrays: Seq<Vec<T>>) -> nat {
    if arrays.len() == 0 {
        0
    } else {
        arrays[0]@.len()
    }
}

fn is_proper_row(row: &Vec<usize>, sites: usize, base: usize) -> (proper: bool)
    ensures
        proper == proper_row(row@, sites as nat, base as nat),
{
    if row.len() != sites {
        return false;
    }
    let ghost ds = occupation_digits(row@);
    let mut site: usize = 0;
    while site < row.len()
        invariant
            site <= row.len(),
            ds == occupation_digits(row@),
            forall|i: int| 0 <= i < site ==> #[trigger] ds[i] < base,
        decreases row.len() - site,
    {
        assert(ds[site as int] == row[site as int]);
        if row[site] >= base {
            return false;
        }
        site = site + 1;
    }
    true
}

/// The number encoded by a proper row, if `base^sites` is a machine integer.
fn encode_row(row: &Vec<usize>, base: usize) -> (result: Option<u128>)
    requires
        base >= 2,
        proper_row(row@, row@.len(), base as nat),
    ensures
        match result {
            Some(state) => radix::place(base as nat, row@.len()) <= u128::MAX && state
                == radix::value(occupation_digits(row@), base as nat),
            None => radix::place(base as nat, row@.len()) > u128::MAX,
        },
{
    let ghost ds = occupation_digits(row@);
    let ghost b = base as nat;
    let mut state: u128 = 0;
    let mut place: u128 = 1;
    let mut site: usize = 0;
    assert(ds.subrange(0, 0) =~= Seq::<nat>::empty());
    while site < row.len()
        invariant
            base >= 2,
            b == base as nat,
            site <= row.len(),
            ds == occupation_digits(row@),
            radix::valid_digits(ds, b),
            place == radix::place(b, site as nat),
            state == radix::value(ds.subrange(0, site as int), b),
            state < place,
        decreases row.len() - site,
    {
        let digit: u128 = row[site] as u128;
        proof {
            assert(ds[site as int] == digit);
            let low = ds.subrange(0, site as int);
            assert(ds.subrange(0, site + 1) =~= low + seq![digit as nat]);
            radix::lemma_value_concat(low, seq![digit as nat], b);
            lemma_one_digit(digit as nat, b);
            assert(radix::place(b, (site + 1) as nat) == b * place);
            radix::lemma_place_monotone(b, (site + 1) as nat, row@.len());
            assert(place * digit + place <= b * place) by (nonlinear_arith)
                requires
                    digit + 1 <= b,
                    0 <= place,
            ;
            assert(0 <= place * digit) by (nonlinear_arith);
        }
        let next: u128 = match (base as u128).checked_mul(place) {
            Some(next) => next,
            None => {
                return None;
            },
        };
        state = state + place * digit;
        place = next;
        site = site + 1;
    }
    assert(ds.subrange(0, site as int) =~= ds);
    Some(state)
}

proof fn lemma_one_digit(d: nat, b: nat)
    ensures
        radix::value(seq![d], b) == d,
{
    assert(seq![d].drop_first() =~= Seq::<nat>::empty());
    assert(radix::value(seq![d].drop_first(), b) == 0);
    lemma_mul_basics(b as int);
}

/// The states encoded by rows of occupations, site zero first.
pub fn array_to_states(arrays: &[Vec<usize>], local_dimension: usize) -> (result: Result<
    Vec<u128>,
>)
    ensures
        ({
            let n = first_length(arrays@);
            let b = local_dimension as nat;
            let fits = radix::place(b, n) <= u128::MAX;
            match result {
                Ok(list) => {
                    &&& local_dimension >= 2
                    &&& list.len() == arrays@.len()
                    &&& arrays@.len() > 0 ==> fits
                    &&& forall|k: int|
                        #![trigger list[k]]
                        #![trigger arrays@[k]]
                        0 <= k < list.len() ==> proper_row(arrays@[k]@, n, b)
                            && encodes_occupations(
                            list[k],
                            arrays@[k]@,
                            b,
                        )
                },
                Err(QmbedError::InvalidSector(_)) => local_dimension < 2 || (if fits {
                    exists|k: int|
                        0 <= k < arrays@.len() && !proper_row((#[trigger] arrays@[k])@, n, b)
                } else {
                    arrays@.len() > 0 && !proper_row(arrays@[0]@, n, b)
                }),
                Err(QmbedError::UnsupportedBackend(_)) => local_dimension >= 2 && !fits
                    && arrays@.len() > 0 && proper_row(arrays@[0]@, n, b),
                Err(_) => false,
            }
        }),
{
    if local_dimension < 2 {
        return Err(QmbedError::InvalidSector("local dimension must be at least two".to_string()));
    }
    let sites: usize = if arrays.len() == 0 {
        0
    } else {
        arrays[0].len()
    };
    let ghost n = first_length(arrays@);
    let ghost b = local_dimension as nat;
    let mut list: Vec<u128> = Vec::new();
    while list.len() < arrays.len()
        invariant
            local_dimension >= 2,
            sites == n,
            n == first_length(arrays@),
            b == local_dimension as nat,
            list.len() <= arrays@.len(),
            list.len() > 0 ==> radix::place(b, n) <= u128::MAX,
            forall|k: int|
                #![trigger list[k]]
                #![trigger arrays@[k]]
                0 <= k < list.len() ==> proper_row(arrays@[k]@, n, b) && encodes_occupations(
                            list[k],
                            arrays@[k]@,
                            b,
                        ),
        decreases arrays@.len() - list.len(),
    {
        let index: usize = list.len();
        if !is_proper_row(&arrays[index], sites, local_dimension) {
            assert(!proper_row(arrays@[index as int]@, n, b));
            return Err(
                QmbedError::InvalidSector(
                    "occupation arrays must have equal length and valid digits".to_string(),
                ),
            );
        }
        match encode_row(&arrays[index], local_dimension) {
            Some(state) => {
                list.push(state);
            },
            None => {
                return Err(QmbedError::UnsupportedBackend("state encoding overflow".to_string()));
            },
        }
    }
    Ok(list)
}

/// The bits of one state, most significant first.
fn state_bits(state: u128, sites: usize) -> (row: Vec<u8>)
    requires
        sites <= 128,
    ensures
        row@.len() == sites,
        bit_digits(row@) == radix::digits(state as nat, 2, sites as nat),
{
    let ghost s = state as nat;
    let mut row: Vec<u8> = Vec::new();
    while row.len() < sites
        invariant
            sites <= 128,
            row.len() <= sites,
            s == state as nat,
            forall|c: int|
                0 <= c < row.len() ==> #[trigger] row[c] == radix::digit(
                    s,
                    2,
                    (sites - 1 - c) as nat,
                ),
        decreases sites - row.len(),
    {
        let position: usize = sites - row.len() - 1;
        let place: u128 = 1u128 << (position as u32);
        proof {
            states::lemma_power_of_two(position);
            radix::lemma_place_positive(2, position as nat);
        }
        row.push(((state / place) % 2) as u8);
    }
    assert(bit_digits(row@) =~= radix::digits(s, 2, sites as nat));
    row
}

/// The bits of each state, most significant first.
pub fn ints_to_array(states: &[u128], sites: usize) -> (result: Result<Vec<Vec<u8>>>)
    ensures
        match result {
            Ok(rows) => {
                &&& sites <= 128
                &&& rows.len() == states@.len()
                &&& forall|k: int|
                    #![trigger rows[k]]
                    #![trigger states@[k]]
                    0 <= k < rows.len() ==> has_bits(
                        states@[k],
                        rows[k]@,
                        sites as nat,
                    )
            },
            Err(QmbedError::UnsupportedBackend(_)) => sites > 128,
            Err(QmbedError::StateNotInBasis) => sites <= 128 && exists|k: int|
                0 <= k < states@.len() && #[trigger] states@[k] >= radix::place(2, sites as nat),
            Err(_) => false,
        },
{
    if sites > 128 {
        return Err(
            QmbedError::UnsupportedBackend(
                "u128 binary conversion supports at most 128 sites".to_string(),
            ),
        );
    }
    proof {
        crate::states::lemma_power_of_two(sites);
    }
    let mut rows: Vec<Vec<u8>> = Vec::new();
    while rows.len() < states.len()
        invariant
            sites <= 128,
            sites < 128 ==> (1u128 << (sites as u32)) == radix::place(2, sites as nat),
            sites == 128 ==> radix::place(2, sites as nat) == u128::MAX + 1,
            rows.len() <= states@.len(),
            forall|k: int|
                #![trigger rows[k]]
                #![trigger states@[k]]
                0 <= k < rows.len() ==> has_bits(
                        states@[k],
                        rows[k]@,
                        sites as nat,
                    ),
        decreases states@.len() - rows.len(),
    {
        let state: u128 = states[rows.len()];
        if sites < 128 && state >= (1u128 << (sites as u32)) {
            assert(states@[rows.len() as int] == state);
            return Err(QmbedError::StateNotInBasis);
        }
        rows.push(state_bits(state, sites));
    }
    Ok(rows)
}

/// The row has the common length and holds only bits.
pub open spec fn proper_bits(row: Seq<u8>, sites: nat) -> bool {
    row.len() == sites && forall|i: int| 0 <= i < row.len() ==> #[trigger] row[i] <= 1
}

/// The number encoded by a row of bits, most significant first.
fn encode_bits(row: &Vec<u8>, sites: usize) -> (result: Option<u128>)
    requires
        sites <= 128,
    ensures
        match result {
            Some(state) => proper_bits(row@, sites as nat) && state == radix::value(
                bit_digits(row@),
                2,
            ),
            None => !proper_bits(row@, sites as nat),
        },
{
    if row.len() != sites {
        return None;
    }
    let mut state: u128 = 0;
    let mut column: usize = 0;
    let ghost none = bit_digits(row@.subrange(0, 0));
    assert(none =~= Seq::<nat>::empty());
    while column < row.len()
        invariant
            row.len() == sites,
            sites <= 128,
            column <= row.len(),
            forall|i: int| 0 <= i < column ==> #[trigger] row[i] <= 1,
            state == radix::value(bit_digits(row@.subrange(0, column as int)), 2),
        decreases row.len() - column,
    {
        let bit: u8 = row[column];
        if bit > 1 {
            return None;
        }
        proof {
            let before = bit_digits(row@.subrange(0, column as int));
            let after = bit_digits(row@.subrange(0, column + 1));
            assert(after =~= seq![bit as nat] + before);
            radix::lemma_value_concat(seq![bit as nat], before, 2);
            lemma_one_digit(bit as nat, 2);
            assert(radix::place(2, 1) == 2) by {
                assert(radix::place(2, 0) == 1);
            }
            assert(radix::valid_digits(after, 2)) by {
                assert forall|i: int| 0 <= i < after.len() implies #[trigger] after[i] < 2 by {
                    assert(after[i] == row[column - i] as nat);
                    if column - i < column {
                        assert(row[column - i] <= 1);
                    }
                }
            }
            radix::lemma_value_bound(after, 2);
            states::lemma_power_of_two(128);
            radix::lemma_place_monotone(2, (column + 1) as nat, 128);
        }
        state = bit as u128 + 2 * state;
        column = column + 1;
    }
    assert(row@.subrange(0, column as int) =~= row@);
    Some(state)
}

/// The states encoded by rows of bits, most significant first.
pub fn array_to_ints(arrays: &[Vec<u8>]) -> (result: Result<Vec<u128>>)
    ensures
        ({
            let n = first_length(arrays@);
            match result {
                Ok(list) => {
                    &&& n <= 128
                    &&& list.len() == arrays@.len()
                    &&& forall|k: int|
                        #![trigger list[k]]
                        #![trigger arrays@[k]]
                        0 <= k < list.len() ==> proper_bits(arrays@[k]@, n) && encodes_bits(
                            list[k],
                            arrays@[k]@,
                        )
                },
                Err(QmbedError::UnsupportedBackend(_)) => n > 128,
                Err(QmbedError::InvalidSector(_)) => n <= 128 && exists|k: int|
                    0 <= k < arrays@.len() && !proper_bits((#[trigger] arrays@[k])@, n),
                Err(_) => false,
            }
        }),
{
    let sites: usize = if arrays.len() == 0 {
        0
    } else {
        arrays[0].len()
    };
    if sites > 128 {
        return Err(
            QmbedError::UnsupportedBackend(
                "u128 binary conversion supports at most 128 sites".to_string(),
            ),
        );
    }
    let mut list: Vec<u128> = Vec::new();
    while list.len() < arrays.len()
        invariant
            sites == first_length(arrays@),
            sites <= 128,
            list.len() <= arrays@.len(),
            forall|k: int|
                #![trigger list[k]]
                #![trigger arrays@[k]]
                0 <= k < list.len() ==> proper_bits(arrays@[k]@, sites as nat) && encodes_bits(
                            list[k],
                            arrays@[k]@,
                        ),
        decreases arrays@.len() - list.len(),
    {
        let index: usize = list.len();
        match encode_bits(&arrays[index], sites) {
            Some(state) => {
                list.push(state);
            },
            None => {
                assert(!proper_bits(arrays@[index as int]@, sites as nat));
                return Err(
                    QmbedError::InvalidSector(
                        "binary state rows must have equal lengths and contain only zero or one".to_string(),
                    ),
                );
            },
        }
    }
    Ok(list)
}

/// The occupations of a state encode to that state.
pub proof fn occupations_round_trip(state: u128, row: Seq<usize>, sites: nat, base: nat)
    requires
        base >= 2,
        has_occupations(state, row, sites, base),
    ensures
        proper_row(row, sites, base),
        encodes_occupations(state, row, base),
{
    assert(occupation_digits(row).len() == sites);
    radix::lemma_digits_valid(state as nat, base, sites);
    radix::lemma_value_of_digits(state as nat, base, sites);
}

/// The encoded state of a proper row has the row as its occupations.
pub proof fn encoding_round_trip(row: Seq<usize>, sites: nat, base: nat)
    requires
        base >= 2,
        proper_row(row, sites, base),
    ensures
        radix::value(occupation_digits(row), base) < radix::place(base, sites),
        radix::digits(radix::value(occupation_digits(row), base), base, sites)
            == occupation_digits(row),
{
    radix::lemma_value_bound(occupation_digits(row), base);
    radix::lemma_digits_of_value(occupation_digits(row), base);
}

/// The bits of a state encode to that state.
pub proof fn bits_round_trip(state: u128, row: Seq<u8>, sites: nat)
    requires
        has_bits(state, row, sites),
    ensures
        proper_bits(row, sites),
        encodes_bits(state, row),
{
    let ds = bit_digits(row);
    assert(ds.len() == sites);
    radix::lemma_digits_valid(state as nat, 2, sites);
    radix::lemma_value_of_digits(state as nat, 2, sites);
    assert forall|i: int| 0 <= i < row.len() implies #[trigger] row[i] <= 1 by {
        assert(ds[row.len() - 1 - i] == row[i] as nat);
    }
}

/// The encoded state of a row of bits has the row as its bits.
pub proof fn bit_encoding_round_trip(row: Seq<u8>, sites: nat)
    requires
        proper_bits(row, sites),
    ensures
        radix::value(bit_digits(row), 2) < radix::place(2, sites),
        radix::digits(radix::value(bit_digits(row), 2), 2, sites) == bit_digits(row),
{
    let ds = bit_digits(row);
    assert forall|i: int| 0 <= i < ds.len() implies #[trigger] ds[i] < 2 by {
        assert(row[row.len() - 1 - i] <= 1);
    }
    radix::lemma_value_bound(ds, 2);
    radix::lemma_digits_of_value(ds, 2);
}

} // verus!
