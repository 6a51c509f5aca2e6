//! Matter coupled to one photon mode.

use vstd::prelude::*;
use crate::basis::{Basis, Landing};
use crate::basis;
use crate::boson::BosonBasis1D;
use crate::error::{QmbedError, Result};
use crate::local::{Factor, Fault, ProductOutcome, Reduction, Transition};
use crate::local;
use crate::tensor::{TensorBasis, TensorState};
use crate::tensor;

verus! {

/// Products of matter states and photon numbers, all of them or those with a fixed
/// total number of excitations.
#[derive(Debug)]
pub struct PhotonBasis<Matter: Basis> {
    product: TensorBasis<Matter, BosonBasis1D>,
    rows: Vec<usize>,
    places: Vec<Option<usize>>,
    total: Option<usize>,
}

/// The pair in a row of the product has the wanted number of excitations.
pub open spec fn wanted<S>(
    pair: TensorState<S, u128>,
    excitations: usize,
    total: Option<usize>,
) -> bool {
    match total {
        None => true,
        Some(count) => excitations + pair.right == count,
    }
}

/// The rows of a product are exactly those with the wanted number of excitations, in
/// ascending order.
pub open spec fn selects<Matter: Basis>(
    product: &TensorBasis<Matter, BosonBasis1D>,
    excitations: Seq<usize>,
    total: Option<usize>,
    upto: int,
    rows: Seq<usize>,
) -> bool {
    let columns = product.spec_right().listed().len() as int;
    &&& forall|i: int, j: int| 0 <= i < j < rows.len() ==> #[trigger] rows[i] < #[trigger] rows[j]
    &&& forall|i: int|
        0 <= i < rows.len() ==> {
            let row = #[trigger] rows[i] as int;
            row < upto && wanted(product.listed()[row], excitations[row / columns], total)
        }
    &&& forall|row: int|
        0 <= row < upto && wanted(
            #[trigger] product.listed()[row],
            excitations[row / columns],
            total,
        ) ==> rows.contains(row as usize)
}

/// The pairs in given rows of a product.
pub open spec fn chosen_states<Matter: Basis>(
    product: &TensorBasis<Matter, BosonBasis1D>,
    rows: Seq<usize>,
) -> Seq<TensorState<Matter::State, u128>> {
    Seq::new(rows.len(), |i: int| product.listed()[rows[i] as int])
}

/// The table holds the last place of a state in a list, nothing where it is not listed.
pub open spec fn noted<Matter: Basis>(
    product: &TensorBasis<Matter, BosonBasis1D>,
    list: Seq<TensorState<Matter::State, u128>>,
    places: Seq<Option<usize>>,
    state: TensorState<Matter::State, u128>,
) -> bool {
    match places[product.seat(state)] {
        Some(place) => place == basis::last_place(list, state),
        None => basis::last_place(list, state) == -1,
    }
}

/// Notes the last place in which each pair is listed.
fn note_places<Matter: Basis>(
    product: &TensorBasis<Matter, BosonBasis1D>,
    rows: &Vec<usize>,
) -> (places: Vec<Option<usize>>)
    requires
        product.wf(),
        forall|i: int| 0 <= i < rows@.len() ==> (#[trigger] rows@[i]) < product.listed().len(),
    ensures
        places@.len() == product.listed().len(),
        forall|state: TensorState<Matter::State, u128>|
            product.listed().contains(state) ==> #[trigger] noted(
                product,
                chosen_states(product, rows@),
                places@,
                state,
            ),
{
    let total: usize = product.len();
    let mut places: Vec<Option<usize>> = Vec::new();
    while places.len() < total
        invariant
            places@.len() <= total,
            forall|i: int| 0 <= i < places@.len() ==> #[trigger] places@[i] is None,
        decreases total - places@.len(),
    {
        places.push(None);
    }
    let ghost list = chosen_states(product, rows@);
    let mut index: usize = 0;
    proof {
        assert forall|state: TensorState<Matter::State, u128>|
            product.listed().contains(state) implies #[trigger] noted(
            product,
            list.take(0),
            places@,
            state,
        ) by {
            product.lemma_seat(state);
        }
    }
    while index < rows.len()
        invariant
            product.wf(),
            total == product.listed().len(),
            list == chosen_states(product, rows@),
            forall|i: int| 0 <= i < rows@.len() ==> (#[trigger] rows@[i]) < total,
            index <= rows@.len(),
            places@.len() == total,
            forall|state: TensorState<Matter::State, u128>|
                product.listed().contains(state) ==> #[trigger] noted(
                    product,
                    list.take(index as int),
                    places@,
                    state,
                ),
        decreases rows@.len() - index,
    {
        assert(rows@[index as int] < total);
        let ghost before = places@;
        if let Ok(pair) = product.state(rows[index]) {
            assert(product.listed().contains(pair));
            if let Ok(row) = product.index(pair) {
                places.set(row, Some(index));
                proof {
                    let shorter = list.take(index as int);
                    let longer = list.take(index + 1);
                    assert(longer.drop_last() =~= shorter);
                    assert(longer.last() == pair);
                    assert forall|state: TensorState<Matter::State, u128>|
                        product.listed().contains(state) implies #[trigger] noted(
                        product,
                        longer,
                        places@,
                        state,
                    ) by {
                        assert(noted(product, shorter, before, state));
                        product.lemma_seat(state);
                        product.lemma_seat(pair);
                    }
                }
            }
        }
        index = index + 1;
    }
    assert(list.take(index as int) =~= list);
    places
}

/// All rows in turn.
pub open spec fn every_row(count: nat) -> Seq<usize> {
    Seq::new(count, |i: int| i as usize)
}

impl<Matter: Basis> PhotonBasis<Matter> {
    pub closed spec fn pairs(&self) -> TensorBasis<Matter, BosonBasis1D> {
        self.product
    }

    pub closed spec fn selected(&self) -> Seq<usize> {
        self.rows@
    }

    pub closed spec fn count(&self) -> Option<usize> {
        self.total
    }

    pub open spec fn wf(&self) -> bool {
        &&& self.pairs().wf()
        &&& forall|i: int, j: int|
            0 <= i < j < self.selected().len() ==> #[trigger] self.selected()[i]
                < #[trigger] self.selected()[j]
        &&& forall|i: int|
            0 <= i < self.selected().len() ==> (#[trigger] self.selected()[i])
                < self.pairs().listed().len()
        &&& self.indexed()
    }

    /// Every pair knows the last place in which it is listed.
    pub closed spec fn indexed(&self) -> bool {
        &&& self.places@.len() == self.product.listed().len()
        &&& forall|state: TensorState<Matter::State, u128>|
            self.product.listed().contains(state) ==> #[trigger] noted(
                &self.product,
                chosen_states(&self.product, self.rows@),
                self.places@,
                state,
            )
    }

    /// All pairs of matter states and photon numbers.
    pub fn new(matter: Matter, photon: BosonBasis1D) -> (result: Result<Self>)
        requires
            matter.well_formed(),
            photon.well_formed(),
        ensures
            match result {
                Ok(basis) => {
                    &&& photon.spec_sites() == 1
                    &&& basis.wf()
                    &&& basis.count() is None
                    &&& basis.pairs().spec_left() == matter
                    &&& basis.pairs().spec_right() == photon
                    &&& basis.selected() == every_row(basis.pairs().listed().len())
                    &&& basis.selected().len() > 0
                },
                Err(QmbedError::UnsupportedBackend(_)) => photon.spec_sites() == 1
                    && matter.listed().len() * photon.listed().len() > usize::MAX,
                Err(QmbedError::InvalidSector(_)) => photon.spec_sites() != 1
                    || matter.listed().len() * photon.listed().len() == 0,
                Err(_) => false,
            },
    {
        let mut excitations: Vec<usize> = Vec::new();
        let total: usize = matter.len();
        while excitations.len() < total
            invariant
                excitations@.len() <= total,
            decreases total - excitations@.len(),
        {
            excitations.push(0);
        }
        let result: Result<Self> = Self::with_excitations(matter, photon, None, excitations);
        proof {
            if let Ok(basis) = &result {
                let rows = basis.selected();
                let n = basis.pairs().listed().len();
                lemma_all_rows(rows, n as int);
                assert forall|i: int| 0 <= i < n implies #[trigger] rows.contains(i as usize) by {
                    assert(wanted(
                        basis.pairs().listed()[i],
                        excitations@[i / (photon.listed().len() as int)],
                        None,
                    ));
                }
                lemma_full_rows(rows, n as int);
                assert(rows =~= every_row(n));
            } else if photon.spec_sites() == 1 {
                let pairs = tensor::all_pairs(matter.listed(), photon.listed());
                if pairs.len() > 0 {
                    assert(wanted(
                        pairs[0],
                        excitations@[0int / (photon.listed().len() as int)],
                        None,
                    ));
                }
            }
        }
        result
    }

    /// The pairs with a fixed total number of excitations; the function counts those of
    /// a matter state.
    pub fn fixed_total_excitations<F: Fn(Matter::State) -> usize>(
        matter: Matter,
        photon: BosonBasis1D,
        total: usize,
        matter_excitations: F,
    ) -> (result: Result<Self>)
        requires
            matter.well_formed(),
            photon.well_formed(),
            forall|i: int|
                0 <= i < matter.listed().len() ==> matter_excitations.requires(
                    (#[trigger] matter.listed()[i],),
                ),
        ensures
            exists|excitations: Seq<usize>|
                {
                    &&& #[trigger] excitations.len() == matter.listed().len()
                    &&& forall|i: int|
                        0 <= i < excitations.len() ==> matter_excitations.ensures(
                            (matter.listed()[i],),
                            #[trigger] excitations[i],
                        )
                    &&& sector_built(matter, photon, Some(total), excitations, result)
                },
    {
        let length: usize = matter.len();
        let mut excitations: Vec<usize> = Vec::new();
        let mut index: usize = 0;
        while index < length
            invariant
                matter.well_formed(),
                length == matter.listed().len(),
                index <= length,
                excitations@.len() == index,
                forall|i: int|
                    0 <= i < matter.listed().len() ==> matter_excitations.requires(
                        (#[trigger] matter.listed()[i],),
                    ),
                forall|i: int|
                    0 <= i < index ==> matter_excitations.ensures(
                        (matter.listed()[i],),
                        #[trigger] excitations@[i],
                    ),
            decreases length - index,
        {
            match matter.state(index) {
                Ok(state) => {
                    assert(matter.listed()[index as int] == state);
                    let count: usize = matter_excitations(state);
                    excitations.push(count);
                },
                Err(error) => {
                    assert(false);
                },
            }
            index = index + 1;
        }
        let result: Result<Self> = Self::with_excitations(
            matter,
            photon,
            Some(total),
            excitations,
        );
        assert(excitations@.len() == matter.listed().len());
        result
    }

    /// The pairs with a fixed total number of excitations, given those of each matter
    /// state.
    pub fn with_excitations(
        matter: Matter,
        photon: BosonBasis1D,
        total: Option<usize>,
        excitations: Vec<usize>,
    ) -> (result: Result<Self>)
        requires
            matter.well_formed(),
            photon.well_formed(),
            excitations@.len() == matter.listed().len(),
        ensures
            sector_built(matter, photon, total, excitations@, result),
    {
        if photon.sites() != 1 {
            return Err(
                QmbedError::InvalidSector(
                    "PhotonBasis requires a one-mode boson basis".to_string(),
                ),
            );
        }
        let product: TensorBasis<Matter, BosonBasis1D> = match TensorBasis::new(matter, photon) {
            Ok(product) => product,
            Err(error) => {
                return Err(error);
            },
        };
        let columns: usize = product.right().len();
        let length: usize = product.len();
        let mut rows: Vec<usize> = Vec::new();
        let mut row: usize = 0;
        while row < length
            invariant
                product.wf(),
                product.spec_left() == matter,
                product.spec_right() == photon,
                columns == photon.listed().len(),
                length == product.listed().len(),
                excitations@.len() == matter.listed().len(),
                row <= length,
                selects(&product, excitations@, total, row as int, rows@),
            decreases length - row,
        {
            let pair: TensorState<Matter::State, u128> = match product.state(row) {
                Ok(pair) => pair,
                Err(error) => {
                    assert(false);
                    return Err(error);
                },
            };
            proof {
                tensor::lemma_position_parts(
                    row as int,
                    matter.listed().len() as int,
                    columns as int,
                );
            }
            let count: usize = excitations[row / columns];
            let keep: bool = match total {
                None => true,
                Some(number) => pair.right <= number as u128 && count as u128 == number as u128
                    - pair.right,
            };
            let ghost before = rows@;
            if keep {
                rows.push(row);
            }
            proof {
                assert(keep == wanted(
                    product.listed()[row as int],
                    excitations@[row as int / columns as int],
                    total,
                ));
                assert forall|r: int|
                    0 <= r < row + 1 && wanted(
                        #[trigger] product.listed()[r],
                        excitations@[r / (columns as int)],
                        total,
                    ) implies rows@.contains(r as usize) by {
                    if r < row {
                        assert(before.contains(r as usize));
                        let k = before.index_of(r as usize);
                        assert(rows@[k] == r);
                    } else {
                        assert(rows@[before.len() as int] == r);
                    }
                }
            }
            row = row + 1;
        }
        if rows.len() == 0 {
            return Err(
                QmbedError::InvalidSector("the requested photon sector is empty".to_string()),
            );
        }
        let places: Vec<Option<usize>> = note_places(&product, &rows);
        Ok(PhotonBasis { product, rows, places, total })
    }

    pub fn total_excitations(&self) -> (total: Option<usize>)
        ensures
            total == self.count(),
    {
        self.total
    }

    pub fn matter(&self) -> (matter: &Matter)
        ensures
            *matter == self.pairs().spec_left(),
    {
        self.product.left()
    }

    pub fn photon(&self) -> (photon: &BosonBasis1D)
        ensures
            *photon == self.pairs().spec_right(),
    {
        self.product.right()
    }
}

/// The sector holds the pairs with the wanted number of excitations; it is refused
/// where there are several modes, too many pairs or none that fit.
pub open spec fn sector_built<Matter: Basis>(
    matter: Matter,
    photon: BosonBasis1D,
    total: Option<usize>,
    excitations: Seq<usize>,
    result: Result<PhotonBasis<Matter>>,
) -> bool {
    match result {
        Ok(basis) => {
            &&& photon.spec_sites() == 1
            &&& basis.wf()
            &&& basis.count() == total
            &&& basis.pairs().spec_left() == matter
            &&& basis.pairs().spec_right() == photon
            &&& selects(
                &basis.pairs(),
                excitations,
                total,
                basis.pairs().listed().len() as int,
                basis.selected(),
            )
            &&& basis.selected().len() > 0
        },
        Err(QmbedError::UnsupportedBackend(_)) => photon.spec_sites() == 1
            && matter.listed().len() * photon.listed().len() > usize::MAX,
        Err(QmbedError::InvalidSector(_)) => photon.spec_sites() != 1 || {
            let pairs = tensor::all_pairs(matter.listed(), photon.listed());
            forall|row: int|
                0 <= row < pairs.len() ==> !wanted(
                    #[trigger] pairs[row],
                    excitations[row / (photon.listed().len() as int)],
                    total,
                )
        },
        Err(_) => false,
    }
}

/// Ascending rows below a bound: the row in place `i` is at least `i`.
proof fn lemma_all_rows(rows: Seq<usize>, upto: int)
    requires
        forall|i: int, j: int|
            0 <= i < j < rows.len() ==> #[trigger] rows[i] < #[trigger] rows[j],
    ensures
        forall|i: int| 0 <= i < rows.len() ==> i <= #[trigger] rows[i],
    decreases rows.len(),
{
    if rows.len() > 0 {
        let front = rows.drop_last();
        lemma_all_rows(front, upto);
        assert forall|i: int| 0 <= i < rows.len() implies i <= #[trigger] rows[i] by {
            if i < front.len() {
                assert(front[i] == rows[i]);
            } else if i > 0 {
                assert(front[i - 1] == rows[i - 1]);
                assert(rows[i - 1] < rows[i]);
            }
        }
    }
}

/// Ascending rows that hold everything below a bound are all rows in turn.
proof fn lemma_full_rows(rows: Seq<usize>, upto: int)
    requires
        0 <= upto <= usize::MAX + 1,
        forall|i: int, j: int|
            0 <= i < j < rows.len() ==> #[trigger] rows[i] < #[trigger] rows[j],
        forall|i: int| 0 <= i < rows.len() ==> (#[trigger] rows[i]) < upto,
        forall|i: int| 0 <= i < upto ==> #[trigger] rows.contains(i as usize),
    ensures
        rows.len() == upto,
        forall|i: int| 0 <= i < upto ==> #[trigger] rows[i] == i,
    decreases upto,
{
    if upto == 0 {
        if rows.len() > 0 {
            assert(rows[0] < 0);
        }
    } else {
        assert(rows.contains((upto - 1) as usize));
        let k = rows.index_of((upto - 1) as usize);
        if k < rows.len() - 1 {
            assert(rows[k] < rows[rows.len() - 1]);
        }
        let front = rows.drop_last();
        assert forall|i: int| 0 <= i < front.len() implies (#[trigger] front[i]) < upto - 1 by {
            assert(rows[i] < rows[rows.len() - 1]);
        }
        assert forall|i: int| 0 <= i < upto - 1 implies #[trigger] front.contains(i as usize) by {
            assert(rows.contains(i as usize));
            let m = rows.index_of(i as usize);
            assert(front[m] == i);
        }
        lemma_full_rows(front, upto - 1);
        assert forall|i: int| 0 <= i < upto implies #[trigger] rows[i] == i by {
            if i < front.len() {
                assert(front[i] == i);
            }
        }
    }
}

/// The outcomes whose states belong to a list.
pub open spec fn within<S>(list: Seq<(S, Seq<Factor>)>, listed: Seq<S>) -> Seq<(S, Seq<Factor>)>
    decreases list.len(),
{
    if list.len() == 0 {
        Seq::empty()
    } else if listed.contains(list.last().0) {
        within(list.drop_last(), listed).push(list.last())
    } else {
        within(list.drop_last(), listed)
    }
}

impl<Matter: Basis> Basis for PhotonBasis<Matter> {
    type State = TensorState<Matter::State, u128>;

    open spec fn well_formed(&self) -> bool {
        self.wf()
    }

    open spec fn listed(&self) -> Seq<TensorState<Matter::State, u128>> {
        chosen_states(&self.pairs(), self.selected())
    }

    open spec fn accepts(&self, state: TensorState<Matter::State, u128>) -> bool {
        self.pairs().accepts(state)
    }

    open spec fn action(
        &self,
        state: TensorState<Matter::State, u128>,
        symbols: Seq<char>,
        split: Option<usize>,
        sites: Seq<usize>,
    ) -> ProductOutcome<TensorState<Matter::State, u128>> {
        match self.pairs().action(state, symbols, split, sites) {
            Err(fault) => Err(fault),
            Ok(list) => Ok(within(list, self.listed())),
        }
    }

    open spec fn distinct(&self) -> bool {
        self.pairs().distinct()
    }

    /// A state that is listed more than once is found in the last of its places.
    open spec fn seat(&self, state: TensorState<Matter::State, u128>) -> int {
        basis::last_place(self.listed(), state)
    }

    proof fn lemma_seat(&self, state: TensorState<Matter::State, u128>) {
        basis::lemma_last_place(self.listed(), state);
    }

    proof fn lemma_distinct(&self) {
        self.product.lemma_distinct();
        let list = self.listed();
        assert forall|i: int, j: int|
            0 <= i < list.len() && 0 <= j < list.len() && i != j implies list[i] != list[j] by {
            assert(self.selected()[i] < self.pairs().listed().len());
            assert(self.selected()[j] < self.pairs().listed().len());
            if i < j {
                assert(self.selected()[i] < self.selected()[j]);
            } else {
                assert(self.selected()[j] < self.selected()[i]);
            }
        }
    }

    open spec fn orbit_weight(&self, state: TensorState<Matter::State, u128>) -> nat {
        1
    }

    open spec fn landing(
        &self,
        state: TensorState<Matter::State, u128>,
        source_orbit: usize,
    ) -> Option<Landing> {
        if self.listed().contains(state) {
            Some(
                Landing {
                    index: self.seat(state) as usize,
                    reduction: basis::no_reduction(),
                },
            )
        } else {
            None
        }
    }

    open spec fn two_parts(&self) -> bool {
        true
    }

    fn needs_separator(&self) -> (needed: bool) {
        true
    }

    open spec fn orbit_reduced(&self) -> bool {
        false
    }

    fn is_orbit_reduced(&self) -> (reduced: bool) {
        false
    }

    fn len(&self) -> (length: usize) {
        self.rows.len()
    }

    fn state(&self, index: usize) -> (result: Result<TensorState<Matter::State, u128>>) {
        if index < self.rows.len() {
            assert(self.selected()[index as int] < self.pairs().listed().len());
            self.product.state(self.rows[index])
        } else {
            Err(QmbedError::StateNotInBasis)
        }
    }

    fn index(&self, state: TensorState<Matter::State, u128>) -> (result: Result<usize>) {
        proof {
            basis::lemma_last_place(self.listed(), state);
        }
        let row: usize = match self.product.index(state) {
            Ok(row) => row,
            Err(error) => {
                proof {
                    assert forall|i: int| 0 <= i < self.listed().len() implies #[trigger] self.listed()[i]
                        != state by {
                        assert(self.selected()[i] < self.pairs().listed().len());
                        assert(self.pairs().listed().contains(
                            self.pairs().listed()[self.selected()[i] as int],
                        ));
                    }
                }
                return Err(error);
            },
        };
        assert(self.pairs().listed().contains(self.pairs().listed()[row as int]));
        assert(noted(&self.product, self.listed(), self.places@, state));
        match self.places[row] {
            Some(place) => Ok(place),
            None => Err(QmbedError::StateNotInBasis),
        }
    }

    fn unreduced_transitions(
        &self,
        state: TensorState<Matter::State, u128>,
        symbols: &[char],
        split: Option<usize>,
        sites: &[usize],
    ) -> (result: Result<Vec<Transition<TensorState<Matter::State, u128>>>>) {
        let branches: Vec<Transition<TensorState<Matter::State, u128>>> =
            match self.product.unreduced_transitions(state, symbols, split, sites) {
            Ok(list) => list,
            Err(error) => {
                return Err(error);
            },
        };
        let ghost all = local::transitions_view(branches@);
        let mut kept: Vec<Transition<TensorState<Matter::State, u128>>> = Vec::new();
        let mut position: usize = 0;
        proof {
            assert(all.subrange(0, 0) =~= Seq::empty());
            assert(local::transitions_view(kept@) =~= Seq::empty());
        }
        while position < branches.len()
            invariant
                self.wf(),
                all == local::transitions_view(branches@),
                position <= branches@.len(),
                forall|i: int|
                    0 <= i < branches@.len() ==> self.accepts((#[trigger] branches@[i]).state),
                local::transitions_view(kept@) == within(
                    all.subrange(0, position as int),
                    self.listed(),
                ),
                forall|i: int| 0 <= i < kept@.len() ==> self.accepts((#[trigger] kept@[i]).state),
            decreases branches@.len() - position,
        {
            let ghost before = kept@;
            assert(all.subrange(0, position + 1).drop_last() =~= all.subrange(0, position as int));
            assert(self.accepts(branches@[position as int].state));
            match self.index(branches[position].state) {
                Ok(index) => {
                    assert(self.listed().contains(branches@[position as int].state)) by {
                        assert(self.listed()[index as int] == branches@[position as int].state);
                    }
                    let factors: Vec<Factor> = local::copy_factors(&branches[position].factors);
                    kept.push(Transition { state: branches[position].state, factors });
                    assert(local::transitions_view(kept@) =~= local::transitions_view(before).push(
                        all[position as int],
                    ));
                },
                Err(_) => {},
            }
            position = position + 1;
        }
        assert(all.subrange(0, position as int) =~= all);
        Ok(kept)
    }

    fn transition_orbit_size(&self, state: TensorState<Matter::State, u128>) -> (result: Result<
        usize,
    >) {
        Ok(1)
    }

    open spec fn preservation(&self, operator: Seq<char>) -> std::result::Result<bool, Fault> {
        basis::keeps_total(self.count() is Some, operator)
    }

    fn operator_preserves_particle_sector(&self, operator: &str) -> (result: Result<bool>) {
        basis::total_is_kept(self.total.is_some(), operator)
    }

    fn index_transition(
        &self,
        state: TensorState<Matter::State, u128>,
        source_orbit_size: usize,
    ) -> (result: Option<Landing>) {
        match self.index(state) {
            Ok(index) => {
                assert(self.listed()[index as int] == state);
                Some(
                    Landing {
                        index,
                        reduction: Reduction {
                            turn: 0,
                            steps: 1,
                            given: None,
                            source_orbit: 1,
                            target_orbit: 1,
                        },
                    },
                )
            },
            Err(_) => None,
        }
    }
}

} // verus!
