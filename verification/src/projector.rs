//! Maps between a reduced basis and the basis that it was taken from.

use vstd::prelude::*;
use crate::action;
use crate::algebra::Change;
use crate::algebra;
use crate::basis::Basis;
use crate::error::{QmbedError, Result};
use crate::folds;
use crate::general::GeneralBasis;
use crate::operator;
use crate::order::StateOrder;
use crate::scalar::{Amplitude, Scalar};
use crate::triplets::Triplet;
use crate::triplets;

verus! {

/// The columns of the states of a reduced basis, written in a parent basis.
#[derive(Clone, Debug)]
pub struct BasisProjector<V> {
    parent: usize,
    reduced: usize,
    list: Vec<Triplet<V>>,
}

impl<V: Scalar> BasisProjector<V> {
    pub closed spec fn rows(&self) -> usize {
        self.parent
    }

    pub closed spec fn columns(&self) -> usize {
        self.reduced
    }

    /// The entries, column by column.
    pub closed spec fn entries(&self) -> Seq<Triplet<V>> {
        self.list@
    }

    pub open spec fn wf(&self) -> bool {
        &&& triplets::in_order(self.entries(), true)
        &&& triplets::fits(self.entries(), self.rows() as int, self.columns() as int)
    }

    /// A component of a state of the reduced basis, written in the parent basis.
    pub open spec fn lifted_component(&self, row: int, reduced: Seq<V>) -> V {
        folds::line_fold(self.entries(), row, false, action::action_term(reduced))
    }

    /// A component of a state of the parent basis, seen in the reduced basis.
    pub open spec fn projected_component(&self, column: int, parent: Seq<V>) -> V {
        folds::line_fold(
            self.entries(),
            column,
            true,
            |row: int, value: V| Some(value.mirror().product(parent[row])),
        )
    }

    pub open spec fn lift(&self, reduced: Seq<V>) -> Seq<V> {
        Seq::new(self.rows() as nat, |row: int| self.lifted_component(row, reduced))
    }

    pub open spec fn projection(&self, parent: Seq<V>) -> Seq<V> {
        Seq::new(self.columns() as nat, |column: int| self.projected_component(column, parent))
    }

    /// A projector from its entries.
    pub fn from_entries(source_dimension: usize, reduced_dimension: usize, list: &[Triplet<V>]) -> (result:
        Result<Self>)
        requires
            forall|i: int|
                0 <= i < list@.len() ==> (#[trigger] list@[i]).column < reduced_dimension,
        ensures
            match result {
                Ok(projector) => {
                    &&& operator::acceptable(
                        list@,
                        source_dimension as int,
                        reduced_dimension as int,
                    )
                    &&& projector.wf()
                    &&& projector.rows() == source_dimension
                    &&& projector.columns() == reduced_dimension
                    &&& triplets::same_values(projector.entries(), list@)
                },
                Err(error) => error is DimensionMismatch && !operator::acceptable(
                    list@,
                    source_dimension as int,
                    reduced_dimension as int,
                ),
            },
    {
        let mut index: usize = 0;
        while index < list.len()
            invariant
                index <= list@.len(),
                forall|i: int|
                    0 <= i < list@.len() ==> (#[trigger] list@[i]).column < reduced_dimension,
                forall|i: int|
                    0 <= i < index ==> (#[trigger] list@[i]).row < source_dimension
                        && list@[i].value.proper(),
            decreases list@.len() - index,
        {
            if list[index].row >= source_dimension || !list[index].value.is_finite() {
                assert(!(list@[index as int].row < source_dimension
                    && list@[index as int].value.proper()));
                return Err(
                    QmbedError::DimensionMismatch(
                        "projector contains an invalid parent-space row or coefficient".to_string(),
                    ),
                );
            }
            index = index + 1;
        }
        let sorted: Vec<Triplet<V>> = triplets::sort_entries(list, true);
        proof {
            assert forall|i: int| 0 <= i < sorted@.len() implies (#[trigger] sorted@[i]).row
                < source_dimension && sorted@[i].column < reduced_dimension by {
                let row = sorted@[i].row as int;
                let column = sorted@[i].column as int;
                triplets::lemma_has_value(sorted@, i);
                assert(triplets::values_at(sorted@, row, column) == triplets::values_at(
                    list@,
                    row,
                    column,
                ));
                triplets::lemma_some_entry(list@, row, column);
                let k = choose|k: int|
                    0 <= k < list@.len() && triplets::stands_at(#[trigger] list@[k], row, column);
                assert(list@[k].row < source_dimension);
            }
        }
        Ok(BasisProjector { parent: source_dimension, reduced: reduced_dimension, list: sorted })
    }

    /// The entries, column by column.
    pub fn stored_entries(&self) -> (list: Vec<Triplet<V>>)
        ensures
            list@ == self.entries(),
    {
        let mut list: Vec<Triplet<V>> = Vec::new();
        while list.len() < self.list.len()
            invariant
                list@.len() <= self.list@.len(),
                list@ =~= self.list@.take(list@.len() as int),
            decreases self.list@.len() - list@.len(),
        {
            list.push(self.list[list.len()]);
        }
        assert(self.list@.take(list@.len() as int) =~= self.list@);
        list
    }

    pub fn source_dimension(&self) -> (dimension: usize)
        ensures
            dimension == self.rows(),
    {
        self.parent
    }

    pub fn reduced_dimension(&self) -> (dimension: usize)
        ensures
            dimension == self.columns(),
    {
        self.reduced
    }

    /// Writes a state of the reduced basis in the parent basis.
    pub fn apply(&self, input: &[V], output: &mut [V]) -> (result: Result<()>)
        requires
            self.wf(),
        ensures
            final(output)@.len() == old(output)@.len(),
            match result {
                Ok(()) => {
                    &&& input@.len() == self.columns()
                    &&& old(output)@.len() == self.rows()
                    &&& final(output)@ == self.lift(input@)
                },
                Err(error) => {
                    &&& error is DimensionMismatch
                    &&& input@.len() != self.columns() || old(output)@.len() != self.rows()
                },
            },
    {
        if input.len() != self.reduced || output.len() != self.parent {
            return Err(
                QmbedError::DimensionMismatch(
                    "projector input or output length does not match".to_string(),
                ),
            );
        }
        action::clear(output);
        action::spread_entries(&self.list, false, input, output);
        assert(output@ =~= self.lift(input@));
        Ok(())
    }

    /// A component of the image of a vector under the transpose.
    pub open spec fn transposed_component(&self, column: int, input: Seq<V>) -> V {
        folds::line_fold(self.entries(), column, true, action::action_term(input))
    }

    pub open spec fn transposed(&self, input: Seq<V>) -> Seq<V> {
        Seq::new(self.columns() as nat, |column: int| self.transposed_component(column, input))
    }

    /// Applies the transpose, without conjugation.
    pub fn apply_transpose(&self, input: &[V], output: &mut [V]) -> (result: Result<()>)
        requires
            self.wf(),
        ensures
            final(output)@.len() == old(output)@.len(),
            match result {
                Ok(()) => {
                    &&& input@.len() == self.rows()
                    &&& old(output)@.len() == self.columns()
                    &&& final(output)@ == self.transposed(input@)
                },
                Err(error) => {
                    &&& error is DimensionMismatch
                    &&& input@.len() != self.rows() || old(output)@.len() != self.columns()
                },
            },
    {
        if input.len() != self.parent || output.len() != self.reduced {
            return Err(
                QmbedError::DimensionMismatch(
                    "projector input or output length does not match".to_string(),
                ),
            );
        }
        action::clear(output);
        action::spread_entries(&self.list, true, input, output);
        assert(output@ =~= self.transposed(input@));
        Ok(())
    }

    /// Sees a state of the parent basis in the reduced basis.
    pub fn project(&self, parent: &[V], reduced: &mut [V]) -> (result: Result<()>)
        requires
            self.wf(),
        ensures
            match result {
                Ok(()) => {
                    &&& parent@.len() == self.rows()
                    &&& old(reduced)@.len() == self.columns()
                    &&& final(reduced)@ == self.projection(parent@)
                },
                Err(error) => {
                    &&& error is DimensionMismatch
                    &&& parent@.len() != self.rows() || old(reduced)@.len() != self.columns()
                },
            },
    {
        if parent.len() != self.parent || reduced.len() != self.reduced {
            return Err(
                QmbedError::DimensionMismatch(
                    "projector input or output length does not match".to_string(),
                ),
            );
        }
        action::clear(reduced);
        let mut conjugated: Vec<Triplet<V>> = Vec::new();
        algebra::append_moved(&self.list, false, Change::Conjugate, &mut conjugated);
        proof {
            assert forall|i: int| 0 <= i < self.list@.len() implies #[trigger] conjugated@[i]
                == algebra::moved(self.list@[i], false, Change::Conjugate) by {
                assert(conjugated@[0 + i] == algebra::moved(
                    self.list@[i],
                    false,
                    Change::Conjugate,
                ));
            }
        }
        action::spread_entries(&conjugated, true, parent, reduced);
        proof {
            assert forall|column: int| 0 <= column < self.columns() implies reduced@[column]
                == #[trigger] self.projection(parent@)[column] by {
                lemma_conjugated_fold(self.list@, conjugated@, column, parent@);
            }
            assert(reduced@ =~= self.projection(parent@));
        }
        Ok(())
    }

    /// A state of the reduced basis, written in the parent basis.
    pub fn lifted(&self, reduced: &[V]) -> (result: Result<Vec<V>>)
        requires
            self.wf(),
        ensures
            match result {
                Ok(parent) => reduced@.len() == self.columns() && parent@ == self.lift(reduced@),
                Err(error) => error is DimensionMismatch && reduced@.len() != self.columns(),
            },
    {
        let mut parent: Vec<V> = operator::zeros(self.parent);
        match self.apply(reduced, parent.as_mut_slice()) {
            Ok(()) => Ok(parent),
            Err(error) => Err(error),
        }
    }

    /// A state of the parent basis, seen in the reduced basis.
    pub fn projected(&self, parent: &[V]) -> (result: Result<Vec<V>>)
        requires
            self.wf(),
        ensures
            match result {
                Ok(reduced) => parent@.len() == self.rows() && reduced@ == self.projection(parent@),
                Err(error) => error is DimensionMismatch && parent@.len() != self.rows(),
            },
    {
        let mut reduced: Vec<V> = operator::zeros(self.reduced);
        match self.project(parent, reduced.as_mut_slice()) {
            Ok(()) => Ok(reduced),
            Err(error) => Err(error),
        }
    }

    /// Several states of the reduced basis, written in the parent basis.
    pub fn lift_batch(&self, reduced: &[Vec<V>]) -> (result: Result<Vec<Vec<V>>>)
        requires
            self.wf(),
        ensures
            match result {
                Ok(list) => list@.len() == reduced@.len() && forall|i: int|
                    0 <= i < list@.len() ==> (#[trigger] reduced@[i])@.len() == self.columns()
                        && list@[i]@ == self.lift(reduced@[i]@),
                Err(error) => error is DimensionMismatch && exists|i: int|
                    0 <= i < reduced@.len() && (#[trigger] reduced@[i])@.len() != self.columns(),
            },
    {
        let mut list: Vec<Vec<V>> = Vec::new();
        let mut index: usize = 0;
        while index < reduced.len()
            invariant
                self.wf(),
                index <= reduced@.len(),
                list@.len() == index,
                forall|i: int|
                    0 <= i < index ==> (#[trigger] reduced@[i])@.len() == self.columns()
                        && list@[i]@ == self.lift(reduced@[i]@),
            decreases reduced@.len() - index,
        {
            match self.lifted(reduced[index].as_slice()) {
                Ok(parent) => {
                    list.push(parent);
                },
                Err(error) => {
                    assert(reduced@[index as int]@.len() != self.columns());
                    return Err(error);
                },
            }
            index = index + 1;
        }
        Ok(list)
    }

    /// Several states of the parent basis, seen in the reduced basis.
    pub fn project_batch(&self, parent: &[Vec<V>]) -> (result: Result<Vec<Vec<V>>>)
        requires
            self.wf(),
        ensures
            match result {
                Ok(list) => list@.len() == parent@.len() && forall|i: int|
                    0 <= i < list@.len() ==> (#[trigger] parent@[i])@.len() == self.rows()
                        && list@[i]@ == self.projection(parent@[i]@),
                Err(error) => error is DimensionMismatch && exists|i: int|
                    0 <= i < parent@.len() && (#[trigger] parent@[i])@.len() != self.rows(),
            },
    {
        let mut list: Vec<Vec<V>> = Vec::new();
        let mut index: usize = 0;
        while index < parent.len()
            invariant
                self.wf(),
                index <= parent@.len(),
                list@.len() == index,
                forall|i: int|
                    0 <= i < index ==> (#[trigger] parent@[i])@.len() == self.rows()
                        && list@[i]@ == self.projection(parent@[i]@),
            decreases parent@.len() - index,
        {
            match self.projected(parent[index].as_slice()) {
                Ok(reduced) => {
                    list.push(reduced);
                },
                Err(error) => {
                    assert(parent@[index as int]@.len() != self.rows());
                    return Err(error);
                },
            }
            index = index + 1;
        }
        Ok(list)
    }

    /// The entries, column by column.
    pub fn stored_triplets(&self) -> (list: Vec<Triplet<V>>)
        ensures
            list@ == self.entries(),
    {
        crate::inspection::copy_entries(&self.list)
    }
}

/// The entries of the states of a reduced basis that are listed in a parent basis.
pub open spec fn embedding<V: Scalar, R: Basis, P: Basis<State = R::State>>(
    reduced: &R,
    parent: &P,
    upto: nat,
) -> Seq<Triplet<V>> {
    Seq::new(
        upto,
        |column: int|
            Triplet {
                row: parent.seat(reduced.listed()[column]) as usize,
                column: column as usize,
                value: V::one_value(),
            },
    )
}

/// The entries of the first rows of a sector.
pub open spec fn members<V: Amplitude, P: Basis>(basis: &GeneralBasis<P>, upto: nat) -> Seq<
    Triplet<V>,
> where P::State: StateOrder
    decreases upto,
{
    if upto == 0 {
        Seq::empty()
    } else {
        let front = members::<V, P>(basis, (upto - 1) as nat);
        match basis.lookup(basis.base().listed()[upto - 1]) {
            None => front,
            Some(image) => front.push(
                Triplet {
                    row: (upto - 1) as usize,
                    column: basis.seat(image.representative) as usize,
                    value: V::member_value(V::of_bits(image.phase), image.orbit_size as nat),
                },
            ),
        }
    }
}

/// Every state of the parent space belongs to at most one reduced state, with one
/// amplitude: the entries of the embedding of a sector stand in ascending rows.
pub proof fn orbits_do_not_meet<V: Amplitude, P: Basis>(
    basis: &GeneralBasis<P>,
    upto: nat,
    i: int,
    j: int,
) where P::State: StateOrder
    requires
        upto <= usize::MAX,
        0 <= i < j < members::<V, P>(basis, upto).len(),
    ensures
        members::<V, P>(basis, upto)[i].row < members::<V, P>(basis, upto)[j].row < upto,
    decreases upto,
{
    if upto > 0 {
        let shorter = (upto - 1) as nat;
        let front = members::<V, P>(basis, shorter);
        if j < front.len() {
            orbits_do_not_meet::<V, P>(basis, shorter, i, j);
        } else if i < front.len() {
            lemma_member_rows::<V, P>(basis, shorter, i);
        }
    }
}

proof fn lemma_member_rows<V: Amplitude, P: Basis>(basis: &GeneralBasis<P>, upto: nat, i: int) where
    P::State: StateOrder,

    requires
        upto <= usize::MAX,
        0 <= i < members::<V, P>(basis, upto).len(),
    ensures
        members::<V, P>(basis, upto)[i].row < upto,
    decreases upto,
{
    if upto > 0 {
        let shorter = (upto - 1) as nat;
        if i < members::<V, P>(basis, shorter).len() {
            lemma_member_rows::<V, P>(basis, shorter, i);
        }
    }
}

/// The unit vector of a length.
pub open spec fn unit<V: Scalar>(length: nat, place: int) -> Seq<V> {
    Seq::new(
        length,
        |i: int|
            if i == place {
                V::one_value()
            } else {
                V::zero_value()
            },
    )
}

/// The componentwise difference of two vectors.
pub open spec fn difference<V: Scalar>(first: Seq<V>, second: Seq<V>) -> Seq<V> {
    Seq::new(
        first.len(),
        |i: int| first[i].sum(second[i].product(V::minus_one_value())),
    )
}

/// Every state of the reduced basis is listed in the parent basis.
pub open spec fn lists_all<R: Basis, P: Basis<State = R::State>>(reduced: &R, parent: &P) -> bool {
    forall|i: int|
        0 <= i < reduced.listed().len() ==> parent.listed().contains(
            #[trigger] reduced.listed()[i],
        )
}

/// The shares that the first states of a parent basis have in the states of a reduced
/// basis.
pub open spec fn shares<V: Amplitude, R: Basis, P: Basis<State = R::State>>(
    reduced: &R,
    parent: &P,
    upto: nat,
) -> Seq<Triplet<V>>
    decreases upto,
{
    if upto == 0 {
        Seq::empty()
    } else {
        let front = shares::<V, R, P>(reduced, parent, (upto - 1) as nat);
        match reduced.landing(parent.listed()[upto - 1], 1) {
            None => front,
            Some(landing) => front.push(
                Triplet {
                    row: (upto - 1) as usize,
                    column: landing.index,
                    value: V::of_reduction(landing.reduction).mirror(),
                },
            ),
        }
    }
}

impl<V: Amplitude> BasisProjector<V> {
    /// The states of a basis as states of another basis that lists them.
    pub fn from_embedding<R: Basis, P: Basis<State = R::State>>(reduced: &R, parent: &P) -> (result:
        Result<Self>)
        requires
            reduced.well_formed(),
            parent.well_formed(),
            V::one_value().proper(),
        ensures
            match result {
                Ok(projector) => {
                    &&& projector.wf()
                    &&& projector.rows() == parent.listed().len()
                    &&& projector.columns() == reduced.listed().len()
                    &&& forall|i: int|
                        0 <= i < reduced.listed().len() ==> parent.listed().contains(
                            #[trigger] reduced.listed()[i],
                        )
                    &&& triplets::same_values(
                        projector.entries(),
                        embedding(reduced, parent, reduced.listed().len()),
                    )
                },
                Err(error) => error is StateNotInBasis && exists|i: int|
                    0 <= i < reduced.listed().len() && !parent.listed().contains(
                        #[trigger] reduced.listed()[i],
                    ),
            },
    {
        let total: usize = reduced.len();
        let height: usize = parent.len();
        let mut list: Vec<Triplet<V>> = Vec::new();
        let mut column: usize = 0;
        while column < total
            invariant
                reduced.well_formed(),
                parent.well_formed(),
                total == reduced.listed().len(),
                height == parent.listed().len(),
                V::one_value().proper(),
                column <= total,
                list@ == embedding::<V, R, P>(reduced, parent, column as nat),
                forall|i: int|
                    0 <= i < column ==> parent.listed().contains(#[trigger] reduced.listed()[i]),
                forall|i: int|
                    0 <= i < list@.len() ==> (#[trigger] list@[i]).row < height && list@[i].column
                        < total && list@[i].value.proper(),
            decreases total - column,
        {
            let state: R::State = match reduced.state(column) {
                Ok(state) => state,
                Err(error) => {
                    assert(false);
                    return Err(error);
                },
            };
            match parent.index(state) {
                Ok(row) => {
                    proof {
                        assert(parent.listed()[row as int] == state);
                        assert(parent.listed().contains(state));
                    }
                    list.push(Triplet { row, column, value: V::one() });
                },
                Err(error) => {
                    assert(!parent.listed().contains(reduced.listed()[column as int]));
                    return Err(error);
                },
            }
            column = column + 1;
            assert(list@ =~= embedding::<V, R, P>(reduced, parent, column as nat));
        }
        match Self::from_entries(height, total, list.as_slice()) {
            Ok(projector) => Ok(projector),
            Err(error) => {
                assert(false);
                Err(QmbedError::StateNotInBasis)
            },
        }
    }

    /// The states of a basis, or the orbits that they stand for, as states of another
    /// basis.
    pub fn between<R: Basis, P: Basis<State = R::State>>(reduced: &R, parent: &P) -> (result: Result<
        Self,
    >)
        requires
            reduced.well_formed(),
            parent.well_formed(),
        ensures
            match result {
                Ok(projector) => {
                    &&& lists_all(reduced, parent)
                    &&& projector.wf()
                    &&& projector.rows() == parent.listed().len()
                    &&& projector.columns() == reduced.listed().len()
                    &&& triplets::same_values(
                        projector.entries(),
                        shares(reduced, parent, parent.listed().len()),
                    )
                },
                Err(error) => if !lists_all(reduced, parent) {
                    error is StateNotInBasis
                } else {
                    error is DimensionMismatch && !operator::acceptable(
                        shares::<V, R, P>(reduced, parent, parent.listed().len()),
                        parent.listed().len() as int,
                        reduced.listed().len() as int,
                    )
                },
            },
    {
        let width: usize = reduced.len();
        let height: usize = parent.len();
        let mut column: usize = 0;
        while column < width
            invariant
                reduced.well_formed(),
                parent.well_formed(),
                width == reduced.listed().len(),
                column <= width,
                forall|i: int|
                    0 <= i < column ==> parent.listed().contains(#[trigger] reduced.listed()[i]),
            decreases width - column,
        {
            let state: R::State = match reduced.state(column) {
                Ok(state) => state,
                Err(error) => {
                    assert(false);
                    return Err(error);
                },
            };
            match parent.index(state) {
                Ok(row) => {
                    assert(parent.listed()[row as int] == state);
                },
                Err(error) => {
                    assert(!parent.listed().contains(reduced.listed()[column as int]));
                    return Err(error);
                },
            }
            column = column + 1;
        }
        let mut list: Vec<Triplet<V>> = Vec::new();
        let mut row: usize = 0;
        while row < height
            invariant
                reduced.well_formed(),
                parent.well_formed(),
                lists_all(reduced, parent),
                width == reduced.listed().len(),
                height == parent.listed().len(),
                row <= height,
                list@ == shares::<V, R, P>(reduced, parent, row as nat),
                forall|i: int| 0 <= i < list@.len() ==> (#[trigger] list@[i]).column < width,
            decreases height - row,
        {
            let state: R::State = match parent.state(row) {
                Ok(state) => state,
                Err(error) => {
                    assert(false);
                    return Err(error);
                },
            };
            if let Some(landing) = reduced.index_transition(state, 1) {
                let share: V = V::from_reduction(landing.reduction);
                list.push(Triplet { row, column: landing.index, value: share.conjugate() });
            }
            row = row + 1;
        }
        Self::from_entries(height, width, list.as_slice())
    }

    /// The states of a symmetry sector as states of the parent basis.
    pub fn from_general<P: Basis>(basis: &GeneralBasis<P>) -> (result: Result<Self>) where
        P::State: StateOrder,

        requires
            basis.wf(),
        ensures
            match result {
                Ok(projector) => {
                    &&& projector.wf()
                    &&& projector.rows() == basis.base().listed().len()
                    &&& projector.columns() == basis.representatives().len()
                    &&& triplets::same_values(
                        projector.entries(),
                        members::<V, P>(basis, basis.base().listed().len()),
                    )
                },
                Err(error) => error is DimensionMismatch && !operator::acceptable(
                    members::<V, P>(basis, basis.base().listed().len()),
                    basis.base().listed().len() as int,
                    basis.representatives().len() as int,
                ),
            },
    {
        let height: usize = basis.parent().len();
        let width: usize = basis.len();
        let mut list: Vec<Triplet<V>> = Vec::new();
        let mut row: usize = 0;
        while row < height
            invariant
                basis.wf(),
                height == basis.base().listed().len(),
                width == basis.representatives().len(),
                row <= height,
                list@ == members::<V, P>(basis, row as nat),
                forall|i: int| 0 <= i < list@.len() ==> (#[trigger] list@[i]).column < width,
            decreases height - row,
        {
            let state: P::State = match basis.parent().state(row) {
                Ok(state) => state,
                Err(error) => {
                    assert(false);
                    return Err(error);
                },
            };
            if let Some(found) = basis.find_image(state) {
                proof {
                    basis.base().lemma_seat(state);
                    assert(basis.table()[basis.base().seat(state)] == Some(found));
                    assert(basis.representatives().contains(found.representative));
                }
                match basis.index(found.representative) {
                    Ok(column) => {
                        let phase: V = V::from_bits(found.phase);
                        let value: V = V::member(phase, found.orbit_size);
                        list.push(Triplet { row, column, value });
                    },
                    Err(error) => {
                        assert(false);
                        return Err(error);
                    },
                }
            }
            row = row + 1;
        }
        Self::from_entries(height, width, list.as_slice())
    }
}

proof fn lemma_conjugated_fold<V: Scalar>(
    list: Seq<Triplet<V>>,
    conjugated: Seq<Triplet<V>>,
    column: int,
    parent: Seq<V>,
)
    requires
        conjugated.len() == list.len(),
        forall|i: int|
            0 <= i < list.len() ==> #[trigger] conjugated[i] == algebra::moved(
                list[i],
                false,
                Change::Conjugate,
            ),
    ensures
        folds::line_fold(conjugated, column, true, action::action_term(parent))
            == folds::line_fold(
            list,
            column,
            true,
            |row: int, value: V| Some(value.mirror().product(parent[row])),
        ),
    decreases list.len(),
{
    if list.len() > 0 {
        let a = list.drop_last();
        let b = conjugated.drop_last();
        assert forall|i: int| 0 <= i < a.len() implies #[trigger] b[i] == algebra::moved(
            a[i],
            false,
            Change::Conjugate,
        ) by {
            assert(b[i] == conjugated[i]);
        }
        lemma_conjugated_fold(a, b, column, parent);
        assert(conjugated.last() == conjugated[list.len() - 1]);
    }
}

} // verus!
