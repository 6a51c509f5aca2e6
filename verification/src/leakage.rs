//! How much of an operator leaves the space of a reduced basis.

use vstd::prelude::*;
use crate::error::{QmbedError, Result};
use crate::linear::LinearOperator;
use crate::measurement;
use crate::operator;
use crate::projector::BasisProjector;
use crate::projector;
use crate::scalar::{Normed, Scalar};

verus! {

impl<V: Scalar> BasisProjector<V> {
    /// What a map on the parent space makes of a state of the reduced basis.
    pub open spec fn carried<O: LinearOperator<V>>(&self, operator: &O, column: int) -> Option<
        Seq<V>,
    > {
        operator.maps(self.lift(projector::unit(self.columns() as nat, column)))
    }

    /// The part of the image of a reduced state that leaves the reduced space.
    pub open spec fn leak<O: LinearOperator<V>>(&self, operator: &O, column: int) -> Seq<V> {
        let image = self.carried(operator, column)->0;
        projector::difference(image, self.lift(self.projection(image)))
    }

    /// The map acts on the parent space.
    pub open spec fn is_parent_map<O: LinearOperator<V>>(&self, operator: &O) -> bool {
        operator.extent() == (self.rows(), self.rows())
    }

    /// The state is the first of the reduced basis that the map refuses, and it is refused
    /// with the error.
    pub open spec fn refused_at<O: LinearOperator<V>>(
        &self,
        operator: &O,
        column: int,
        error: QmbedError,
    ) -> bool {
        &&& 0 <= column < self.columns()
        &&& self.carried(operator, column) is None
        &&& operator.refuses(
            self.lift(projector::unit(self.columns() as nat, column)),
            error,
        )
        &&& forall|c: int| 0 <= c < column ==> #[trigger] self.carried(operator, c) is Some
    }

    /// The map takes every state of the reduced basis.
    pub open spec fn all_carried<O: LinearOperator<V>>(&self, operator: &O) -> bool {
        forall|column: int|
            0 <= column < self.columns() ==> #[trigger] self.carried(operator, column) is Some
    }

    /// The part of the image of one reduced state that leaves the reduced space.
    fn leak_of<O: LinearOperator<V>>(&self, operator: &O, column: usize) -> (result: Result<Vec<V>>)
        requires
            self.wf(),
            operator.usable(),
            self.is_parent_map(operator),
            column < self.columns(),
        ensures
            match result {
                Ok(part) => self.carried(operator, column as int) is Some && part@ == self.leak(
                    operator,
                    column as int,
                ),
                Err(error) => self.carried(operator, column as int) is None && operator.refuses(
                    self.lift(projector::unit(self.columns() as nat, column as int)),
                    error,
                ),
            },
    {
        let parent: usize = self.source_dimension();
        let reduced: usize = self.reduced_dimension();
        let mut start: Vec<V> = operator::zeros(reduced);
        start.set(column, V::one());
        assert(start@ =~= projector::unit(self.columns() as nat, column as int));
        let lifted: Vec<V> = match self.lifted(start.as_slice()) {
            Ok(vector) => vector,
            Err(error) => {
                return Err(error);
            },
        };
        let mut image: Vec<V> = operator::zeros(parent);
        match operator.apply(lifted.as_slice(), image.as_mut_slice()) {
            Ok(()) => {},
            Err(error) => {
                return Err(error);
            },
        }
        let projected: Vec<V> = match self.projected(image.as_slice()) {
            Ok(vector) => vector,
            Err(error) => {
                return Err(error);
            },
        };
        let kept: Vec<V> = match self.lifted(projected.as_slice()) {
            Ok(vector) => vector,
            Err(error) => {
                return Err(error);
            },
        };
        let mut part: Vec<V> = Vec::new();
        while part.len() < parent
            invariant
                image@.len() == parent,
                kept@.len() == parent,
                part@.len() <= parent,
                part@ =~= projector::difference(image@, kept@).subrange(0, part@.len() as int),
            decreases parent - part@.len(),
        {
            let at: usize = part.len();
            part.push(image[at].plus(kept[at].times(V::minus_one())));
        }
        assert(part@ =~= self.leak(operator, column as int));
        Ok(part)
    }
}

impl<V: Normed> BasisProjector<V> {
    /// The squared magnitudes of what leaves the reduced space from its first states.
    pub open spec fn leakage_total<O: LinearOperator<V>>(&self, operator: &O, upto: nat) -> V::Magnitude
        decreases upto,
    {
        if upto == 0 {
            V::nothing()
        } else {
            let part = self.leak(operator, upto - 1);
            V::joined(
                self.leakage_total(operator, (upto - 1) as nat),
                measurement::norm_total(part, part.len()),
            )
        }
    }

    /// The Frobenius norm of what a map on the parent space takes out of the reduced
    /// space. It is nothing where the map keeps the symmetry of the reduced space.
    pub fn symmetry_leakage_norm<O: LinearOperator<V>>(&self, operator: &O) -> (result: Result<
        V::Magnitude,
    >)
        requires
            self.wf(),
            operator.usable(),
        ensures
            match result {
                Ok(norm) => {
                    &&& self.is_parent_map(operator)
                    &&& self.all_carried(operator)
                    &&& norm == V::root_value(
                        self.leakage_total(operator, self.columns() as nat),
                    )
                },
                Err(error) => if !self.is_parent_map(operator) {
                    error is DimensionMismatch
                } else {
                    exists|column: int| #[trigger] self.refused_at(operator, column, error)
                },
            },
    {
        let (rows, columns): (usize, usize) = operator.shape();
        let parent: usize = self.source_dimension();
        if rows != parent || columns != parent {
            return Err(
                QmbedError::DimensionMismatch(
                    "symmetry check requires a square parent-space operator".to_string(),
                ),
            );
        }
        let count: usize = self.reduced_dimension();
        let mut total: V::Magnitude = V::no_magnitude();
        let mut column: usize = 0;
        while column < count
            invariant
                self.wf(),
                operator.usable(),
                self.is_parent_map(operator),
                count == self.columns(),
                column <= count,
                forall|c: int|
                    0 <= c < column ==> #[trigger] self.carried(operator, c) is Some,
                total == self.leakage_total(operator, column as nat),
            decreases count - column,
        {
            match self.leak_of(operator, column) {
                Ok(part) => {
                    total = V::add_magnitudes(total, measurement::total_norm(part.as_slice()));
                },
                Err(error) => {
                    assert(self.refused_at(operator, column as int, error));
                    return Err(error);
                },
            }
            column = column + 1;
        }
        Ok(V::root(total))
    }

    /// Whether a map on the parent space keeps the symmetry of the reduced space within
    /// a tolerance.
    pub fn preserves_operator_symmetry<O: LinearOperator<V>>(
        &self,
        operator: &O,
        tolerance: V::Magnitude,
    ) -> (result: Result<bool>)
        requires
            self.wf(),
            operator.usable(),
        ensures
            match result {
                Ok(preserved) => {
                    &&& V::askable(tolerance)
                    &&& self.is_parent_map(operator)
                    &&& self.all_carried(operator)
                    &&& preserved == V::at_most(
                        V::root_value(self.leakage_total(operator, self.columns() as nat)),
                        tolerance,
                    )
                },
                Err(error) => if !V::askable(tolerance) {
                    error is InvalidOptions
                } else if !self.is_parent_map(operator) {
                    error is DimensionMismatch
                } else {
                    exists|column: int| #[trigger] self.refused_at(operator, column, error)
                },
            },
    {
        if !V::is_askable(tolerance) {
            return Err(
                QmbedError::InvalidOptions(
                    "symmetry-check tolerance must be finite and nonnegative".to_string(),
                ),
            );
        }
        match self.symmetry_leakage_norm(operator) {
            Ok(norm) => Ok(V::is_at_most(norm, tolerance)),
            Err(error) => Err(error),
        }
    }
}

} // verus!
