//! Linear maps that depend on time, and their algebra.

use std::sync::Arc;
use vstd::prelude::*;
use crate::algebra::Change;
use crate::error::{QmbedError, Result};
use crate::hamiltonian::{Hamiltonian, Static};
use crate::operator::Operator;
use crate::operator;
use crate::scalar::Scalar;

verus! {

/// A moment at which a map can be asked for.
/// What an implementation leaves out of the specification is not specified.
pub trait Moment: Copy {
    open spec fn settled_time(self) -> bool {
        arbitrary()
    }

    /// The moment is a finite number.
    fn is_settled(self) -> (settled: bool)
        ensures
            settled == self.settled_time(),
    ;
}

/// Time counted in steps.
impl Moment for u64 {
    open spec fn settled_time(self) -> bool {
        true
    }

    fn is_settled(self) -> (settled: bool) {
        true
    }
}

/// A linear map that depends on time.
/// What an implementation leaves out of the specification is not specified.
pub trait TimeDependentOperator<T: Moment, V: Scalar> {
    open spec fn usable(&self) -> bool {
        arbitrary()
    }

    /// The numbers of rows and columns.
    open spec fn extent(&self) -> (usize, usize) {
        arbitrary()
    }

    /// The image of a vector at a moment, or nothing where it is refused.
    open spec fn maps_at(&self, time: T, input: Seq<V>) -> Option<Seq<V>> {
        arbitrary()
    }

    /// The map may refuse a vector at a moment with the error.
    open spec fn refuses_at(&self, time: T, input: Seq<V>, error: QmbedError) -> bool {
        arbitrary()
    }

    fn shape(&self) -> (shape: (usize, usize))
        ensures
            shape == self.extent(),
    ;

    /// Replaces the output by the image of the input at a moment.
    fn apply_at(&self, time: T, input: &[V], output: &mut [V]) -> (result: Result<()>)
        requires
            self.usable(),
        ensures
            final(output)@.len() == old(output)@.len(),
            match result {
                Ok(()) => {
                    &&& input@.len() == self.extent().1
                    &&& old(output)@.len() == self.extent().0
                    &&& self.maps_at(time, input@) == Some(final(output)@)
                },
                Err(error) => {
                    ||| input@.len() != self.extent().1
                    ||| old(output)@.len() != self.extent().0
                    ||| self.maps_at(time, input@) is None && self.refuses_at(time, input@, error)
                },
            },
    ;
}

impl<T: Moment, V: Scalar> TimeDependentOperator<T, V> for Hamiltonian<V, Static> {
    open spec fn usable(&self) -> bool {
        self.wf()
    }

    open spec fn extent(&self) -> (usize, usize) {
        self.still().shape
    }

    open spec fn maps_at(&self, time: T, input: Seq<V>) -> Option<Seq<V>> {
        if time.settled_time() {
            Some(self.still().image(input))
        } else {
            None
        }
    }

    open spec fn refuses_at(&self, time: T, input: Seq<V>, error: QmbedError) -> bool {
        error is InvalidOptions
    }

    fn shape(&self) -> (shape: (usize, usize)) {
        self.operator().shape
    }

    fn apply_at(&self, time: T, input: &[V], output: &mut [V]) -> (result: Result<()>) {
        if !time.is_settled() {
            return Err(
                QmbedError::InvalidOptions("evaluation time must be finite".to_string()),
            );
        }
        self.operator().apply(input, output)
    }
}

/// A map put together from maps that depend on time.
pub struct TimeOperator<O, V> {
    shape: (usize, usize),
    action: Arc<TimedAction<O, V>>,
}

/// How a map is put together.
pub enum TimedAction<O, V> {
    Given(O),
    Scaled(TimeOperator<O, V>, V),
    Sum(TimeOperator<O, V>, TimeOperator<O, V>),
    Product(TimeOperator<O, V>, TimeOperator<O, V>),
    Identity,
    Rotated(TimeOperator<O, V>, Operator<V>, Operator<V>),
}

/// Every component multiplied from the right by a number.
pub open spec fn scaled_components<V: Scalar>(values: Seq<V>, factor: V) -> Seq<V> {
    Seq::new(values.len(), |i: int| values[i].product(factor))
}

/// The componentwise sum of two vectors.
pub open spec fn added_components<V: Scalar>(first: Seq<V>, second: Seq<V>) -> Seq<V> {
    Seq::new(first.len(), |i: int| first[i].sum(second[i]))
}

impl<O, V: Scalar> TimeOperator<O, V> {
    pub closed spec fn size(&self) -> (usize, usize) {
        self.shape
    }

    pub closed spec fn built(&self) -> TimedAction<O, V> {
        *self.action
    }

    /// The shapes of the parts fit together.
    pub open spec fn sound<T: Moment>(self) -> bool where O: TimeDependentOperator<T, V>
        decreases self,
    {
        match self.built() {
            TimedAction::Given(operator) => operator.usable() && operator.extent() == self.size(),
            TimedAction::Scaled(inner, _) => inner.sound::<T>() && inner.size() == self.size(),
            TimedAction::Sum(left, right) => left.sound::<T>() && right.sound::<T>()
                && left.size() == self.size() && right.size() == self.size(),
            TimedAction::Product(left, right) => left.sound::<T>() && right.sound::<T>()
                && left.size().0 == self.size().0 && left.size().1 == right.size().0
                && right.size().1 == self.size().1,
            TimedAction::Identity => self.size().0 == self.size().1,
            TimedAction::Rotated(inner, unitary, mirrored) => inner.sound::<T>() && inner.size()
                == self.size() && self.size().0 == self.size().1 && unitary.wf() && unitary.shape
                == self.size() && mirrored.wf() && mirrored.shape == self.size(),
        }
    }

    /// The image of a vector at a moment, or nothing where a part refuses.
    pub open spec fn maps<T: Moment>(self, time: T, input: Seq<V>) -> Option<Seq<V>> where
        O: TimeDependentOperator<T, V>,

        decreases self,
    {
        if !time.settled_time() {
            None
        } else {
            match self.built() {
                TimedAction::Given(operator) => operator.maps_at(time, input),
                TimedAction::Scaled(inner, factor) => match inner.maps(time, input) {
                    Some(image) => Some(scaled_components(image, factor)),
                    None => None,
                },
                TimedAction::Sum(left, right) => match (
                    left.maps(time, input),
                    right.maps(time, input),
                ) {
                    (Some(first), Some(second)) => Some(added_components(first, second)),
                    _ => None,
                },
                TimedAction::Product(left, right) => match right.maps(time, input) {
                    Some(middle) => left.maps(time, middle),
                    None => None,
                },
                TimedAction::Identity => Some(input),
                TimedAction::Rotated(inner, unitary, mirrored) => match inner.maps(
                    time,
                    unitary.image(input),
                ) {
                    Some(middle) => Some(mirrored.image(middle)),
                    None => None,
                },
            }
        }
    }

    /// The vector may be refused at a moment with the error: that of a moment that is not
    /// finite, or that of the part that is asked first and refuses.
    pub open spec fn refuses<T: Moment>(self, time: T, input: Seq<V>, error: QmbedError) -> bool where
        O: TimeDependentOperator<T, V>,

        decreases self,
    {
        if !time.settled_time() {
            error is InvalidOptions
        } else {
            match self.built() {
                TimedAction::Given(operator) => operator.refuses_at(time, input, error),
                TimedAction::Scaled(inner, _) => inner.refuses(time, input, error),
                TimedAction::Sum(left, right) => if left.maps(time, input) is None {
                    left.refuses(time, input, error)
                } else {
                    right.refuses(time, input, error)
                },
                TimedAction::Product(left, right) => match right.maps(time, input) {
                    Some(middle) => left.refuses(time, middle, error),
                    None => right.refuses(time, input, error),
                },
                TimedAction::Identity => false,
                TimedAction::Rotated(inner, unitary, _) => inner.refuses(
                    time,
                    unitary.image(input),
                    error,
                ),
            }
        }
    }

    /// The same map, sharing its parts.
    fn share(&self) -> (copy: Self)
        ensures
            copy == *self,
    {
        TimeOperator { shape: self.shape, action: self.action.clone() }
    }

    fn of(shape: (usize, usize), action: TimedAction<O, V>) -> (result: Result<Self>)
        ensures
            match result {
                Ok(operator) => shape.0 > 0 && shape.1 > 0 && operator.size() == shape
                    && operator.built() == action,
                Err(error) => error is DimensionMismatch && (shape.0 == 0 || shape.1 == 0),
            },
    {
        if shape.0 == 0 || shape.1 == 0 {
            return Err(
                QmbedError::DimensionMismatch(
                    "time-dependent operator dimensions must be positive".to_string(),
                ),
            );
        }
        Ok(TimeOperator { shape, action: Arc::new(action) })
    }

    /// The map made of one that depends on time.
    pub fn from_operator<T: Moment>(operator: O) -> (timed: Self) where
        O: TimeDependentOperator<T, V>,

        ensures
            timed.size() == operator.extent(),
            timed.built() == TimedAction::<O, V>::Given(operator),
    {
        let shape: (usize, usize) = operator.shape();
        TimeOperator { shape, action: Arc::new(TimedAction::Given(operator)) }
    }

    /// The map with every image multiplied by a number.
    pub fn scaled(&self, coefficient: V) -> (result: Result<Self>)
        ensures
            match result {
                Ok(image) => {
                    &&& coefficient.proper()
                    &&& !self.vanishes()
                    &&& image.size() == self.size()
                    &&& image.built() == TimedAction::Scaled(*self, coefficient)
                },
                Err(QmbedError::InvalidOptions(_)) => !coefficient.proper(),
                Err(QmbedError::DimensionMismatch(_)) => coefficient.proper() && self.vanishes(),
                Err(_) => false,
            },
    {
        if !coefficient.is_finite() {
            return Err(QmbedError::InvalidOptions("time-operator scale must be finite".to_string()));
        }
        Self::of(self.shape, TimedAction::Scaled(self.share(), coefficient))
    }

    /// There are no rows or no columns.
    pub open spec fn vanishes(self) -> bool {
        self.size().0 == 0 || self.size().1 == 0
    }

    /// The sum of two maps.
    pub fn add(&self, right: &Self) -> (result: Result<Self>)
        ensures
            match result {
                Ok(sum) => {
                    &&& self.size() == right.size()
                    &&& !self.vanishes()
                    &&& sum.size() == self.size()
                    &&& sum.built() == TimedAction::Sum(*self, *right)
                },
                Err(error) => error is DimensionMismatch && (self.size() != right.size()
                    || self.vanishes()),
            },
    {
        if self.shape.0 != right.shape.0 || self.shape.1 != right.shape.1 {
            return Err(
                QmbedError::DimensionMismatch(
                    "time-dependent sums require equal shapes".to_string(),
                ),
            );
        }
        Self::of(self.shape, TimedAction::Sum(self.share(), right.share()))
    }

    /// The difference of two maps.
    pub fn subtract(&self, right: &Self) -> (result: Result<Self>)
        requires
            V::minus_one_value().proper(),
        ensures
            match result {
                Ok(difference) => {
                    &&& self.size() == right.size()
                    &&& !self.vanishes()
                    &&& is_difference(*self, *right, difference)
                },
                Err(error) => error is DimensionMismatch && (self.size() != right.size()
                    || self.vanishes()),
            },
    {
        match right.scaled(V::minus_one()) {
            Ok(negative) => self.add(&negative),
            Err(error) => Err(error),
        }
    }

    /// The first map after the second.
    pub fn product(&self, right: &Self) -> (result: Result<Self>)
        ensures
            match result {
                Ok(product) => {
                    &&& self.size().0 > 0 && right.size().1 > 0
                    &&& is_product(*self, *right, product)
                },
                Err(error) => error is DimensionMismatch && (self.size().1 != right.size().0
                    || self.size().0 == 0 || right.size().1 == 0),
            },
    {
        if self.shape.1 != right.shape.0 {
            return Err(
                QmbedError::DimensionMismatch(
                    "time-dependent product inner dimensions do not match".to_string(),
                ),
            );
        }
        Self::of(
            (self.shape.0, right.shape.1),
            TimedAction::Product(self.share(), right.share()),
        )
    }

    /// The commutator of two square maps.
    pub fn commutator(&self, right: &Self) -> (result: Result<Self>)
        requires
            V::minus_one_value().proper(),
        ensures
            match result {
                Ok(bracket) => self.pairs_with(*right) && exists|first: Self, second: Self|
                    {
                        &&& #[trigger] is_product(*self, *right, first)
                        &&& #[trigger] is_product(*right, *self, second)
                        &&& is_difference(first, second, bracket)
                    },
                Err(error) => error is DimensionMismatch && !self.pairs_with(*right),
            },
    {
        let first: Self = match self.product(right) {
            Ok(product) => product,
            Err(error) => {
                return Err(error);
            },
        };
        let second: Self = match right.product(self) {
            Ok(product) => product,
            Err(error) => {
                return Err(error);
            },
        };
        assert(is_product(*self, *right, first));
        assert(is_product(*right, *self, second));
        first.subtract(&second)
    }

    /// The anticommutator of two square maps.
    pub fn anticommutator(&self, right: &Self) -> (result: Result<Self>)
        ensures
            match result {
                Ok(bracket) => self.pairs_with(*right) && exists|first: Self, second: Self|
                    {
                        &&& #[trigger] is_product(*self, *right, first)
                        &&& #[trigger] is_product(*right, *self, second)
                        &&& bracket.size() == first.size()
                        &&& bracket.built() == TimedAction::Sum(first, second)
                    },
                Err(error) => error is DimensionMismatch && !self.pairs_with(*right),
            },
    {
        let first: Self = match self.product(right) {
            Ok(product) => product,
            Err(error) => {
                return Err(error);
            },
        };
        let second: Self = match right.product(self) {
            Ok(product) => product,
            Err(error) => {
                return Err(error);
            },
        };
        assert(is_product(*self, *right, first));
        assert(is_product(*right, *self, second));
        first.add(&second)
    }

    /// Both products exist and have the same shape.
    pub open spec fn pairs_with(self, right: Self) -> bool {
        &&& self.size() == right.size()
        &&& self.size().0 == self.size().1
        &&& self.size().0 > 0
    }

    /// A power of a square map.
    pub fn pow(&self, exponent: u32) -> (result: Result<Self>)
        ensures
            match result {
                Ok(power) => {
                    &&& self.size().0 == self.size().1
                    &&& exponent != 1 ==> !self.vanishes()
                    &&& is_power(*self, exponent as nat, power)
                },
                Err(error) => error is DimensionMismatch && (self.size().0 != self.size().1 || (
                exponent != 1 && self.vanishes())),
            },
    {
        if self.shape.0 != self.shape.1 {
            return Err(
                QmbedError::DimensionMismatch(
                    "time-dependent powers require a square operator".to_string(),
                ),
            );
        }
        if exponent == 0 {
            return Self::of(self.shape, TimedAction::Identity);
        }
        let mut power: Self = self.share();
        let mut done: u32 = 1;
        while done < exponent
            invariant
                self.size().0 == self.size().1,
                1 <= done <= exponent,
                done > 1 ==> !self.vanishes(),
                power.size() == self.size(),
                is_power(*self, done as nat, power),
            decreases exponent - done,
        {
            let ghost before = power;
            power = match power.product(self) {
                Ok(next) => next,
                Err(error) => {
                    return Err(error);
                },
            };
            assert(is_product(before, *self, power));
            done = done + 1;
            assert(is_power(*self, (done - 1) as nat, before));
        }
        Ok(power)
    }

    /// The map seen in the basis of the columns of a unitary matrix.
    pub fn rotated(&self, unitary: &Operator<V>, tolerance: V::Tolerance) -> (result: Result<Self>)
        requires
            unitary.wf(),
            unitary.multipliable(),
        ensures
            match result {
                Ok(image) => {
                    &&& self.size().0 == self.size().1
                    &&& !self.vanishes()
                    &&& unitary.shape == self.size()
                    &&& unitary.stays_finite(Change::Conjugate)
                    &&& unitary.matrix().rewritten(true, Change::Conjugate).multiplies_finitely(
                        unitary.matrix(),
                    )
                    &&& image.size() == self.size()
                    &&& image.built() matches TimedAction::Rotated(inner, turned, mirrored)
                    &&& inner == *self
                    &&& turned.wf() && turned.shape == unitary.shape && turned.matrix()
                        == unitary.matrix()
                    &&& mirrored.wf() && mirrored.shape == unitary.shape && mirrored.matrix()
                        == unitary.matrix().rewritten(true, Change::Conjugate)
                    &&& mirrored.matrix().times(unitary.matrix()).near_identity(tolerance)
                },
                Err(QmbedError::DimensionMismatch(_)) => self.size().0 != self.size().1
                    || unitary.shape != self.size() || self.vanishes(),
                Err(QmbedError::InvalidOptions(_)) => !unitary.matrix().rewritten(
                    true,
                    Change::Conjugate,
                ).times(unitary.matrix()).near_identity(tolerance),
                Err(QmbedError::InvalidCoupling(_)) => !(unitary.stays_finite(Change::Conjugate)
                    && unitary.matrix().rewritten(true, Change::Conjugate).multiplies_finitely(
                    unitary.matrix(),
                )),
                Err(_) => false,
            },
    {
        if self.shape.0 != self.shape.1 || unitary.shape.0 != self.shape.0 || unitary.shape.1
            != self.shape.1 {
            return Err(
                QmbedError::DimensionMismatch(
                    "time-dependent rotation needs equal square shapes".to_string(),
                ),
            );
        }
        let mirrored: Operator<V> = match unitary.unitary_adjoint(tolerance) {
            Ok(matrix) => matrix,
            Err(error) => {
                return Err(error);
            },
        };
        let turned: Operator<V> = unitary.duplicate();
        proof {
            assert forall|row: int, column: int| #[trigger]
                (turned.matrix().cells)(row, column) == (unitary.matrix().cells)(row, column) by {
                if unitary.inside(row, column) {
                    assert(turned.entry(row, column) == unitary.entry(row, column));
                }
            }
            assert(turned.matrix().cells =~= unitary.matrix().cells);
        }
        Self::of(self.shape, TimedAction::Rotated(self.share(), turned, mirrored))
    }

    /// Replaces the output by the image of the input at a moment.
    fn run<T: Moment>(&self, time: T, input: &[V], output: &mut [V]) -> (result: Result<()>) where
        O: TimeDependentOperator<T, V>,

        requires
            self.sound::<T>(),
        ensures
            final(output)@.len() == old(output)@.len(),
            match result {
                Ok(()) => {
                    &&& input@.len() == self.size().1
                    &&& old(output)@.len() == self.size().0
                    &&& self.maps(time, input@) == Some(final(output)@)
                },
                Err(error) => if !time.settled_time() {
                    error is InvalidOptions
                } else if input@.len() != self.size().1 || old(output)@.len() != self.size().0 {
                    error is DimensionMismatch
                } else {
                    self.maps(time, input@) is None && self.refuses(time, input@, error)
                },
            },
        decreases self,
    {
        if !time.is_settled() {
            return Err(
                QmbedError::InvalidOptions(
                    "time-dependent operator time must be finite".to_string(),
                ),
            );
        }
        if input.len() != self.shape.1 || output.len() != self.shape.0 {
            return Err(
                QmbedError::DimensionMismatch(
                    "vectors do not match the shape of the operator".to_string(),
                ),
            );
        }
        let length: usize = output.len();
        match &*self.action {
            TimedAction::Given(operator) => operator.apply_at(time, input, output),
            TimedAction::Scaled(inner, factor) => {
                match inner.run(time, input, output) {
                    Ok(()) => {},
                    Err(error) => {
                        return Err(error);
                    },
                }
                let ghost image = output@;
                let mut index: usize = 0;
                while index < length
                    invariant
                        index <= length,
                        output@.len() == length,
                        old(output)@.len() == length,
                        image.len() == length,
                        forall|i: int|
                            0 <= i < index ==> #[trigger] output@[i] == image[i].product(*factor),
                        forall|i: int| index <= i < length ==> #[trigger] output@[i] == image[i],
                    decreases length - index,
                {
                    let value: V = output[index].times(*factor);
                    output[index] = value;
                    index = index + 1;
                }
                assert(output@ =~= scaled_components(image, *factor));
                Ok(())
            },
            TimedAction::Sum(left, right) => {
                match left.run(time, input, output) {
                    Ok(()) => {},
                    Err(error) => {
                        return Err(error);
                    },
                }
                let mut second: Vec<V> = operator::zeros(length);
                match right.run(time, input, second.as_mut_slice()) {
                    Ok(()) => {},
                    Err(error) => {
                        return Err(error);
                    },
                }
                let ghost first = output@;
                let mut index: usize = 0;
                while index < length
                    invariant
                        index <= length,
                        output@.len() == length,
                        old(output)@.len() == length,
                        first.len() == length,
                        second@.len() == length,
                        forall|i: int|
                            0 <= i < index ==> #[trigger] output@[i] == first[i].sum(second@[i]),
                        forall|i: int| index <= i < length ==> #[trigger] output@[i] == first[i],
                    decreases length - index,
                {
                    let value: V = output[index].plus(second[index]);
                    output[index] = value;
                    index = index + 1;
                }
                assert(output@ =~= added_components(first, second@));
                Ok(())
            },
            TimedAction::Product(left, right) => {
                let mut middle: Vec<V> = operator::zeros(right.shape.0);
                match right.run(time, input, middle.as_mut_slice()) {
                    Ok(()) => {},
                    Err(error) => {
                        return Err(error);
                    },
                }
                left.run(time, middle.as_slice(), output)
            },
            TimedAction::Identity => {
                let mut index: usize = 0;
                while index < length
                    invariant
                        index <= length,
                        output@.len() == length,
                        old(output)@.len() == length,
                        input@.len() == length,
                        forall|i: int| 0 <= i < index ==> #[trigger] output@[i] == input@[i],
                    decreases length - index,
                {
                    output[index] = input[index];
                    index = index + 1;
                }
                assert(output@ =~= input@);
                Ok(())
            },
            TimedAction::Rotated(inner, unitary, mirrored) => {
                let mut turned: Vec<V> = operator::zeros(length);
                match unitary.apply(input, turned.as_mut_slice()) {
                    Ok(()) => {},
                    Err(error) => {
                        assert(false);
                        return Err(error);
                    },
                }
                let mut middle: Vec<V> = operator::zeros(length);
                match inner.run(time, turned.as_slice(), middle.as_mut_slice()) {
                    Ok(()) => {},
                    Err(error) => {
                        return Err(error);
                    },
                }
                mirrored.apply(middle.as_slice(), output)
            },
        }
    }
}

/// The map is the product of two others.
pub open spec fn is_product<O, V: Scalar>(
    left: TimeOperator<O, V>,
    right: TimeOperator<O, V>,
    product: TimeOperator<O, V>,
) -> bool {
    &&& left.size().1 == right.size().0
    &&& product.size() == (left.size().0, right.size().1)
    &&& product.built() == TimedAction::Product(left, right)
}

/// The map is the difference of two others.
pub open spec fn is_difference<O, V: Scalar>(
    left: TimeOperator<O, V>,
    right: TimeOperator<O, V>,
    difference: TimeOperator<O, V>,
) -> bool {
    &&& difference.size() == left.size()
    &&& difference.built() matches TimedAction::Sum(first, negative)
    &&& first == left
    &&& negative.size() == right.size()
    &&& negative.built() == TimedAction::Scaled(right, V::minus_one_value())
}

/// The map is a power of another.
pub open spec fn is_power<O, V: Scalar>(
    base: TimeOperator<O, V>,
    exponent: nat,
    power: TimeOperator<O, V>,
) -> bool
    decreases exponent,
{
    if exponent == 0 {
        power.size() == base.size() && power.built() == TimedAction::<O, V>::Identity
    } else if exponent == 1 {
        power == base
    } else {
        exists|before: TimeOperator<O, V>| #[trigger]
            is_product(before, base, power) && is_power(base, (exponent - 1) as nat, before)
    }
}

impl<T: Moment, V: Scalar, O: TimeDependentOperator<T, V>> TimeDependentOperator<
    T,
    V,
> for TimeOperator<O, V> {
    open spec fn usable(&self) -> bool {
        self.sound::<T>()
    }

    open spec fn extent(&self) -> (usize, usize) {
        self.size()
    }

    open spec fn maps_at(&self, time: T, input: Seq<V>) -> Option<Seq<V>> {
        self.maps(time, input)
    }

    open spec fn refuses_at(&self, time: T, input: Seq<V>, error: QmbedError) -> bool {
        self.refuses(time, input, error)
    }

    fn shape(&self) -> (shape: (usize, usize)) {
        self.shape
    }

    fn apply_at(&self, time: T, input: &[V], output: &mut [V]) -> (result: Result<()>) {
        self.run(time, input, output)
    }
}

/// At every moment the commutator of two maps sends a vector to the difference of its
/// images under the two products, and the anticommutator to their sum.
pub proof fn brackets_act<T: Moment, V: Scalar, O: TimeDependentOperator<T, V>>(
    left: TimeOperator<O, V>,
    right: TimeOperator<O, V>,
    first: TimeOperator<O, V>,
    second: TimeOperator<O, V>,
    difference: TimeOperator<O, V>,
    sum: TimeOperator<O, V>,
    time: T,
    input: Seq<V>,
)
    requires
        time.settled_time(),
        is_product(left, right, first),
        is_product(right, left, second),
        is_difference(first, second, difference),
        sum.built() == TimedAction::Sum(first, second),
        right.maps(time, input) is Some,
        left.maps(time, input) is Some,
        left.maps(time, right.maps(time, input)->0) is Some,
        right.maps(time, left.maps(time, input)->0) is Some,
    ensures
        ({
            let forth = left.maps(time, right.maps(time, input)->0)->0;
            let back = right.maps(time, left.maps(time, input)->0)->0;
            &&& difference.maps(time, input) == Some(
                added_components(forth, scaled_components(back, V::minus_one_value())),
            )
            &&& sum.maps(time, input) == Some(added_components(forth, back))
        }),
{
    let negative = difference.built()->Sum_1;
    assert(first.maps(time, input) == left.maps(time, right.maps(time, input)->0));
    assert(second.maps(time, input) == right.maps(time, left.maps(time, input)->0));
    assert(negative.maps(time, input) == Some(
        scaled_components(second.maps(time, input)->0, V::minus_one_value()),
    ));
}

} // verus!
