//! Square operators that stand still or are driven in time, and square operators with a
//! diagonal correction.

use std::marker::PhantomData;
use vstd::prelude::*;
use crate::algebra::Change;
use crate::algebra;
use crate::assembly::OperatorBuilder;
use crate::basis::Basis;
use crate::combination::{Combination, Part};
use crate::combination;
use crate::error::{QmbedError, Result};
use crate::linear::LinearOperator;
use crate::operator::{MatrixFormat, Operator};
use crate::operator;
use crate::quantum;
use crate::scalar::{Amplitude, Scalar};
use crate::triplets::Triplet;
use crate::terms::{AssemblyChecks, OperatorTerm};

verus! {

/// Marks an operator that stands still.
#[derive(Clone, Copy, Debug)]
pub struct Static;

/// Marks an operator with driven parts.
#[derive(Clone, Copy, Debug)]
pub struct Dynamic;

/// A square operator and the operators that are added to it with coefficients that
/// depend on time.
pub struct Hamiltonian<V, Kind> {
    static_part: Operator<V>,
    dynamic_parts: Vec<Operator<V>>,
    marker: PhantomData<Kind>,
}

impl<V: Scalar, Kind> Hamiltonian<V, Kind> {
    pub closed spec fn still(&self) -> Operator<V> {
        self.static_part
    }

    pub closed spec fn driven(&self) -> Seq<Operator<V>> {
        self.dynamic_parts@
    }

    pub open spec fn wf(&self) -> bool {
        &&& self.still().wf()
        &&& self.still().shape.0 == self.still().shape.1
        &&& forall|i: int|
            0 <= i < self.driven().len() ==> (#[trigger] self.driven()[i]).wf()
                && self.driven()[i].shape == self.still().shape
    }
}

/// The value of an operator after a change, mirrored at the diagonal or not.
pub open spec fn rewritten_as<V: Scalar>(
    before: Operator<V>,
    transposed: bool,
    change: Change<V>,
    after: Operator<V>,
) -> bool {
    &&& after.wf()
    &&& after.shape == quantum::mirrored_shape(before.shape, transposed)
    &&& after.format == before.format
    &&& forall|row: int, column: int|
        after.inside(row, column) ==> #[trigger] after.entry(row, column) == operator::settled(
            before.format,
            algebra::rewritten(
                change,
                if transposed {
                    before.entry(column, row)
                } else {
                    before.entry(row, column)
                },
            ),
        )
}

pub(crate) fn rewrite_operator<V: Scalar>(matrix: &Operator<V>, transposed: bool, change: Change<V>) -> (result:
    Result<Operator<V>>)
    requires
        matrix.wf(),
        matrix.shape.0 == matrix.shape.1,
        operator::storable(matrix.shape.0, matrix.shape.1, matrix.format),
        change is Scale ==> !transposed,
        change is Keep ==> transposed,
    ensures
        match result {
            Ok(image) => {
                &&& algebra::admissible(change)
                &&& matrix.stays_finite(change)
                &&& rewritten_as(*matrix, transposed, change, image)
            },
            Err(QmbedError::InvalidOptions(_)) => !algebra::admissible(change),
            Err(QmbedError::InvalidCoupling(_)) => algebra::admissible(change)
                && !matrix.stays_finite(change),
            Err(_) => false,
        },
{
    match change {
        Change::Keep => matrix.transpose(),
        Change::Conjugate => if transposed {
            matrix.adjoint()
        } else {
            matrix.conjugated()
        },
        Change::Scale(coefficient) => matrix.scaled(coefficient),
    }
}

/// Every operator of the list after a change.
pub open spec fn all_rewritten<V: Scalar>(
    before: Seq<Operator<V>>,
    transposed: bool,
    change: Change<V>,
    after: Seq<Operator<V>>,
) -> bool {
    &&& after.len() == before.len()
    &&& forall|i: int|
        0 <= i < after.len() ==> rewritten_as(before[i], transposed, change, #[trigger] after[i])
}

/// The operators with rows and columns exchanged.
pub open spec fn all_transposes<V: Scalar>(before: Seq<Operator<V>>, after: Seq<Operator<V>>) -> bool {
    &&& after.len() == before.len()
    &&& forall|i: int|
        0 <= i < after.len() ==> algebra::is_transpose(&before[i], &#[trigger] after[i])
}

/// The operators with every cell conjugated.
pub open spec fn all_conjugates<V: Scalar>(before: Seq<Operator<V>>, after: Seq<Operator<V>>) -> bool {
    &&& after.len() == before.len()
    &&& forall|i: int|
        0 <= i < after.len() ==> algebra::is_conjugate(&before[i], &#[trigger] after[i])
}

/// The operators with rows and columns exchanged and conjugated.
pub open spec fn all_adjoints<V: Scalar>(before: Seq<Operator<V>>, after: Seq<Operator<V>>) -> bool {
    &&& after.len() == before.len()
    &&& forall|i: int|
        0 <= i < after.len() ==> algebra::is_adjoint(&before[i], &#[trigger] after[i])
}

impl<V: Scalar> Hamiltonian<V, Static> {
    /// An operator that stands still.
    pub fn new(operator: Operator<V>) -> (result: Result<Self>)
        requires
            operator.wf(),
        ensures
            match result {
                Ok(hamiltonian) => {
                    &&& operator.shape.0 == operator.shape.1
                    &&& hamiltonian.wf()
                    &&& hamiltonian.still() == operator
                    &&& hamiltonian.driven().len() == 0
                },
                Err(error) => error is DimensionMismatch && operator.shape.0 != operator.shape.1,
            },
    {
        if operator.shape.0 != operator.shape.1 {
            return Err(QmbedError::DimensionMismatch("a Hamiltonian must be square".to_string()));
        }
        Ok(
            Hamiltonian {
                static_part: operator,
                dynamic_parts: Vec::new(),
                marker: PhantomData,
            },
        )
    }

    pub fn operator(&self) -> (operator: &Operator<V>)
        ensures
            *operator == self.still(),
    {
        &self.static_part
    }

    fn rewrite(&self, transposed: bool, change: Change<V>) -> (result: Result<Self>)
        requires
            self.wf(),
            operator::storable(
                self.still().shape.0,
                self.still().shape.1,
                self.still().format,
            ),
            change is Scale ==> !transposed,
            change is Keep ==> transposed,
        ensures
            match result {
                Ok(image) => {
                    &&& algebra::admissible(change)
                    &&& self.still().stays_finite(change)
                    &&& image.wf()
                    &&& rewritten_as(self.still(), transposed, change, image.still())
                    &&& image.driven().len() == 0
                },
                Err(QmbedError::InvalidOptions(_)) => !algebra::admissible(change),
                Err(QmbedError::InvalidCoupling(_)) => algebra::admissible(change)
                    && !self.still().stays_finite(change),
                Err(_) => false,
            },
    {
        match rewrite_operator(&self.static_part, transposed, change) {
            Ok(operator) => Self::new(operator),
            Err(error) => Err(error),
        }
    }

    pub fn transpose(&self) -> (result: Result<Self>)
        requires
            self.wf(),
            operator::storable(
                self.still().shape.0,
                self.still().shape.1,
                self.still().format,
            ),
        ensures
            match result {
                Ok(image) => {
                    &&& self.still().stays_finite(Change::Keep)
                    &&& image.wf()
                    &&& algebra::is_transpose(&self.still(), &image.still())
                    &&& image.driven().len() == 0
                },
                Err(error) => error is InvalidCoupling && !self.still().stays_finite(Change::Keep),
            },
    {
        self.rewrite(true, Change::Keep)
    }

    pub fn conjugated(&self) -> (result: Result<Self>)
        requires
            self.wf(),
            operator::storable(
                self.still().shape.0,
                self.still().shape.1,
                self.still().format,
            ),
        ensures
            match result {
                Ok(image) => {
                    &&& self.still().stays_finite(Change::Conjugate)
                    &&& image.wf()
                    &&& algebra::is_conjugate(&self.still(), &image.still())
                    &&& image.driven().len() == 0
                },
                Err(error) => error is InvalidCoupling && !self.still().stays_finite(
                    Change::Conjugate,
                ),
            },
    {
        self.rewrite(false, Change::Conjugate)
    }

    pub fn adjoint(&self) -> (result: Result<Self>)
        requires
            self.wf(),
            operator::storable(
                self.still().shape.0,
                self.still().shape.1,
                self.still().format,
            ),
        ensures
            match result {
                Ok(image) => {
                    &&& self.still().stays_finite(Change::Conjugate)
                    &&& image.wf()
                    &&& algebra::is_adjoint(&self.still(), &image.still())
                    &&& image.driven().len() == 0
                },
                Err(error) => error is InvalidCoupling && !self.still().stays_finite(
                    Change::Conjugate,
                ),
            },
    {
        self.rewrite(true, Change::Conjugate)
    }

    pub fn scaled(&self, coefficient: V) -> (result: Result<Self>)
        requires
            self.wf(),
            operator::storable(
                self.still().shape.0,
                self.still().shape.1,
                self.still().format,
            ),
        ensures
            match result {
                Ok(image) => {
                    &&& coefficient.proper()
                    &&& self.still().stays_finite(Change::Scale(coefficient))
                    &&& image.wf()
                    &&& algebra::is_multiple(&self.still(), coefficient, &image.still())
                    &&& image.driven().len() == 0
                },
                Err(QmbedError::InvalidOptions(_)) => !coefficient.proper(),
                Err(QmbedError::InvalidCoupling(_)) => coefficient.proper()
                    && !self.still().stays_finite(Change::Scale(coefficient)),
                Err(_) => false,
            },
    {
        self.rewrite(false, Change::Scale(coefficient))
    }
}

impl<V: Scalar> LinearOperator<V> for Hamiltonian<V, Static> {
    open spec fn usable(&self) -> bool {
        self.wf()
    }

    open spec fn extent(&self) -> (usize, usize) {
        self.still().shape
    }

    open spec fn maps(&self, input: Seq<V>) -> Option<Seq<V>> {
        Some(self.still().image(input))
    }

    open spec fn maps_back(&self, input: Seq<V>) -> Option<Seq<V>> {
        Some(self.still().transposed_image(input))
    }

    open spec fn stored_as(&self) -> MatrixFormat {
        self.still().format
    }

    open spec fn offers(&self, entries: Option<Seq<Triplet<V>>>) -> bool {
        entries matches Some(list) && self.still().spelled(list)
    }

    open spec fn refuses(&self, input: Seq<V>, error: QmbedError) -> bool {
        false
    }

    open spec fn refuses_back(&self, input: Seq<V>, error: QmbedError) -> bool {
        false
    }

    open spec fn withholds(&self, error: QmbedError) -> bool {
        false
    }

    fn stored_triplets(&self) -> (result: Result<Option<Vec<Triplet<V>>>>) {
        Ok(Some(self.static_part.triplets()))
    }

    fn shape(&self) -> (shape: (usize, usize)) {
        self.static_part.shape
    }

    fn format(&self) -> (format: MatrixFormat) {
        self.static_part.format
    }

    fn apply(&self, input: &[V], output: &mut [V]) -> (result: Result<()>) {
        self.static_part.apply(input, output)
    }

    fn apply_transpose(&self, input: &[V], output: &mut [V]) -> (result: Result<()>) {
        self.static_part.apply_transpose(input, output)
    }
}

/// The image of a vector after the first driven parts have been added.
pub open spec fn driven_image<V: Scalar>(
    still: Operator<V>,
    parts: Seq<Operator<V>>,
    coefficients: Seq<V>,
    input: Seq<V>,
    upto: nat,
) -> Seq<V>
    decreases upto,
{
    if upto == 0 {
        still.image(input)
    } else {
        let before = driven_image(still, parts, coefficients, input, (upto - 1) as nat);
        let added = parts[upto - 1].image(input);
        Seq::new(
            before.len(),
            |i: int| before[i].sum(coefficients[upto - 1].product(added[i])),
        )
    }
}

/// All coefficients are finite.
pub open spec fn all_proper<V: Scalar>(coefficients: Seq<V>) -> bool {
    forall|i: int| 0 <= i < coefficients.len() ==> (#[trigger] coefficients[i]).proper()
}

impl<V: Scalar> Hamiltonian<V, Dynamic> {
    /// An operator with driven parts of the same shape.
    pub fn new(static_part: Operator<V>, dynamic_parts: Vec<Operator<V>>) -> (result: Result<Self>)
        requires
            static_part.wf(),
            forall|i: int|
                0 <= i < dynamic_parts@.len() ==> (#[trigger] dynamic_parts@[i]).wf(),
        ensures
            match result {
                Ok(hamiltonian) => {
                    &&& hamiltonian.wf()
                    &&& hamiltonian.still() == static_part
                    &&& hamiltonian.driven() == dynamic_parts@
                },
                Err(error) => error is DimensionMismatch && (static_part.shape.0
                    != static_part.shape.1 || exists|i: int|
                    0 <= i < dynamic_parts@.len() && (#[trigger] dynamic_parts@[i]).shape
                        != static_part.shape),
            },
    {
        let shape: (usize, usize) = static_part.shape;
        let mut equal: bool = shape.0 == shape.1;
        let mut index: usize = 0;
        while index < dynamic_parts.len()
            invariant
                index <= dynamic_parts@.len(),
                shape == static_part.shape,
                equal == (shape.0 == shape.1 && forall|i: int|
                    0 <= i < index ==> (#[trigger] dynamic_parts@[i]).shape == shape),
            decreases dynamic_parts@.len() - index,
        {
            let (rows, columns): (usize, usize) = dynamic_parts[index].shape;
            if rows != shape.0 || columns != shape.1 {
                assert(dynamic_parts@[index as int].shape != shape);
                equal = false;
            }
            index = index + 1;
        }
        if !equal {
            return Err(
                QmbedError::DimensionMismatch(
                    "all Hamiltonian components must share one square shape".to_string(),
                ),
            );
        }
        Ok(Hamiltonian { static_part, dynamic_parts, marker: PhantomData })
    }

    /// The number of driven parts.
    pub fn dynamic_components(&self) -> (count: usize)
        ensures
            count == self.driven().len(),
    {
        self.dynamic_parts.len()
    }

    pub fn static_part(&self) -> (operator: &Operator<V>)
        ensures
            *operator == self.still(),
    {
        &self.static_part
    }

    /// The operators at a moment: the one that stands still, and the others with the
    /// values of their drives.
    pub open spec fn parts_at(&self, coefficients: Seq<V>) -> Seq<Part<V>> {
        seq![Part { change: Change::Keep, matrix: self.still() }] + Seq::new(
            self.driven().len(),
            |i: int| Part { change: Change::Scale(coefficients[i]), matrix: self.driven()[i] },
        )
    }

    /// The operator at a moment, from the values of the drives.
    pub fn evaluate(&self, coefficients: &[V], format: MatrixFormat) -> (result: Result<
        Operator<V>,
    >)
        requires
            self.wf(),
            coefficients@.len() == self.driven().len(),
            operator::storable(self.still().shape.0, self.still().shape.1, format),
        ensures
            match result {
                Ok(matrix) => {
                    &&& all_proper(coefficients@)
                    &&& combination::sums_up(
                        &matrix,
                        self.still().shape,
                        format,
                        self.parts_at(coefficients@),
                    )
                },
                Err(error) => if !all_proper(coefficients@) {
                    error is InvalidOptions
                } else {
                    error is InvalidCoupling && !combination::finite_parts(
                        self.parts_at(coefficients@),
                    )
                },
            },
    {
        let ghost whole = self.parts_at(coefficients@);
        let mut sum: Combination<V> = Combination::new(
            self.static_part.shape.0,
            self.static_part.shape.1,
        );
        sum.append(&self.static_part, Change::Keep);
        assert(sum.parts() =~= whole.take(1));
        let mut index: usize = 0;
        while index < self.dynamic_parts.len()
            invariant
                self.wf(),
                coefficients@.len() == self.driven().len(),
                whole == self.parts_at(coefficients@),
                index <= self.driven().len(),
                sum.wf(),
                sum.shape() == self.still().shape,
                sum.parts() == whole.take(index + 1),
                forall|i: int| 0 <= i < index ==> (#[trigger] coefficients@[i]).proper(),
            decreases self.dynamic_parts@.len() - index,
        {
            let coefficient: V = coefficients[index];
            if !coefficient.is_finite() {
                assert(!coefficients@[index as int].proper());
                return Err(not_finite());
            }
            assert(self.driven()[index as int].wf());
            sum.append(&self.dynamic_parts[index], Change::Scale(coefficient));
            assert(whole.take(index + 2) =~= whole.take(index + 1).push(whole[index + 1]));
            index = index + 1;
        }
        assert(whole.take(index + 1) =~= whole);
        sum.finish(format)
    }

    /// The image of a vector at a moment.
    pub open spec fn image_at(&self, coefficients: Seq<V>, input: Seq<V>) -> Seq<V> {
        driven_image(self.still(), self.driven(), coefficients, input, self.driven().len())
    }

    /// Replaces the output by the image of the input at a moment, from the values of the
    /// drives.
    pub fn apply_at(&self, coefficients: &[V], input: &[V], output: &mut [V]) -> (result: Result<
        (),
    >)
        requires
            self.wf(),
            coefficients@.len() == self.driven().len(),
        ensures
            final(output)@.len() == old(output)@.len(),
            match result {
                Ok(()) => {
                    &&& input@.len() == self.still().shape.1
                    &&& old(output)@.len() == self.still().shape.0
                    &&& all_proper(coefficients@)
                    &&& final(output)@ == self.image_at(coefficients@, input@)
                },
                Err(error) => if input@.len() != self.still().shape.1 || old(output)@.len()
                    != self.still().shape.0 {
                    error is DimensionMismatch
                } else {
                    error is InvalidOptions && !all_proper(coefficients@)
                },
            },
    {
        let length: usize = output.len();
        match self.static_part.apply(input, output) {
            Ok(()) => {},
            Err(error) => {
                return Err(error);
            },
        }
        let mut index: usize = 0;
        while index < self.dynamic_parts.len()
            invariant
                self.wf(),
                coefficients@.len() == self.driven().len(),
                input@.len() == self.still().shape.1,
                length == self.still().shape.0,
                old(output)@.len() == length,
                output@.len() == length,
                index <= self.driven().len(),
                output@ == driven_image(
                    self.still(),
                    self.driven(),
                    coefficients@,
                    input@,
                    index as nat,
                ),
                forall|i: int| 0 <= i < index ==> (#[trigger] coefficients@[i]).proper(),
            decreases self.dynamic_parts@.len() - index,
        {
            let coefficient: V = coefficients[index];
            if !coefficient.is_finite() {
                assert(!coefficients@[index as int].proper());
                return Err(not_finite());
            }
            assert(self.driven()[index as int].wf());
            let mut added: Vec<V> = operator::zeros(length);
            match self.dynamic_parts[index].apply(input, added.as_mut_slice()) {
                Ok(()) => {},
                Err(error) => {
                    assert(false);
                    return Err(error);
                },
            }
            let ghost before = output@;
            let mut at: usize = 0;
            while at < length
                invariant
                    at <= length,
                    output@.len() == length,
                    before.len() == length,
                    added@.len() == length,
                    forall|i: int|
                        0 <= i < at ==> #[trigger] output@[i] == before[i].sum(
                            coefficient.product(added@[i]),
                        ),
                    forall|i: int| at <= i < length ==> #[trigger] output@[i] == before[i],
                decreases length - at,
            {
                let value: V = output[at].plus(coefficient.times(added[at]));
                output[at] = value;
                at = at + 1;
            }
            assert(output@ =~= driven_image(
                self.still(),
                self.driven(),
                coefficients@,
                input@,
                (index + 1) as nat,
            ));
            index = index + 1;
        }
        Ok(())
    }

    /// Every operator can be stored.
    pub open spec fn storable(&self) -> bool {
        &&& operator::storable(
            self.still().shape.0,
            self.still().shape.1,
            self.still().format,
        )
        &&& forall|i: int|
            0 <= i < self.driven().len() ==> operator::storable(
                self.still().shape.0,
                self.still().shape.1,
                (#[trigger] self.driven()[i]).format,
            )
    }

    /// Some operator does not stay finite under the change.
    pub open spec fn overflows(&self, change: Change<V>) -> bool {
        !self.still().stays_finite(change) || exists|i: int|
            0 <= i < self.driven().len() && !(#[trigger] self.driven()[i]).stays_finite(change)
    }

    fn rewrite(&self, transposed: bool, change: Change<V>) -> (result: Result<Self>)
        requires
            self.wf(),
            self.storable(),
            !(change is Scale),
            change is Keep ==> transposed,
        ensures
            match result {
                Ok(image) => {
                    &&& !self.overflows(change)
                    &&& image.wf()
                    &&& rewritten_as(self.still(), transposed, change, image.still())
                    &&& all_rewritten(self.driven(), transposed, change, image.driven())
                },
                Err(error) => error is InvalidCoupling && self.overflows(change),
            },
    {
        let still: Operator<V> = match rewrite_operator(&self.static_part, transposed, change) {
            Ok(operator) => operator,
            Err(error) => {
                return Err(error);
            },
        };
        let mut list: Vec<Operator<V>> = Vec::new();
        while list.len() < self.dynamic_parts.len()
            invariant
                self.wf(),
                self.storable(),
                !(change is Scale),
                change is Keep ==> transposed,
                list@.len() <= self.driven().len(),
                forall|i: int|
                    0 <= i < list@.len() ==> rewritten_as(
                        self.driven()[i],
                        transposed,
                        change,
                        #[trigger] list@[i],
                    ) && self.driven()[i].stays_finite(change),
            decreases self.dynamic_parts@.len() - list@.len(),
        {
            let ghost at = list@.len() as int;
            assert(self.driven()[at].wf());
            match rewrite_operator(&self.dynamic_parts[list.len()], transposed, change) {
                Ok(operator) => {
                    list.push(operator);
                },
                Err(error) => {
                    assert(!self.driven()[at].stays_finite(change));
                    return Err(error);
                },
            }
        }
        proof {
            assert forall|i: int| 0 <= i < list@.len() implies (#[trigger] list@[i]).wf()
                && list@[i].shape == still.shape by {
                assert(self.driven()[i].wf());
                assert(rewritten_as(self.driven()[i], transposed, change, list@[i]));
            }
            assert forall|i: int| 0 <= i < self.driven().len() implies (
            #[trigger] self.driven()[i]).stays_finite(change) by {
                assert(rewritten_as(self.driven()[i], transposed, change, list@[i]));
            }
        }
        Self::new(still, list)
    }

    /// The operators mirrored at the diagonal; the drives stay as they are.
    pub fn transpose(&self) -> (result: Result<Self>)
        requires
            self.wf(),
            self.storable(),
        ensures
            match result {
                Ok(image) => {
                    &&& !self.overflows(Change::Keep)
                    &&& image.wf()
                    &&& algebra::is_transpose(&self.still(), &image.still())
                    &&& all_transposes(self.driven(), image.driven())
                },
                Err(error) => error is InvalidCoupling && self.overflows(Change::Keep),
            },
    {
        self.rewrite(true, Change::Keep)
    }

    /// The operators conjugated; the values of the drives have to be conjugated with
    /// them.
    pub fn conjugated(&self) -> (result: Result<Self>)
        requires
            self.wf(),
            self.storable(),
        ensures
            match result {
                Ok(image) => {
                    &&& !self.overflows(Change::Conjugate)
                    &&& image.wf()
                    &&& algebra::is_conjugate(&self.still(), &image.still())
                    &&& all_conjugates(self.driven(), image.driven())
                },
                Err(error) => error is InvalidCoupling && self.overflows(Change::Conjugate),
            },
    {
        self.rewrite(false, Change::Conjugate)
    }

    /// The conjugated operators mirrored at the diagonal; the values of the drives have
    /// to be conjugated with them.
    pub fn adjoint(&self) -> (result: Result<Self>)
        requires
            self.wf(),
            self.storable(),
        ensures
            match result {
                Ok(image) => {
                    &&& !self.overflows(Change::Conjugate)
                    &&& image.wf()
                    &&& algebra::is_adjoint(&self.still(), &image.still())
                    &&& all_adjoints(self.driven(), image.driven())
                },
                Err(error) => error is InvalidCoupling && self.overflows(Change::Conjugate),
            },
    {
        self.rewrite(true, Change::Conjugate)
    }

    /// The operator that stands still multiplied by a number; the values of the drives
    /// have to be multiplied with it.
    pub fn scaled(&self, coefficient: V) -> (result: Result<Self>)
        requires
            self.wf(),
            self.storable(),
        ensures
            match result {
                Ok(image) => {
                    &&& coefficient.proper()
                    &&& self.still().stays_finite(Change::Scale(coefficient))
                    &&& image.wf()
                    &&& algebra::is_multiple(&self.still(), coefficient, &image.still())
                    &&& image.driven().len() == self.driven().len()
                    &&& forall|i: int|
                        0 <= i < image.driven().len() ==> quantum::alike(
                            #[trigger] image.driven()[i],
                            self.driven()[i],
                        )
                },
                Err(QmbedError::InvalidOptions(_)) => !coefficient.proper(),
                Err(QmbedError::InvalidCoupling(_)) => coefficient.proper()
                    && !self.still().stays_finite(Change::Scale(coefficient)),
                Err(_) => false,
            },
    {
        let still: Operator<V> = match rewrite_operator(
            &self.static_part,
            false,
            Change::Scale(coefficient),
        ) {
            Ok(operator) => operator,
            Err(error) => {
                return Err(error);
            },
        };
        let mut list: Vec<Operator<V>> = Vec::new();
        while list.len() < self.dynamic_parts.len()
            invariant
                self.wf(),
                list@.len() <= self.driven().len(),
                forall|i: int|
                    0 <= i < list@.len() ==> (#[trigger] list@[i]).wf() && quantum::alike(
                        list@[i],
                        self.driven()[i],
                    ),
            decreases self.dynamic_parts@.len() - list@.len(),
        {
            assert(self.driven()[list@.len() as int].wf());
            list.push(self.dynamic_parts[list.len()].duplicate());
        }
        proof {
            assert forall|i: int| 0 <= i < list@.len() implies (#[trigger] list@[i]).shape
                == still.shape by {
                assert(self.driven()[i].wf());
            }
        }
        Self::new(still, list)
    }
}

fn not_finite() -> (error: QmbedError)
    ensures
        error is InvalidOptions,
{
    QmbedError::InvalidOptions("drive time and coefficient must be finite".to_string())
}

/// The builder of one driven part: the same bases, one term, no check of Hermiticity.
pub open spec fn component_of<V: Amplitude, S: Basis, T: Basis<State = S::State>>(
    builder: OperatorBuilder<V, S, T>,
    term: OperatorTerm<V>,
    component: OperatorBuilder<V, S, T>,
) -> bool {
    &&& component.source == builder.source
    &&& component.target == builder.target
    &&& component.terms@ == seq![term]
    &&& component.checks == (AssemblyChecks { hermiticity: false, ..builder.checks })
}

/// The operator is the driven part of a term.
pub open spec fn part_assembled<V: Amplitude, S: Basis, T: Basis<State = S::State>>(
    builder: OperatorBuilder<V, S, T>,
    term: OperatorTerm<V>,
    format: MatrixFormat,
    result: Result<Operator<V>>,
) -> bool {
    exists|component: OperatorBuilder<V, S, T>| #[trigger]
        component_of(builder, term, component) && component.answers(format, result)
}

impl<
    'a,
    V: Amplitude,
    Source: Basis,
    Target: Basis<State = Source::State>,
> OperatorBuilder<'a, V, Source, Target> {
    /// Assembles the terms that stand still into one operator, and each driven term into
    /// one of its own.
    pub fn build_dynamic(self, driven: Vec<OperatorTerm<V>>, format: MatrixFormat) -> (result: Result<
        Hamiltonian<V, Dynamic>,
    >)
        requires
            self.ready(),
            forall|i: int|
                0 <= i < driven@.len() ==> (#[trigger] driven@[i]).wf()
                    && driven@[i].factors().operators().len() < i32::MAX,
            self.target.listed().len() <= usize::MAX,
            self.source.listed().len() <= usize::MAX,
            operator::storable(
                self.target.listed().len() as usize,
                self.source.listed().len() as usize,
                format,
            ),
        ensures
            match result {
                Ok(hamiltonian) => {
                    &&& hamiltonian.wf()
                    &&& self.source.listed().len() == self.target.listed().len()
                    &&& self.answers(format, Ok(hamiltonian.still()))
                    &&& hamiltonian.driven().len() == driven@.len()
                    &&& forall|i: int|
                        0 <= i < driven@.len() ==> part_assembled(
                            self,
                            driven@[i],
                            format,
                            Ok(#[trigger] hamiltonian.driven()[i]),
                        )
                },
                Err(error) => if self.source.listed().len() != self.target.listed().len() {
                    error is DimensionMismatch
                } else {
                    self.answers(format, Err(error)) || exists|i: int|
                        0 <= i < driven@.len() && part_assembled(
                            self,
                            #[trigger] driven@[i],
                            format,
                            Err(error),
                        )
                },
            },
    {
        if self.source.len() != self.target.len() {
            return Err(QmbedError::DimensionMismatch("a Hamiltonian must be square".to_string()));
        }
        let still: Operator<V> = match self.assemble(format) {
            Ok(operator) => operator,
            Err(error) => {
                return Err(error);
            },
        };
        let ghost all = driven@;
        let checks: AssemblyChecks = AssemblyChecks {
            hermiticity: false,
            particle_conservation: self.checks.particle_conservation,
            symmetry_compatibility: self.checks.symmetry_compatibility,
        };
        let mut forward: Vec<OperatorTerm<V>> = driven;
        let mut backward: Vec<OperatorTerm<V>> = Vec::new();
        while forward.len() > 0
            invariant
                forward@ == all.take(forward@.len() as int),
                forward@.len() + backward@.len() == all.len(),
                forall|i: int|
                    0 <= i < backward@.len() ==> #[trigger] backward@[i] == all[all.len() - 1 - i],
            decreases forward@.len(),
        {
            let ghost before = forward@;
            if let Some(term) = forward.pop() {
                assert(term == all[before.len() - 1]);
                backward.push(term);
            }
            assert(forward@ =~= all.take(forward@.len() as int));
        }
        let mut list: Vec<Operator<V>> = Vec::new();
        while backward.len() > 0
            invariant
                self.ready(),
                all == driven@,
                self.source.listed().len() == self.target.listed().len(),
                self.target.listed().len() <= usize::MAX,
                operator::storable(
                    self.target.listed().len() as usize,
                    self.source.listed().len() as usize,
                    format,
                ),
                checks == (AssemblyChecks { hermiticity: false, ..self.checks }),
                still.wf(),
                self.answers(format, Ok(still)),
                forall|i: int|
                    0 <= i < all.len() ==> (#[trigger] all[i]).wf()
                        && all[i].factors().operators().len() < i32::MAX,
                backward@.len() + list@.len() == all.len(),
                forall|i: int|
                    0 <= i < backward@.len() ==> #[trigger] backward@[i] == all[all.len() - 1 - i],
                forall|i: int|
                    0 <= i < list@.len() ==> (#[trigger] list@[i]).wf() && list@[i].shape
                        == still.shape && part_assembled(self, all[i], format, Ok(list@[i])),
            decreases backward@.len(),
        {
            let ghost place = list@.len() as int;
            if let Some(term) = backward.pop() {
                assert(term == all[place]);
                let mut terms: Vec<OperatorTerm<V>> = Vec::new();
                terms.push(term);
                let component: OperatorBuilder<V, Source, Target> = OperatorBuilder {
                    source: self.source,
                    target: self.target,
                    terms,
                    checks,
                };
                proof {
                    assert(component.terms@ =~= seq![term]);
                    assert(component_of(self, all[place], component));
                    assert(component.terms@[0] == all[place]);
                }
                let result: Result<Operator<V>> = component.assemble(format);
                assert(part_assembled(self, all[place], format, result));
                match result {
                    Ok(operator) => {
                        assert(operator.shape == still.shape);
                        list.push(operator);
                    },
                    Err(error) => {
                        return Err(error);
                    },
                }
            }
        }
        Hamiltonian::<V, Dynamic>::new(still, list)
    }
}

} // verus!
