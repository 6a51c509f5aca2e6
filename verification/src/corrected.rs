//! Square operators with a diagonal correction that can be replaced.

use vstd::prelude::*;
use crate::action;
use crate::algebra::Change;
use crate::algebra;
use crate::error::{QmbedError, Result};
use crate::hamiltonian;
use crate::inspection;
use crate::linear::LinearOperator;
use crate::operator::{MatrixFormat, Operator};
use crate::operator;
use crate::scalar::Scalar;
use crate::triplets::Triplet;
use crate::triplets;

verus! {

/// A square operator and the values that are added to its diagonal.
pub struct QuantumLinearOperator<V> {
    operator: Operator<V>,
    diagonal: Vec<V>,
}

/// The components of an image with the diagonal correction added.
pub open spec fn corrected<V: Scalar>(image: Seq<V>, diagonal: Seq<V>, input: Seq<V>) -> Seq<V> {
    Seq::new(image.len(), |i: int| image[i].sum(diagonal[i].product(input[i])))
}

/// What stands in a place of the matrix, what counts as zero left out.
pub open spec fn place_values<V: Scalar>(
    matrix: &Operator<V>,
    diagonal: Seq<V>,
    row: int,
    column: int,
) -> Seq<V> {
    let first = if matrix.entry(row, column).tiny() {
        Seq::<V>::empty()
    } else {
        seq![matrix.entry(row, column)]
    };
    if row == column && !diagonal[row].tiny() {
        first.push(diagonal[row])
    } else {
        first
    }
}

/// The entries of a diagonal that do not count as zero.
spec fn diagonal_entries<V: Scalar>(diagonal: Seq<V>, upto: nat) -> Seq<Triplet<V>>
    decreases upto,
{
    if upto == 0 {
        Seq::empty()
    } else {
        let front = diagonal_entries(diagonal, (upto - 1) as nat);
        let value = diagonal[upto - 1];
        if value.tiny() {
            front
        } else {
            front.push(Triplet { row: (upto - 1) as usize, column: (upto - 1) as usize, value })
        }
    }
}

proof fn lemma_diagonal_entries<V: Scalar>(diagonal: Seq<V>, upto: nat, row: int, column: int)
    requires
        upto <= diagonal.len(),
        diagonal.len() <= usize::MAX,
        0 <= row,
        0 <= column,
    ensures
        triplets::values_at(diagonal_entries(diagonal, upto), row, column) == (if row == column
            && row < upto && !diagonal[row].tiny() {
            seq![diagonal[row]]
        } else {
            Seq::<V>::empty()
        }),
        forall|i: int|
            0 <= i < diagonal_entries(diagonal, upto).len() ==> (#[trigger] diagonal_entries(
                diagonal,
                upto,
            )[i]).row < upto && diagonal_entries(diagonal, upto)[i].column < upto
                && diagonal_entries(diagonal, upto)[i].value == diagonal[diagonal_entries(
                diagonal,
                upto,
            )[i].row as int],
    decreases upto,
{
    if upto > 0 {
        lemma_diagonal_entries(diagonal, (upto - 1) as nat, row, column);
        let front = diagonal_entries(diagonal, (upto - 1) as nat);
        let list = diagonal_entries(diagonal, upto);
        if !diagonal[upto - 1].tiny() {
            assert(list.drop_last() =~= front);
            assert forall|i: int| 0 <= i < list.len() implies (#[trigger] list[i]).row < upto
                && list[i].column < upto && list[i].value == diagonal[list[i].row as int] by {
                if i < front.len() {
                    assert(list[i] == front[i]);
                }
            }
            if row == column && row == upto - 1 {
                assert(triplets::values_at(list, row, column) =~= seq![diagonal[row]]);
            }
        }
    }
}

impl<V: Scalar> QuantumLinearOperator<V> {
    pub closed spec fn matrix(&self) -> Operator<V> {
        self.operator
    }

    pub closed spec fn correction(&self) -> Seq<V> {
        self.diagonal@
    }

    pub open spec fn wf(&self) -> bool {
        &&& self.matrix().wf()
        &&& self.matrix().shape.0 == self.matrix().shape.1
        &&& self.correction().len() == self.matrix().shape.0
        &&& hamiltonian::all_proper(self.correction())
    }

    pub fn new(operator: Operator<V>, diagonal: Vec<V>) -> (result: Result<Self>)
        requires
            operator.wf(),
        ensures
            match result {
                Ok(image) => image.wf() && image.matrix() == operator && image.correction()
                    == diagonal@,
                Err(error) => if operator.shape.0 != operator.shape.1 || diagonal@.len()
                    != operator.shape.0 {
                    error is DimensionMismatch
                } else {
                    error is InvalidOptions && !hamiltonian::all_proper(diagonal@)
                },
            },
    {
        if operator.shape.0 != operator.shape.1 || diagonal.len() != operator.shape.0 {
            return Err(
                QmbedError::DimensionMismatch(
                    "QuantumLinearOperator needs a square operator and one diagonal value per row".to_string(),
                ),
            );
        }
        if !finite_all(&diagonal) {
            return Err(
                QmbedError::InvalidOptions(
                    "QuantumLinearOperator diagonal values must be finite".to_string(),
                ),
            );
        }
        Ok(QuantumLinearOperator { operator, diagonal })
    }

    /// No correction yet.
    pub fn from_operator(operator: Operator<V>) -> (result: Result<Self>)
        requires
            operator.wf(),
            V::zero_value().proper(),
        ensures
            match result {
                Ok(image) => image.wf() && image.matrix() == operator && forall|i: int|
                    0 <= i < image.correction().len() ==> #[trigger] image.correction()[i]
                        == V::zero_value(),
                Err(error) => error is DimensionMismatch && operator.shape.0 != operator.shape.1,
            },
    {
        let diagonal: Vec<V> = operator::zeros(operator.shape.0);
        Self::new(operator, diagonal)
    }

    pub fn operator(&self) -> (operator: &Operator<V>)
        ensures
            *operator == self.matrix(),
    {
        &self.operator
    }

    pub fn diagonal_correction(&self) -> (diagonal: &[V])
        ensures
            diagonal@ == self.correction(),
    {
        self.diagonal.as_slice()
    }

    /// Replaces the correction.
    pub fn set_diagonal(&mut self, diagonal: Vec<V>) -> (result: Result<()>)
        requires
            old(self).wf(),
        ensures
            final(self).wf(),
            final(self).matrix() == old(self).matrix(),
            match result {
                Ok(()) => final(self).correction() == diagonal@,
                Err(error) => {
                    &&& error is DimensionMismatch
                    &&& diagonal@.len() != old(self).correction().len()
                        || !hamiltonian::all_proper(diagonal@)
                    &&& final(self).correction() == old(self).correction()
                },
            },
    {
        if diagonal.len() != self.diagonal.len() || !finite_all(&diagonal) {
            return Err(
                QmbedError::DimensionMismatch(
                    "replacement diagonal has the wrong length or non-finite values".to_string(),
                ),
            );
        }
        self.diagonal = diagonal;
        Ok(())
    }

    /// The matrix holds the sums of the operator and its correction.
    pub open spec fn totals(&self, whole: &Operator<V>, format: MatrixFormat) -> bool {
        &&& whole.wf()
        &&& whole.shape == self.matrix().shape
        &&& whole.format == format
        &&& forall|row: int, column: int|
            whole.inside(row, column) ==> #[trigger] whole.entry(row, column) == operator::settled(
                format,
                triplets::summed(place_values(&self.matrix(), self.correction(), row, column)),
            )
    }

    /// The operator and its correction in one matrix.
    pub fn materialize(&self, format: MatrixFormat) -> (result: Result<Operator<V>>)
        requires
            self.wf(),
            operator::storable(self.matrix().shape.0, self.matrix().shape.1, format),
        ensures
            match result {
                Ok(whole) => {
                    &&& self.matrix().stays_finite(Change::Keep)
                    &&& self.totals(&whole, format)
                },
                Err(error) => error is InvalidCoupling && !self.matrix().stays_finite(Change::Keep),
            },
    {
        let dimension: usize = self.diagonal.len();
        let ghost matrix = self.operator;
        let ghost diagonal = self.diagonal@;
        let mut list: Vec<Triplet<V>> = self.operator.triplets();
        let ghost head = list@;
        let mut index: usize = 0;
        assert(head + diagonal_entries(diagonal, 0) =~= head);
        while index < dimension
            invariant
                dimension == self.diagonal@.len(),
                diagonal == self.diagonal@,
                index <= dimension,
                list@ == head + diagonal_entries(diagonal, index as nat),
            decreases dimension - index,
        {
            let value: V = self.diagonal[index];
            let ghost front = diagonal_entries(diagonal, index as nat);
            if !value.is_negligible() {
                list.push(Triplet { row: index, column: index, value });
                assert((head + front).push(Triplet { row: index, column: index, value }) =~= head
                    + front.push(Triplet { row: index, column: index, value }));
            }
            index = index + 1;
        }
        let ghost tail = diagonal_entries(diagonal, dimension as nat);
        proof {
            lemma_diagonal_entries(diagonal, dimension as nat, 0, 0);
            if operator::acceptable(list@, dimension as int, dimension as int) {
                assert forall|row: int, column: int|
                    matrix.inside(row, column) && !(#[trigger] matrix.entry(
                        row,
                        column,
                    )).tiny() implies algebra::changed(
                    Change::Keep,
                    matrix.entry(row, column),
                ).proper() by {
                    let i = choose|i: int|
                        0 <= i < head.len() && triplets::stands_at(#[trigger] head[i], row, column);
                    assert(list@[i] == head[i]);
                    assert(list@[i].value.proper());
                }
            } else {
                let i = choose|i: int|
                    0 <= i < list@.len() && !((#[trigger] list@[i]).row < dimension
                        && list@[i].column < dimension && list@[i].value.proper());
                if i < head.len() {
                    assert(list@[i] == head[i]);
                    assert(matrix.inside(head[i].row as int, head[i].column as int));
                    assert(!algebra::changed(
                        Change::Keep,
                        matrix.entry(head[i].row as int, head[i].column as int),
                    ).proper());
                } else {
                    let k = i - head.len();
                    assert(list@[i] == tail[k]);
                    assert(diagonal[tail[k].row as int].proper());
                }
            }
        }
        let result: Result<Operator<V>> = Operator::from_triplets(
            dimension,
            dimension,
            list.as_slice(),
            format,
        );
        proof {
            if let Ok(whole) = &result {
                assert forall|row: int, column: int|
                    whole.inside(row, column) implies #[trigger] whole.entry(row, column)
                    == operator::settled(
                    format,
                    triplets::summed(place_values(&matrix, diagonal, row, column)),
                ) by {
                    triplets::lemma_values_concat(head, tail, row, column);
                    algebra::lemma_spelled_values(&matrix, head, row, column);
                    lemma_diagonal_entries(diagonal, dimension as nat, row, column);
                    assert(triplets::values_at(list@, row, column) =~= place_values(
                        &matrix,
                        diagonal,
                        row,
                        column,
                    ));
                }
            }
        }
        result
    }

    fn rewrite(&self, transposed: bool, change: Change<V>) -> (result: Result<Self>)
        requires
            self.wf(),
            operator::storable(
                self.matrix().shape.0,
                self.matrix().shape.1,
                self.matrix().format,
            ),
            !(change is Scale),
            change is Keep ==> transposed,
        ensures
            match result {
                Ok(image) => {
                    &&& self.matrix().stays_finite(change)
                    &&& change is Conjugate ==> hamiltonian::all_proper(
                        action::mirrored(self.correction()),
                    )
                    &&& image.wf()
                    &&& hamiltonian::rewritten_as(
                        self.matrix(),
                        transposed,
                        change,
                        image.matrix(),
                    )
                    &&& image.correction() == (if change is Conjugate {
                        action::mirrored(self.correction())
                    } else {
                        self.correction()
                    })
                },
                Err(QmbedError::InvalidCoupling(_)) => !self.matrix().stays_finite(change),
                Err(QmbedError::InvalidOptions(_)) => change is Conjugate
                    && !hamiltonian::all_proper(action::mirrored(self.correction())),
                Err(_) => false,
            },
    {
        let operator: Operator<V> = match hamiltonian::rewrite_operator(
            &self.operator,
            transposed,
            change,
        ) {
            Ok(operator) => operator,
            Err(error) => {
                return Err(error);
            },
        };
        let diagonal: Vec<V> = match change {
            Change::Conjugate => action::conjugates(self.diagonal.as_slice()),
            _ => inspection::copy_values(self.diagonal.as_slice()),
        };
        Self::new(operator, diagonal)
    }

    pub fn adjoint(&self) -> (result: Result<Self>)
        requires
            self.wf(),
            operator::storable(
                self.matrix().shape.0,
                self.matrix().shape.1,
                self.matrix().format,
            ),
        ensures
            match result {
                Ok(image) => {
                    &&& self.matrix().stays_finite(Change::Conjugate)
                    &&& hamiltonian::all_proper(action::mirrored(self.correction()))
                    &&& image.wf()
                    &&& algebra::is_adjoint(&self.matrix(), &image.matrix())
                    &&& image.correction() == action::mirrored(self.correction())
                },
                Err(QmbedError::InvalidCoupling(_)) => !self.matrix().stays_finite(
                    Change::Conjugate,
                ),
                Err(QmbedError::InvalidOptions(_)) => !hamiltonian::all_proper(
                    action::mirrored(self.correction()),
                ),
                Err(_) => false,
            },
    {
        self.rewrite(true, Change::Conjugate)
    }

    pub fn transpose(&self) -> (result: Result<Self>)
        requires
            self.wf(),
            operator::storable(
                self.matrix().shape.0,
                self.matrix().shape.1,
                self.matrix().format,
            ),
        ensures
            match result {
                Ok(image) => {
                    &&& self.matrix().stays_finite(Change::Keep)
                    &&& image.wf()
                    &&& algebra::is_transpose(&self.matrix(), &image.matrix())
                    &&& image.correction() == self.correction()
                },
                Err(error) => error is InvalidCoupling && !self.matrix().stays_finite(Change::Keep),
            },
    {
        self.rewrite(true, Change::Keep)
    }

    pub fn conjugated(&self) -> (result: Result<Self>)
        requires
            self.wf(),
            operator::storable(
                self.matrix().shape.0,
                self.matrix().shape.1,
                self.matrix().format,
            ),
        ensures
            match result {
                Ok(image) => {
                    &&& self.matrix().stays_finite(Change::Conjugate)
                    &&& hamiltonian::all_proper(action::mirrored(self.correction()))
                    &&& image.wf()
                    &&& algebra::is_conjugate(&self.matrix(), &image.matrix())
                    &&& image.correction() == action::mirrored(self.correction())
                },
                Err(QmbedError::InvalidCoupling(_)) => !self.matrix().stays_finite(
                    Change::Conjugate,
                ),
                Err(QmbedError::InvalidOptions(_)) => !hamiltonian::all_proper(
                    action::mirrored(self.correction()),
                ),
                Err(_) => false,
            },
    {
        self.rewrite(false, Change::Conjugate)
    }

    /// A row vector times the operator.
    pub fn right_apply(&self, input: &[V]) -> (result: Result<Vec<V>>)
        requires
            self.wf(),
        ensures
            match result {
                Ok(output) => input@.len() == self.matrix().shape.0 && output@ == corrected(
                    self.matrix().transposed_image(input@),
                    self.correction(),
                    input@,
                ),
                Err(error) => error is DimensionMismatch && input@.len() != self.matrix().shape.0,
            },
    {
        let mut output: Vec<V> = operator::zeros(self.operator.shape.1);
        match self.apply_transpose(input, output.as_mut_slice()) {
            Ok(()) => Ok(output),
            Err(error) => Err(error),
        }
    }
}

/// Adds the diagonal correction to an image.
fn correct<V: Scalar>(diagonal: &Vec<V>, input: &[V], output: &mut [V])
    requires
        diagonal@.len() == old(output)@.len(),
        input@.len() == old(output)@.len(),
    ensures
        final(output)@ == corrected(old(output)@, diagonal@, input@),
{
    let length: usize = output.len();
    let ghost image = output@;
    let mut index: usize = 0;
    while index < length
        invariant
            index <= length,
            length == output@.len(),
            length == image.len(),
            diagonal@.len() == length,
            input@.len() == length,
            forall|i: int|
                0 <= i < index ==> #[trigger] output@[i] == image[i].sum(
                    diagonal@[i].product(input@[i]),
                ),
            forall|i: int| index <= i < length ==> #[trigger] output@[i] == image[i],
        decreases length - index,
    {
        let value: V = output[index].plus(diagonal[index].times(input[index]));
        output[index] = value;
        index = index + 1;
    }
    assert(output@ =~= corrected(image, diagonal@, input@));
}

fn finite_all<V: Scalar>(values: &Vec<V>) -> (finite: bool)
    ensures
        finite == hamiltonian::all_proper(values@),
{
    let mut index: usize = 0;
    while index < values.len()
        invariant
            index <= values@.len(),
            forall|i: int| 0 <= i < index ==> (#[trigger] values@[i]).proper(),
        decreases values@.len() - index,
    {
        if !values[index].is_finite() {
            assert(!values@[index as int].proper());
            return false;
        }
        index = index + 1;
    }
    true
}

impl<V: Scalar> LinearOperator<V> for QuantumLinearOperator<V> {
    open spec fn usable(&self) -> bool {
        self.wf()
    }

    open spec fn extent(&self) -> (usize, usize) {
        self.matrix().shape
    }

    open spec fn maps(&self, input: Seq<V>) -> Option<Seq<V>> {
        Some(corrected(self.matrix().image(input), self.correction(), input))
    }

    open spec fn maps_back(&self, input: Seq<V>) -> Option<Seq<V>> {
        Some(corrected(self.matrix().transposed_image(input), self.correction(), input))
    }

    open spec fn stored_as(&self) -> MatrixFormat {
        MatrixFormat::MatrixFree
    }

    /// The map keeps the matrix without its correction; the entries of both are summed up
    /// when they are asked for.
    open spec fn offers(&self, entries: Option<Seq<Triplet<V>>>) -> bool {
        entries matches Some(list) && exists|whole: Operator<V>| #[trigger]
            self.totals(&whole, MatrixFormat::Csc) && whole.spelled(list)
    }

    open spec fn refuses(&self, input: Seq<V>, error: QmbedError) -> bool {
        false
    }

    open spec fn refuses_back(&self, input: Seq<V>, error: QmbedError) -> bool {
        false
    }

    open spec fn withholds(&self, error: QmbedError) -> bool {
        if self.matrix().shape.1 == usize::MAX {
            error is UnsupportedBackend
        } else {
            error is InvalidCoupling && !self.matrix().stays_finite(Change::Keep)
        }
    }

    fn stored_triplets(&self) -> (result: Result<Option<Vec<Triplet<V>>>>) {
        if self.operator.shape.1 == usize::MAX {
            return Err(
                QmbedError::UnsupportedBackend("the operator is too large to be stored".to_string()),
            );
        }
        match self.materialize(MatrixFormat::Csc) {
            Ok(whole) => {
                let list: Vec<Triplet<V>> = whole.triplets();
                assert(self.totals(&whole, MatrixFormat::Csc));
                Ok(Some(list))
            },
            Err(error) => Err(error),
        }
    }

    fn shape(&self) -> (shape: (usize, usize)) {
        self.operator.shape
    }

    fn format(&self) -> (format: MatrixFormat) {
        MatrixFormat::MatrixFree
    }

    fn apply(&self, input: &[V], output: &mut [V]) -> (result: Result<()>) {
        match self.operator.apply(input, output) {
            Ok(()) => {},
            Err(error) => {
                return Err(error);
            },
        }
        correct(&self.diagonal, input, output);
        Ok(())
    }

    fn apply_transpose(&self, input: &[V], output: &mut [V]) -> (result: Result<()>) {
        match self.operator.apply_transpose(input, output) {
            Ok(()) => {},
            Err(error) => {
                return Err(error);
            },
        }
        correct(&self.diagonal, input, output);
        Ok(())
    }
}

} // verus!
