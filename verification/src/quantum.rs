//! Named linear combinations of operators, and operators with a diagonal correction.

use vstd::prelude::*;
use crate::algebra::Change;
use crate::algebra;
use crate::combination::{Combination, Part};
use crate::combination;
use crate::error::{QmbedError, Result};
use crate::error;
use crate::operator::{MatrixFormat, Operator};
use crate::operator;
use crate::scalar::Scalar;

verus! {

/// A named operator with the coefficient that holds where none is given.
pub struct QuantumComponent<V> {
    name: String,
    operator: Operator<V>,
    default: Option<V>,
}

impl<V: Scalar> QuantumComponent<V> {
    pub closed spec fn title(&self) -> Seq<char> {
        self.name@
    }

    pub closed spec fn matrix(&self) -> Operator<V> {
        self.operator
    }

    pub closed spec fn fallback(&self) -> Option<V> {
        self.default
    }

    /// A component whose coefficient has to be given.
    pub fn required(name: String, operator: Operator<V>) -> (component: Self)
        ensures
            component.title() == name@,
            component.matrix() == operator,
            component.fallback() is None,
    {
        QuantumComponent { name, operator, default: None }
    }

    /// A component with a coefficient of its own where none is given.
    pub fn with_default(name: String, operator: Operator<V>, default: V) -> (component: Self)
        ensures
            component.title() == name@,
            component.matrix() == operator,
            component.fallback() == Some(default),
    {
        QuantumComponent { name, operator, default: Some(default) }
    }

    /// A component with coefficient one where none is given.
    pub fn parameter(name: String, operator: Operator<V>) -> (component: Self)
        ensures
            component.title() == name@,
            component.matrix() == operator,
            component.fallback() == Some(V::one_value()),
    {
        Self::with_default(name, operator, V::one())
    }

    pub fn name(&self) -> (name: &str)
        ensures
            name@ == self.title(),
    {
        self.name.as_str()
    }

    pub fn operator(&self) -> (operator: &Operator<V>)
        ensures
            *operator == self.matrix(),
    {
        &self.operator
    }

    pub fn default(&self) -> (default: Option<V>)
        ensures
            default == self.fallback(),
    {
        self.default
    }
}

/// The component has an empty name or the name of an earlier one.
pub open spec fn badly_named<V: Scalar>(list: Seq<QuantumComponent<V>>, at: int) -> bool {
    list[at].title().len() == 0 || exists|i: int|
        0 <= i < at && (#[trigger] list[i]).title() == list[at].title()
}

/// The component has a coefficient of its own that is not finite.
pub open spec fn bad_default<V: Scalar>(component: QuantumComponent<V>) -> bool {
    component.fallback() matches Some(value) && !value.proper()
}

/// The component in place `at` can stand in a combination.
pub open spec fn admitted<V: Scalar>(list: Seq<QuantumComponent<V>>, at: int) -> bool {
    &&& !badly_named(list, at)
    &&& list[at].matrix().shape == list[0].matrix().shape
    &&& !bad_default(list[at])
}

/// The component in place `at` is the first that cannot stand in a combination, and the
/// error says why.
pub open spec fn first_rejected<V: Scalar>(
    list: Seq<QuantumComponent<V>>,
    at: int,
    error: QmbedError,
) -> bool {
    &&& 0 <= at < list.len()
    &&& forall|i: int| 0 <= i < at ==> #[trigger] admitted(list, i)
    &&& if badly_named(list, at) {
        error is InvalidOptions
    } else if list[at].matrix().shape != list[0].matrix().shape {
        error is DimensionMismatch
    } else {
        error is InvalidOptions && bad_default(list[at])
    }
}

/// A value for a named parameter.
#[derive(Debug)]
pub struct Parameter<V> {
    pub name: String,
    pub value: V,
}

/// A named linear combination of operators of one shape.
pub struct QuantumOperator<V> {
    components: Vec<QuantumComponent<V>>,
    shape: (usize, usize),
}

/// The value given for a name, the first one where there are several.
pub open spec fn given<V>(parameters: Seq<Parameter<V>>, name: Seq<char>) -> Option<V>
    decreases parameters.len(),
{
    if parameters.len() == 0 {
        None
    } else if parameters[0].name@ == name {
        Some(parameters[0].value)
    } else {
        given(parameters.drop_first(), name)
    }
}

fn look_up<V: Scalar>(parameters: &[Parameter<V>], name: &String) -> (found: Option<V>)
    ensures
        found == given(parameters@, name@),
{
    let mut index: usize = 0;
    assert(parameters@.skip(0) =~= parameters@);
    while index < parameters.len()
        invariant
            index <= parameters@.len(),
            given(parameters@, name@) == given(parameters@.skip(index as int), name@),
        decreases parameters@.len() - index,
    {
        assert(parameters@.skip(index as int).drop_first() =~= parameters@.skip(index + 1));
        if parameters[index].name == *name {
            return Some(parameters[index].value);
        }
        index = index + 1;
    }
    None
}

impl<V: Scalar> QuantumOperator<V> {
    pub closed spec fn list(&self) -> Seq<QuantumComponent<V>> {
        self.components@
    }

    pub closed spec fn extent(&self) -> (usize, usize) {
        self.shape
    }

    pub open spec fn wf(&self) -> bool {
        &&& self.list().len() > 0
        &&& self.extent() == self.list()[0].matrix().shape
        &&& forall|i: int| 0 <= i < self.list().len() ==> #[trigger] admitted(self.list(), i)
        &&& forall|i: int|
            0 <= i < self.list().len() ==> (#[trigger] self.list()[i]).matrix().wf()
    }

    /// A combination of components.
    pub fn new(components: Vec<QuantumComponent<V>>) -> (result: Result<Self>)
        requires
            forall|i: int|
                0 <= i < components@.len() ==> (#[trigger] components@[i]).matrix().wf(),
        ensures
            match result {
                Ok(sum) => sum.wf() && sum.list() == components@,
                Err(error) => if components@.len() == 0 {
                    error is InvalidOptions
                } else {
                    exists|at: int| #[trigger] first_rejected(components@, at, error)
                },
            },
    {
        if components.len() == 0 {
            return Err(
                QmbedError::InvalidOptions(
                    "QuantumOperator requires at least one component".to_string(),
                ),
            );
        }
        let shape: (usize, usize) = components[0].operator.shape;
        let mut index: usize = 0;
        while index < components.len()
            invariant
                components@.len() > 0,
                shape == components@[0].matrix().shape,
                index <= components@.len(),
                forall|i: int| 0 <= i < index ==> #[trigger] admitted(components@, i),
            decreases components@.len() - index,
        {
            let ghost at = index as int;
            let mut named: bool = components[index].name.as_str().unicode_len() > 0;
            let mut other: usize = 0;
            while other < index
                invariant
                    other <= index < components@.len(),
                    at == index,
                    named == (components@[at].title().len() > 0 && forall|i: int|
                        0 <= i < other ==> (#[trigger] components@[i]).title()
                            != components@[at].title()),
                decreases index - other,
            {
                if components[other].name == components[index].name {
                    assert(components@[other as int].title() == components@[at].title());
                    named = false;
                }
                other = other + 1;
            }
            assert(named == !badly_named(components@, at));
            if !named {
                let error: QmbedError = QmbedError::InvalidOptions(
                    "component names must be nonempty and unique".to_string(),
                );
                assert(first_rejected(components@, at, error));
                return Err(error);
            }
            let (rows, columns): (usize, usize) = components[index].operator.shape;
            if rows != shape.0 || columns != shape.1 {
                let error: QmbedError = QmbedError::DimensionMismatch(
                    "all parameterized components must have equal shapes".to_string(),
                );
                assert(first_rejected(components@, at, error));
                return Err(error);
            }
            if let Some(value) = components[index].default {
                if !value.is_finite() {
                    let error: QmbedError = QmbedError::InvalidOptions(
                        "component defaults must be finite".to_string(),
                    );
                    assert(first_rejected(components@, at, error));
                    return Err(error);
                }
            }
            assert(admitted(components@, at));
            index = index + 1;
        }
        Ok(QuantumOperator { components, shape })
    }

    pub fn shape(&self) -> (shape: (usize, usize))
        ensures
            shape == self.extent(),
    {
        self.shape
    }

    pub fn components(&self) -> (components: &[QuantumComponent<V>])
        ensures
            components@ == self.list(),
    {
        self.components.as_slice()
    }

    /// The names of the components in order.
    pub fn component_names(&self) -> (names: Vec<&str>)
        ensures
            names@.len() == self.list().len(),
            forall|i: int|
                0 <= i < names@.len() ==> (#[trigger] names@[i])@ == self.list()[i].title(),
    {
        let mut names: Vec<&str> = Vec::new();
        while names.len() < self.components.len()
            invariant
                names@.len() <= self.components@.len(),
                forall|i: int|
                    0 <= i < names@.len() ==> (#[trigger] names@[i])@ == self.components@[i].title(),
            decreases self.components@.len() - names@.len(),
        {
            names.push(self.components[names.len()].name.as_str());
        }
        names
    }

    /// The operator of a name.
    pub fn component(&self, name: &str) -> (result: Result<&Operator<V>>)
        ensures
            match result {
                Ok(operator) => exists|i: int|
                    0 <= i < self.list().len() && (#[trigger] self.list()[i]).title() == name@
                        && self.list()[i].matrix() == *operator && forall|j: int|
                        0 <= j < i ==> (#[trigger] self.list()[j]).title() != name@,
                Err(error) => error is InvalidOptions && forall|i: int|
                    0 <= i < self.list().len() ==> (#[trigger] self.list()[i]).title() != name@,
            },
    {
        let wanted: String = name.to_string();
        let mut index: usize = 0;
        while index < self.components.len()
            invariant
                wanted@ == name@,
                index <= self.components@.len(),
                forall|i: int|
                    0 <= i < index ==> (#[trigger] self.list()[i]).title() != name@,
            decreases self.components@.len() - index,
        {
            if self.components[index].name == wanted {
                assert(self.list()[index as int].title() == name@);
                return Ok(&self.components[index].operator);
            }
            index = index + 1;
        }
        Err(QmbedError::InvalidOptions(error::naming("unknown operator component ", name, "")))
    }

    /// Some parameter names no component.
    pub open spec fn has_stranger(&self, parameters: Seq<Parameter<V>>) -> bool {
        exists|i: int|
            0 <= i < parameters.len() && self.lacks((#[trigger] parameters[i]).name@)
    }

    /// No component has the name.
    pub open spec fn lacks(&self, name: Seq<char>) -> bool {
        forall|i: int|
            0 <= i < self.list().len() ==> (#[trigger] self.list()[i]).title() != name
    }

    /// The coefficient of a component: the given one, or its own.
    pub open spec fn coefficient(&self, parameters: Seq<Parameter<V>>, at: int) -> Option<V> {
        match given(parameters, self.list()[at].title()) {
            Some(value) => Some(value),
            None => self.list()[at].fallback(),
        }
    }

    /// Every component has a finite coefficient.
    pub open spec fn all_given(&self, parameters: Seq<Parameter<V>>) -> bool {
        forall|i: int|
            0 <= i < self.list().len() ==> (#[trigger] self.coefficient(
                parameters,
                i,
            )) is Some && self.coefficient(parameters, i)->0.proper()
    }

    /// The scaled components.
    pub open spec fn parts(&self, parameters: Seq<Parameter<V>>) -> Seq<Part<V>> {
        Seq::new(
            self.list().len(),
            |i: int|
                Part {
                    change: Change::Scale(self.coefficient(parameters, i)->0),
                    matrix: self.list()[i].matrix(),
                },
        )
    }

    /// The combination with given coefficients.
    pub fn evaluate(&self, parameters: &[Parameter<V>], format: MatrixFormat) -> (result: Result<
        Operator<V>,
    >)
        requires
            self.wf(),
            operator::storable(self.extent().0, self.extent().1, format),
        ensures
            match result {
                Ok(matrix) => {
                    &&& !self.has_stranger(parameters@)
                    &&& self.all_given(parameters@)
                    &&& combination::finite_parts(self.parts(parameters@))
                    &&& combination::sums_up(
                        &matrix,
                        self.extent(),
                        format,
                        self.parts(parameters@),
                    )
                },
                Err(error) => if self.has_stranger(parameters@) || !self.all_given(parameters@) {
                    error is InvalidOptions
                } else {
                    error is InvalidCoupling && !combination::finite_parts(
                        self.parts(parameters@),
                    )
                },
            },
    {
        let mut index: usize = 0;
        while index < parameters.len()
            invariant
                index <= parameters@.len(),
                forall|i: int|
                    0 <= i < index ==> !self.lacks((#[trigger] parameters@[i]).name@),
            decreases parameters@.len() - index,
        {
            match self.component(parameters[index].name.as_str()) {
                Ok(_) => {},
                Err(_) => {
                    assert(self.lacks(parameters@[index as int].name@));
                    return Err(
                        QmbedError::InvalidOptions(
                            error::naming(
                                "unknown operator parameter ",
                                parameters[index].name.as_str(),
                                "",
                            ),
                        ),
                    );
                },
            }
            index = index + 1;
        }
        let mut sum: Combination<V> = Combination::new(self.shape.0, self.shape.1);
        let ghost whole = self.parts(parameters@);
        index = 0;
        assert(whole.take(0) =~= Seq::<Part<V>>::empty());
        while index < self.components.len()
            invariant
                self.wf(),
                !self.has_stranger(parameters@),
                index <= self.list().len(),
                whole == self.parts(parameters@),
                sum.wf(),
                sum.shape() == self.extent(),
                sum.parts() == whole.take(index as int),
                forall|i: int|
                    0 <= i < index ==> (#[trigger] self.coefficient(parameters@, i)) is Some
                        && self.coefficient(parameters@, i)->0.proper(),
            decreases self.components@.len() - index,
        {
            let ghost wanted = self.coefficient(parameters@, index as int);
            let coefficient: Option<V> = match look_up(parameters, &self.components[index].name) {
                Some(value) => Some(value),
                None => self.components[index].default,
            };
            assert(coefficient == wanted);
            match coefficient {
                Some(value) => {
                    if !value.is_finite() {
                        return Err(
                            QmbedError::InvalidOptions(
                                error::naming(
                                    "operator parameter ",
                                    self.components[index].name.as_str(),
                                    " must be finite",
                                ),
                            ),
                        );
                    }
                    assert(admitted(self.list(), index as int));
                    assert(self.list()[index as int].matrix().wf());
                    sum.append(&self.components[index].operator, Change::Scale(value));
                    assert(whole.take(index + 1) =~= whole.take(index as int).push(
                        whole[index as int],
                    ));
                },
                None => {
                    return Err(
                        QmbedError::InvalidOptions(
                            error::naming(
                                "missing required operator parameter ",
                                self.components[index].name.as_str(),
                                "",
                            ),
                        ),
                    );
                },
            }
            index = index + 1;
        }
        assert(whole.take(index as int) =~= whole);
        sum.finish(format)
    }

    /// Every component can be stored, with rows and columns exchanged or not.
    pub open spec fn storable(&self, transposed: bool) -> bool {
        let rows = if transposed {
            self.extent().1
        } else {
            self.extent().0
        };
        let columns = if transposed {
            self.extent().0
        } else {
            self.extent().1
        };
        forall|i: int|
            0 <= i < self.list().len() ==> operator::storable(
                rows,
                columns,
                (#[trigger] self.list()[i]).matrix().format,
            )
    }

    /// The components with rows and columns exchanged.
    pub open spec fn transposed_into(&self, list: Seq<QuantumComponent<V>>) -> bool {
        self.changed_into(true, Change::Keep, list)
    }

    /// The components with every cell conjugated.
    pub open spec fn conjugated_into(&self, list: Seq<QuantumComponent<V>>) -> bool {
        self.changed_into(false, Change::Conjugate, list)
    }

    /// The components with rows and columns exchanged and conjugated.
    pub open spec fn adjoint_into(&self, list: Seq<QuantumComponent<V>>) -> bool {
        self.changed_into(true, Change::Conjugate, list)
    }

    /// The components times a number.
    pub open spec fn scaled_into(&self, coefficient: V, list: Seq<QuantumComponent<V>>) -> bool {
        self.changed_into(false, Change::Scale(coefficient), list)
    }

    /// The components after a change of their values, mirrored at the diagonal or not;
    /// the coefficients of their own are conjugated where the values are.
    pub open spec fn changed_into(
        &self,
        transposed: bool,
        change: Change<V>,
        image: Seq<QuantumComponent<V>>,
    ) -> bool {
        &&& image.len() == self.list().len()
        &&& forall|i: int|
            0 <= i < image.len() ==> component_changed(
                self.list()[i],
                transposed,
                change,
                #[trigger] image[i],
            )
    }

    /// Some component does not stay finite under the change.
    pub open spec fn overflows(&self, change: Change<V>) -> bool {
        exists|i: int|
            0 <= i < self.list().len() && !(#[trigger] self.list()[i]).matrix().stays_finite(change)
    }

    /// Some conjugated coefficient is not finite.
    pub open spec fn mirrors_badly(&self) -> bool {
        exists|i: int|
            0 <= i < self.list().len() && ((#[trigger] self.list()[i]).fallback() matches Some(
                value,
            ) && !value.mirror().proper())
    }

    fn rewrite(&self, transposed: bool, change: Change<V>) -> (result: Result<Self>)
        requires
            self.wf(),
            self.storable(transposed),
            change is Scale ==> !transposed,
            change is Keep ==> transposed,
        ensures
            match result {
                Ok(image) => {
                    &&& algebra::admissible(change)
                    &&& !self.overflows(change)
                    &&& change is Conjugate ==> !self.mirrors_badly()
                    &&& image.wf()
                    &&& self.changed_into(transposed, change, image.list())
                },
                Err(QmbedError::InvalidOptions(_)) => match change {
                    Change::Scale(coefficient) => !coefficient.proper(),
                    Change::Conjugate => self.mirrors_badly(),
                    Change::Keep => false,
                },
                Err(QmbedError::InvalidCoupling(_)) => self.overflows(change),
                Err(_) => false,
            },
    {
        let mut components: Vec<QuantumComponent<V>> = Vec::new();
        while components.len() < self.components.len()
            invariant
                self.wf(),
                self.storable(transposed),
                change is Scale ==> !transposed,
                change is Keep ==> transposed,
                components@.len() <= self.components@.len(),
                change matches Change::Scale(coefficient) ==> components@.len() > 0
                    ==> coefficient.proper(),
                forall|i: int|
                    0 <= i < components@.len() ==> component_changed(
                        self.list()[i],
                        transposed,
                        change,
                        #[trigger] components@[i],
                    ) && self.list()[i].matrix().stays_finite(change),
            decreases self.components@.len() - components@.len(),
        {
            let component: &QuantumComponent<V> = &self.components[components.len()];
            let ghost at = components@.len() as int;
            assert(admitted(self.list(), at));
            assert(*component == self.list()[at]);
            assert(self.list()[at].matrix().wf());
            let changed: Result<Operator<V>> = match change {
                Change::Keep => component.operator.transpose(),
                Change::Conjugate => if transposed {
                    component.operator.adjoint()
                } else {
                    component.operator.conjugated()
                },
                Change::Scale(coefficient) => component.operator.scaled(coefficient),
            };
            let operator: Operator<V> = match changed {
                Ok(operator) => operator,
                Err(error) => {
                    assert(error is InvalidCoupling ==> !self.list()[at].matrix().stays_finite(
                        change,
                    ));
                    return Err(error);
                },
            };
            let default: Option<V> = match (change, component.default) {
                (Change::Conjugate, Some(value)) => Some(value.conjugate()),
                (_, kept) => kept,
            };
            let next: QuantumComponent<V> = QuantumComponent {
                name: component.name.clone(),
                operator,
                default,
            };
            assert(component_changed(self.list()[at], transposed, change, next));
            assert(self.list()[at].matrix().stays_finite(change));
            let ghost before = components@;
            components.push(next);
            proof {
                assert forall|i: int| 0 <= i < components@.len() implies component_changed(
                    self.list()[i],
                    transposed,
                    change,
                    #[trigger] components@[i],
                ) && self.list()[i].matrix().stays_finite(change) by {
                    if i < before.len() {
                        assert(components@[i] == before[i]);
                    }
                }
            }
        }
        proof {
            assert(self.changed_into(transposed, change, components@));
            assert(components@[0].matrix().shape == mirrored_shape(self.extent(), transposed));
            assert forall|i: int| 0 <= i < components@.len() implies !badly_named(
                components@,
                i,
            ) && components@[i].matrix().shape == components@[0].matrix().shape && (
            #[trigger] components@[i]).matrix().wf() by {
                assert(admitted(self.list(), i));
                assert(component_changed(self.list()[i], transposed, change, components@[i]));
                if badly_named(components@, i) {
                    let j = choose|j: int|
                        0 <= j < i && (#[trigger] components@[j]).title() == components@[i].title();
                    assert(component_changed(
                        self.list()[j],
                        transposed,
                        change,
                        components@[j],
                    ));
                    assert(self.list()[j].title() == self.list()[i].title());
                    assert(badly_named(self.list(), i));
                }
            }
        }
        let result: Result<Self> = Self::new(components);
        proof {
            if let Err(error) = &result {
                let at = choose|at: int| #[trigger] first_rejected(components@, at, *error);
                assert(component_changed(self.list()[at], transposed, change, components@[at]));
                assert(admitted(self.list(), at));
                assert(!badly_named(components@, at));
                assert(bad_default(components@[at]));
            }
            if result is Ok {
                assert forall|i: int| 0 <= i < self.list().len() implies (
                #[trigger] self.list()[i]).matrix().stays_finite(change) by {
                    assert(component_changed(self.list()[i], transposed, change, components@[i]));
                }
                if change is Conjugate && self.mirrors_badly() {
                    let i = choose|i: int|
                        0 <= i < self.list().len() && ((
                        #[trigger] self.list()[i]).fallback() matches Some(value)
                            && !value.mirror().proper());
                    assert(component_changed(self.list()[i], transposed, change, components@[i]));
                    assert(admitted(components@, i));
                }
            }
        }
        result
    }

    /// The combination with every operator multiplied by a number.
    pub fn scaled(&self, coefficient: V) -> (result: Result<Self>)
        requires
            self.wf(),
            self.storable(false),
        ensures
            match result {
                Ok(image) => {
                    &&& coefficient.proper()
                    &&& !self.overflows(Change::Scale(coefficient))
                    &&& image.wf()
                    &&& self.scaled_into(coefficient, image.list())
                },
                Err(QmbedError::InvalidOptions(_)) => !coefficient.proper(),
                Err(QmbedError::InvalidCoupling(_)) => self.overflows(Change::Scale(coefficient)),
                Err(_) => false,
            },
    {
        self.rewrite(false, Change::Scale(coefficient))
    }

    /// The combination with every value conjugated.
    pub fn conjugated(&self) -> (result: Result<Self>)
        requires
            self.wf(),
            self.storable(false),
        ensures
            match result {
                Ok(image) => {
                    &&& !self.mirrors_badly()
                    &&& !self.overflows(Change::Conjugate)
                    &&& image.wf()
                    &&& self.conjugated_into(image.list())
                },
                Err(QmbedError::InvalidOptions(_)) => self.mirrors_badly(),
                Err(QmbedError::InvalidCoupling(_)) => self.overflows(Change::Conjugate),
                Err(_) => false,
            },
    {
        self.rewrite(false, Change::Conjugate)
    }

    /// The conjugate combination, mirrored at the diagonal.
    pub fn adjoint(&self) -> (result: Result<Self>)
        requires
            self.wf(),
            self.storable(true),
        ensures
            match result {
                Ok(image) => {
                    &&& !self.mirrors_badly()
                    &&& !self.overflows(Change::Conjugate)
                    &&& image.wf()
                    &&& self.adjoint_into(image.list())
                },
                Err(QmbedError::InvalidOptions(_)) => self.mirrors_badly(),
                Err(QmbedError::InvalidCoupling(_)) => self.overflows(Change::Conjugate),
                Err(_) => false,
            },
    {
        self.rewrite(true, Change::Conjugate)
    }

    /// The combination mirrored at the diagonal.
    pub fn transpose(&self) -> (result: Result<Self>)
        requires
            self.wf(),
            self.storable(true),
        ensures
            match result {
                Ok(image) => {
                    &&& !self.overflows(Change::Keep)
                    &&& image.wf()
                    &&& self.transposed_into(image.list())
                },
                Err(QmbedError::InvalidCoupling(_)) => self.overflows(Change::Keep),
                Err(_) => false,
            },
    {
        self.rewrite(true, Change::Keep)
    }
}

pub open spec fn mirrored_shape(shape: (usize, usize), transposed: bool) -> (usize, usize) {
    if transposed {
        (shape.1, shape.0)
    } else {
        shape
    }
}

/// The component after a change of its values, mirrored at the diagonal or not.
pub open spec fn component_changed<V: Scalar>(
    before: QuantumComponent<V>,
    transposed: bool,
    change: Change<V>,
    after: QuantumComponent<V>,
) -> bool {
    &&& after.title() == before.title()
    &&& after.fallback() == match (change, before.fallback()) {
        (Change::Conjugate, Some(value)) => Some(value.mirror()),
        (_, kept) => kept,
    }
    &&& after.matrix().wf()
    &&& after.matrix().shape == mirrored_shape(before.matrix().shape, transposed)
    &&& after.matrix().format == before.matrix().format
    &&& forall|row: int, column: int|
        after.matrix().inside(row, column) ==> #[trigger] after.matrix().entry(row, column)
            == operator::settled(
            before.matrix().format,
            algebra::rewritten(
                change,
                if transposed {
                    before.matrix().entry(column, row)
                } else {
                    before.matrix().entry(row, column)
                },
            ),
        )
}

/// The matrices have the same shape, format and values.
pub open spec fn alike<V: Scalar>(first: Operator<V>, second: Operator<V>) -> bool {
    &&& first.shape == second.shape
    &&& first.format == second.format
    &&& forall|row: int, column: int|
        second.inside(row, column) ==> #[trigger] first.entry(row, column) == second.entry(
            row,
            column,
        )
}

/// A copy of a component.
pub open spec fn copied<V: Scalar>(
    before: QuantumComponent<V>,
    after: QuantumComponent<V>,
) -> bool {
    &&& after.title() == before.title()
    &&& after.fallback() == before.fallback()
    &&& after.matrix().wf()
    &&& alike(after.matrix(), before.matrix())
}

/// The sum of two components of one name; the coefficient of its own is kept where both
/// have the same.
pub open spec fn merged<V: Scalar>(
    left: QuantumComponent<V>,
    right: QuantumComponent<V>,
    sum: QuantumComponent<V>,
) -> bool {
    &&& sum.title() == left.title()
    &&& sum.fallback() == (if same_default(left.fallback(), right.fallback()) {
        left.fallback()
    } else {
        None
    })
    &&& sum.matrix().wf()
    &&& sum.matrix().shape == left.matrix().shape
    &&& sum.matrix().format == left.matrix().format
    &&& forall|row: int, column: int|
        sum.matrix().inside(row, column) ==> #[trigger] sum.matrix().entry(row, column)
            == operator::settled(
            left.matrix().format,
            algebra::combined(
                left.matrix().entry(row, column),
                right.matrix().entry(row, column),
                V::one_value(),
            ),
        )
}

pub open spec fn same_default<V: Scalar>(left: Option<V>, right: Option<V>) -> bool {
    match (left, right) {
        (None, None) => true,
        (Some(a), Some(b)) => a.matching(b),
        _ => false,
    }
}

/// Some component of the list has the name.
pub open spec fn has_name<V: Scalar>(list: Seq<QuantumComponent<V>>, name: Seq<char>) -> bool {
    exists|i: int| 0 <= i < list.len() && (#[trigger] list[i]).title() == name
}

/// The places of the first components of a list whose names another list lacks.
pub open spec fn newcomers<V: Scalar>(
    left: Seq<QuantumComponent<V>>,
    right: Seq<QuantumComponent<V>>,
    upto: nat,
) -> Seq<int>
    decreases upto,
{
    if upto == 0 {
        Seq::empty()
    } else {
        let front = newcomers(left, right, (upto - 1) as nat);
        if has_name(left, right[upto - 1].title()) {
            front
        } else {
            front.push(upto - 1)
        }
    }
}

/// A component of a sum: with its partner of the same name, or a copy.
pub open spec fn joined_component<V: Scalar>(
    left: QuantumComponent<V>,
    right: Seq<QuantumComponent<V>>,
    sum: QuantumComponent<V>,
) -> bool {
    &&& forall|j: int|
        0 <= j < right.len() && (#[trigger] right[j]).title() == left.title() ==> merged(
            left,
            right[j],
            sum,
        )
    &&& !has_name(right, left.title()) ==> copied(left, sum)
}

/// The components of the sum of two combinations.
pub open spec fn joined<V: Scalar>(
    left: Seq<QuantumComponent<V>>,
    right: Seq<QuantumComponent<V>>,
    sum: Seq<QuantumComponent<V>>,
) -> bool {
    let fresh = newcomers(left, right, right.len());
    &&& sum.len() == left.len() + fresh.len()
    &&& forall|i: int|
        0 <= i < left.len() ==> joined_component(left[i], right, #[trigger] sum[i])
    &&& forall|k: int|
        0 <= k < fresh.len() ==> copied(right[fresh[k]], #[trigger] sum[left.len() + k])
}

impl<V: Scalar> QuantumComponent<V> {
    fn duplicate(&self) -> (copy: Self)
        requires
            self.matrix().wf(),
        ensures
            copied(*self, copy),
    {
        QuantumComponent {
            name: self.name.clone(),
            operator: self.operator.duplicate(),
            default: self.default,
        }
    }
}

fn defaults_agree<V: Scalar>(left: Option<V>, right: Option<V>) -> (same: bool)
    ensures
        same == same_default(left, right),
{
    match (left, right) {
        (None, None) => true,
        (Some(a), Some(b)) => a.equals(b),
        _ => false,
    }
}

impl<V: Scalar> QuantumOperator<V> {
    /// The place of a name.
    fn find(&self, name: &String) -> (place: Option<usize>)
        ensures
            match place {
                Some(at) => at < self.list().len() && self.list()[at as int].title() == name@,
                None => !has_name(self.list(), name@),
            },
    {
        let mut index: usize = 0;
        while index < self.components.len()
            invariant
                index <= self.list().len(),
                forall|i: int|
                    0 <= i < index ==> (#[trigger] self.list()[i]).title() != name@,
            decreases self.components@.len() - index,
        {
            if self.components[index].name == *name {
                return Some(index);
            }
            index = index + 1;
        }
        None
    }

    proof fn lemma_one_name(&self, i: int, j: int)
        requires
            self.wf(),
            0 <= i < self.list().len(),
            0 <= j < self.list().len(),
            self.list()[i].title() == self.list()[j].title(),
        ensures
            i == j,
    {
        if i < j {
            assert(admitted(self.list(), j));
            assert(badly_named(self.list(), j));
        } else if j < i {
            assert(admitted(self.list(), i));
            assert(badly_named(self.list(), i));
        }
    }

    /// Some pair of components of one name has no finite sum.
    pub open spec fn collides(&self, right: &Self) -> bool {
        exists|i: int, j: int|
            {
                &&& 0 <= i < self.list().len()
                &&& 0 <= j < right.list().len()
                &&& (#[trigger] self.list()[i]).title() == (#[trigger] right.list()[j]).title()
                &&& !self.list()[i].matrix().sums_finitely(
                    &right.list()[j].matrix(),
                    V::one_value(),
                )
            }
    }

    /// The sum of two combinations: components of one name are added, the others kept.
    pub fn add(&self, right: &Self) -> (result: Result<Self>)
        requires
            self.wf(),
            right.wf(),
            self.storable(false),
        ensures
            match result {
                Ok(sum) => self.extent() == right.extent() && sum.wf() && joined(
                    self.list(),
                    right.list(),
                    sum.list(),
                ),
                Err(QmbedError::DimensionMismatch(_)) => self.extent() != right.extent(),
                Err(QmbedError::InvalidCoupling(_)) => self.extent() == right.extent()
                    && self.collides(right),
                Err(_) => false,
            },
    {
        if self.shape.0 != right.shape.0 || self.shape.1 != right.shape.1 {
            return Err(
                QmbedError::DimensionMismatch(
                    "parameterized operators must have equal shapes".to_string(),
                ),
            );
        }
        let mut components: Vec<QuantumComponent<V>> = Vec::new();
        while components.len() < self.components.len()
            invariant
                self.wf(),
                right.wf(),
                self.storable(false),
                self.extent() == right.extent(),
                components@.len() <= self.list().len(),
                forall|i: int|
                    0 <= i < components@.len() ==> joined_component(
                        self.list()[i],
                        right.list(),
                        #[trigger] components@[i],
                    ),
            decreases self.components@.len() - components@.len(),
        {
            let component: &QuantumComponent<V> = &self.components[components.len()];
            let ghost at = components@.len() as int;
            assert(*component == self.list()[at]);
            assert(admitted(self.list(), at));
            assert(self.list()[at].matrix().wf());
            match right.find(&component.name) {
                Some(place) => {
                    let partner: &QuantumComponent<V> = &right.components[place];
                    assert(*partner == right.list()[place as int]);
                    assert(admitted(right.list(), place as int));
                    assert(right.list()[place as int].matrix().wf());
                    let operator: Operator<V> = match component.operator.add(&partner.operator) {
                        Ok(operator) => operator,
                        Err(error) => {
                            assert(self.list()[at].title() == right.list()[place as int].title());
                            return Err(error);
                        },
                    };
                    let default: Option<V> = if defaults_agree(component.default, partner.default) {
                        component.default
                    } else {
                        None
                    };
                    let next: QuantumComponent<V> = QuantumComponent {
                        name: component.name.clone(),
                        operator,
                        default,
                    };
                    proof {
                        assert(merged(self.list()[at], right.list()[place as int], next));
                        assert forall|j: int|
                            0 <= j < right.list().len() && (#[trigger] right.list()[j]).title()
                                == self.list()[at].title() implies merged(
                            self.list()[at],
                            right.list()[j],
                            next,
                        ) by {
                            right.lemma_one_name(j, place as int);
                        }
                        assert(has_name(right.list(), self.list()[at].title()));
                    }
                    components.push(next);
                },
                None => {
                    components.push(component.duplicate());
                },
            }
        }
        let ghost half = components@;
        let mut index: usize = 0;
        while index < right.components.len()
            invariant
                self.wf(),
                right.wf(),
                self.extent() == right.extent(),
                half.len() == self.list().len(),
                index <= right.list().len(),
                forall|i: int|
                    0 <= i < half.len() ==> joined_component(
                        self.list()[i],
                        right.list(),
                        #[trigger] half[i],
                    ),
                components@.len() == half.len() + newcomers(
                    self.list(),
                    right.list(),
                    index as nat,
                ).len(),
                forall|i: int| 0 <= i < half.len() ==> #[trigger] components@[i] == half[i],
                forall|k: int|
                    0 <= k < newcomers(self.list(), right.list(), index as nat).len() ==> copied(
                        right.list()[newcomers(self.list(), right.list(), index as nat)[k]],
                        #[trigger] components@[half.len() + k],
                    ),
            decreases right.components@.len() - index,
        {
            let ghost before = components@;
            let ghost fresh = newcomers(self.list(), right.list(), index as nat);
            assert(right.list()[index as int].matrix().wf());
            match self.find(&right.components[index].name) {
                Some(place) => {
                    assert(has_name(self.list(), right.list()[index as int].title())) by {
                        assert(self.list()[place as int].title()
                            == right.list()[index as int].title());
                    }
                },
                None => {
                    components.push(right.components[index].duplicate());
                    proof {
                        let longer = newcomers(self.list(), right.list(), (index + 1) as nat);
                        assert(longer == fresh.push(index as int));
                        assert forall|k: int| 0 <= k < longer.len() implies copied(
                            right.list()[longer[k]],
                            #[trigger] components@[half.len() + k],
                        ) by {
                            if k < fresh.len() {
                                assert(components@[half.len() + k] == before[half.len() + k]);
                            }
                        }
                    }
                },
            }
            index = index + 1;
        }
        proof {
            assert forall|i: int| 0 <= i < half.len() implies joined_component(
                self.list()[i],
                right.list(),
                #[trigger] components@[i],
            ) by {
                assert(components@[i] == half[i]);
            }
            assert(joined(self.list(), right.list(), components@));
            lemma_joined_fits(self, right, components@);
        }
        let result: Result<Self> = Self::new(components);
        proof {
            if let Err(error) = &result {
                let at = choose|at: int| #[trigger] first_rejected(components@, at, *error);
                assert(admitted(components@, at));
            }
        }
        result
    }
}

proof fn lemma_newcomers<V: Scalar>(
    left: Seq<QuantumComponent<V>>,
    right: Seq<QuantumComponent<V>>,
    upto: nat,
)
    requires
        upto <= right.len(),
    ensures
        forall|k: int|
            0 <= k < newcomers(left, right, upto).len() ==> 0 <= #[trigger] newcomers(
                left,
                right,
                upto,
            )[k] < upto && !has_name(left, right[newcomers(left, right, upto)[k]].title()),
        forall|k: int, l: int|
            0 <= k < l < newcomers(left, right, upto).len() ==> #[trigger] newcomers(
                left,
                right,
                upto,
            )[k] < #[trigger] newcomers(left, right, upto)[l],
    decreases upto,
{
    if upto > 0 {
        lemma_newcomers(left, right, (upto - 1) as nat);
        let front = newcomers(left, right, (upto - 1) as nat);
        let list = newcomers(left, right, upto);
        assert forall|k: int| 0 <= k < list.len() implies 0 <= #[trigger] list[k] < upto
            && !has_name(left, right[list[k]].title()) by {
            if k < front.len() {
                assert(list[k] == front[k]);
            }
        }
        assert forall|k: int, l: int| 0 <= k < l < list.len() implies #[trigger] list[k]
            < #[trigger] list[l] by {
            assert(list[k] == front[k]);
            if l < front.len() {
                assert(list[l] == front[l]);
            }
        }
    }
}

/// The components of a sum can stand in a combination.
proof fn lemma_joined_fits<V: Scalar>(
    left: &QuantumOperator<V>,
    right: &QuantumOperator<V>,
    sum: Seq<QuantumComponent<V>>,
)
    requires
        left.wf(),
        right.wf(),
        left.extent() == right.extent(),
        joined(left.list(), right.list(), sum),
    ensures
        sum.len() > 0,
        forall|i: int| 0 <= i < sum.len() ==> (#[trigger] sum[i]).matrix().wf(),
        forall|i: int| 0 <= i < sum.len() ==> #[trigger] admitted(sum, i),
{
    let a = left.list();
    let b = right.list();
    let fresh = newcomers(a, b, b.len());
    lemma_newcomers(a, b, b.len());
    assert forall|i: int| 0 <= i < sum.len() implies (#[trigger] sum[i]).matrix().wf()
        && sum[i].matrix().shape == left.extent() && sum[i].title().len() > 0 && !bad_default(
        sum[i],
    ) && (i < a.len() ==> sum[i].title() == a[i].title()) && (i >= a.len() ==> sum[i].title()
        == b[fresh[i - a.len()]].title()) by {
        if i < a.len() {
            assert(joined_component(a[i], b, sum[i]));
            assert(admitted(a, i));
            if has_name(b, a[i].title()) {
                let j = choose|j: int|
                    0 <= j < b.len() && (#[trigger] b[j]).title() == a[i].title();
                assert(merged(a[i], b[j], sum[i]));
            } else {
                assert(copied(a[i], sum[i]));
            }
        } else {
            let k = i - a.len();
            assert(sum[a.len() + k] == sum[i]);
            assert(copied(b[fresh[k]], sum[a.len() + k]));
            assert(admitted(b, fresh[k]));
        }
    }
    assert forall|i: int| 0 <= i < sum.len() implies #[trigger] admitted(sum, i) by {
        assert(sum[i].matrix().wf());
        assert(sum[0].matrix().wf());
        if badly_named(sum, i) {
            let j = choose|j: int| 0 <= j < i && (#[trigger] sum[j]).title() == sum[i].title();
            assert(sum[j].matrix().wf());
            if i < a.len() {
                left.lemma_one_name(i, j);
            } else if j < a.len() {
                let k = i - a.len();
                assert(a[j].title() == b[fresh[k]].title());
                assert(has_name(a, b[fresh[k]].title()));
            } else {
                let k = i - a.len();
                let l = j - a.len();
                right.lemma_one_name(fresh[k], fresh[l]);
                assert(fresh[l] < fresh[k]);
            }
        }
    }
}

} // verus!
