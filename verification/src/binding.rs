//! Requests in plain values: which basis, which terms.

use vstd::prelude::*;
use crate::assembly::OperatorBuilder;
use crate::basis::Basis;
use crate::boson::BosonBasisBuilder;
use crate::error::{QmbedError, Result};
use crate::fermion::SpinlessFermionBasisBuilder;
use crate::notation;
use crate::operator::{MatrixFormat, Operator};
use crate::operator;
use crate::packed::PackedKind;
use crate::scalar::{Amplitude, Scalar};
use crate::spin::{SpinBasisBuilder, SpinNormalization};
use crate::spin;
use crate::spinful::SpinfulFermionBasisBuilder;
use crate::states;
use crate::symmetry;
use crate::terms::{Coupling, LocalOperator, OpProduct, OperatorTerm};
use crate::terms;

verus! {

/// Which basis is asked for.
#[derive(Clone, Copy, Debug)]
pub enum BasisRequest {
    Spin {
        sites: usize,
        spin_twice: u16,
        up: Option<usize>,
        momentum: Option<i32>,
        parity: Option<i8>,
        pauli: bool,
    },
    Boson { sites: usize, particles: Option<usize>, states_per_site: usize },
    SpinlessFermion { sites: usize, particles: Option<usize>, momentum: Option<i32> },
    SpinfulFermion {
        sites: usize,
        particles_up: Option<usize>,
        particles_down: Option<usize>,
    },
}

impl BasisRequest {
    /// The basis is the one that was asked for.
    pub open spec fn met_by(self, basis: PackedKind) -> bool {
        match self {
            BasisRequest::Spin { sites, spin_twice, up, momentum, parity, pauli } => match basis {
                PackedKind::Spin(built) => {
                    &&& built.wf()
                    &&& built.spec_sites() == sites
                    &&& built.spec_spin_twice() == spin_twice
                    &&& built.spec_up() == up
                    &&& built.spec_normalization() == spin::pauli_units(pauli)
                    &&& built.ring() == symmetry::spin_symmetry(
                        sites,
                        (spin_twice + 1) as u128,
                        momentum,
                        parity,
                    )
                },
                _ => false,
            },
            BasisRequest::Boson { sites, particles, states_per_site } => match basis {
                PackedKind::Boson(built) => {
                    &&& built.wf()
                    &&& built.spec_sites() == sites
                    &&& built.spec_particles() == particles
                    &&& built.spec_states_per_site() == states_per_site
                },
                _ => false,
            },
            BasisRequest::SpinlessFermion { sites, particles, momentum } => match basis {
                PackedKind::SpinlessFermion(built) => {
                    &&& built.wf()
                    &&& built.spec_sites() == sites
                    &&& built.spec_particles() == particles
                    &&& built.ring() == symmetry::fermion_symmetry(sites, momentum)
                },
                _ => false,
            },
            BasisRequest::SpinfulFermion { sites, particles_up, particles_down } => match basis {
                PackedKind::SpinfulFermion(built) => {
                    &&& built.wf()
                    &&& built.spec_sites() == sites
                    &&& built.spec_particles_up() == particles_up
                    &&& built.spec_particles_down() == particles_down
                    &&& built.spec_union() is None
                },
                _ => false,
            },
        }
    }

    pub open spec fn spin_builder(self) -> SpinBasisBuilder {
        SpinBasisBuilder {
            sites: self->Spin_sites,
            spin_twice: self->spin_twice,
            up: self->up,
            momentum: self->Spin_momentum,
            parity: self->parity,
            normalization: spin::pauli_units(self->pauli),
        }
    }

    /// No basis can be built for the request, and the error says why.
    pub open spec fn refused_with(self, error: QmbedError) -> bool {
        match self {
            BasisRequest::Spin { .. } => spin::refused_as(error, self.spin_builder().verdict()),
            BasisRequest::Boson { sites, particles, states_per_site } => {
                let builder = BosonBasisBuilder { sites, states_per_site, particles };
                match error {
                    QmbedError::InvalidSector(_) => builder.empty(),
                    QmbedError::UnsupportedBackend(_) => !builder.empty()
                        && !states::digit_sum_sector_fits(sites, states_per_site),
                    _ => false,
                }
            },
            BasisRequest::SpinlessFermion { sites, particles, momentum } => {
                let builder = SpinlessFermionBasisBuilder { sites, particles, momentum };
                match error {
                    QmbedError::UnsupportedBackend(_) => builder.oversized(),
                    QmbedError::InvalidSector(_) => !builder.oversized() && builder.empty(),
                    _ => false,
                }
            },
            BasisRequest::SpinfulFermion { sites, particles_up, particles_down } => {
                let builder = SpinfulFermionBasisBuilder {
                    sites,
                    particles_up,
                    particles_down,
                    particle_sectors: None,
                };
                match error {
                    QmbedError::UnsupportedBackend(_) => sites > 64,
                    QmbedError::InvalidSector(_) => sites <= 64 && builder.unmeetable(),
                    _ => false,
                }
            },
        }
    }

    /// Builds the basis.
    pub fn build(self) -> (result: Result<PackedKind>)
        ensures
            match result {
                Ok(basis) => self.met_by(basis),
                Err(error) => self.refused_with(error),
            },
    {
        match self {
            BasisRequest::Spin { sites, spin_twice, up, momentum, parity, pauli } => {
                let normalization: SpinNormalization = if pauli {
                    SpinNormalization::PauliCartesian
                } else {
                    SpinNormalization::AngularMomentum
                };
                let builder = SpinBasisBuilder {
                    sites,
                    spin_twice,
                    up,
                    momentum,
                    parity,
                    normalization,
                };
                match builder.build() {
                    Ok(basis) => Ok(PackedKind::Spin(basis)),
                    Err(error) => Err(error),
                }
            },
            BasisRequest::Boson { sites, particles, states_per_site } => {
                let builder = BosonBasisBuilder { sites, states_per_site, particles };
                match builder.build() {
                    Ok(basis) => Ok(PackedKind::Boson(basis)),
                    Err(error) => Err(error),
                }
            },
            BasisRequest::SpinlessFermion { sites, particles, momentum } => {
                let builder = SpinlessFermionBasisBuilder { sites, particles, momentum };
                match builder.build() {
                    Ok(basis) => Ok(PackedKind::SpinlessFermion(basis)),
                    Err(error) => Err(error),
                }
            },
            BasisRequest::SpinfulFermion { sites, particles_up, particles_down } => {
                let builder = SpinfulFermionBasisBuilder {
                    sites,
                    particles_up,
                    particles_down,
                    particle_sectors: None,
                };
                match builder.build() {
                    Ok(basis) => Ok(PackedKind::SpinfulFermion(basis)),
                    Err(error) => Err(error),
                }
            },
        }
    }
}

/// The local operator that a name stands for.
pub open spec fn named(name: Seq<char>) -> Option<LocalOperator> {
    if name == "identity"@ {
        Some(LocalOperator::Identity)
    } else if name == "number"@ {
        Some(LocalOperator::Number)
    } else if name == "z"@ {
        Some(LocalOperator::Z)
    } else if name == "raising"@ {
        Some(LocalOperator::Raising)
    } else if name == "lowering"@ {
        Some(LocalOperator::Lowering)
    } else if name == "x"@ {
        Some(LocalOperator::X)
    } else if name == "y"@ {
        Some(LocalOperator::Y)
    } else if name.len() == 8 && name.subrange(0, 7) == "custom:"@ {
        Some(LocalOperator::Custom(name[7]))
    } else {
        None
    }
}

fn text_is(chars: &Vec<char>, text: &str) -> (same: bool)
    ensures
        same == (chars@ == text@),
{
    let other: Vec<char> = notation::text_chars(text);
    if chars.len() != other.len() {
        return false;
    }
    let mut index: usize = 0;
    while index < chars.len()
        invariant
            index <= chars@.len(),
            chars@.len() == other@.len(),
            other@ == text@,
            forall|i: int| 0 <= i < index ==> #[trigger] chars@[i] == other@[i],
        decreases chars@.len() - index,
    {
        if chars[index] != other[index] {
            assert(chars@[index as int] != text@[index as int]);
            return false;
        }
        index = index + 1;
    }
    assert(chars@ =~= text@);
    true
}

/// Reads the name of a local operator.
pub fn typed_local_operator(name: &str) -> (result: Result<LocalOperator>)
    ensures
        match result {
            Ok(operator) => named(name@) == Some(operator),
            Err(error) => error is InvalidOperator && named(name@) is None,
        },
{
    let chars: Vec<char> = notation::text_chars(name);
    if text_is(&chars, "identity") {
        return Ok(LocalOperator::Identity);
    }
    if text_is(&chars, "number") {
        return Ok(LocalOperator::Number);
    }
    if text_is(&chars, "z") {
        return Ok(LocalOperator::Z);
    }
    if text_is(&chars, "raising") {
        return Ok(LocalOperator::Raising);
    }
    if text_is(&chars, "lowering") {
        return Ok(LocalOperator::Lowering);
    }
    if text_is(&chars, "x") {
        return Ok(LocalOperator::X);
    }
    if text_is(&chars, "y") {
        return Ok(LocalOperator::Y);
    }
    if chars.len() == 8 {
        let symbol: char = chars[7];
        let mut prefix: Vec<char> = Vec::new();
        let mut index: usize = 0;
        while index < 7
            invariant
                index <= 7,
                chars@.len() == 8,
                prefix@ == chars@.subrange(0, index as int),
            decreases 7 - index,
        {
            prefix.push(chars[index]);
            index = index + 1;
            assert(prefix@ =~= chars@.subrange(0, index as int));
        }
        if text_is(&prefix, "custom:") {
            return Ok(LocalOperator::Custom(symbol));
        }
    }
    Err(QmbedError::InvalidOperator(name.to_string()))
}

/// A product by the names of its operators.
#[derive(Debug)]
pub struct ProductRequest {
    pub local: Vec<String>,
    pub split: Option<usize>,
}

/// A term by the names of its operators and its couplings.
#[derive(Debug)]
pub struct TermRequest<V> {
    pub product: ProductRequest,
    pub couplings: Vec<Coupling<V>>,
}

/// Every name stands for an operator.
pub open spec fn all_known(names: Seq<String>) -> bool {
    forall|i: int| 0 <= i < names.len() ==> named((#[trigger] names[i])@) is Some
}

/// The operators that names stand for.
pub open spec fn operators_named(names: Seq<String>) -> Seq<LocalOperator> {
    Seq::new(names.len(), |i: int| named(names[i]@)->Some_0)
}

/// The term is the one that was asked for.
pub open spec fn term_met<V: Scalar>(request: TermRequest<V>, term: OperatorTerm<V>) -> bool {
    &&& term.wf()
    &&& all_known(request.product.local@)
    &&& term.factors().operators() == operators_named(request.product.local@)
    &&& term.factors().boundary() == request.product.split
    &&& term.terms() == request.couplings@
}

/// No term can be read from the request, and the error says why.
pub open spec fn term_refused<V: Scalar>(request: TermRequest<V>, error: QmbedError) -> bool {
    let names = request.product.local@;
    if !all_known(names) || !terms::acceptable(operators_named(names), request.product.split) {
        error is InvalidOperator
    } else {
        error is InvalidCoupling && !terms::fitting(request.couplings@, names.len())
    }
}

/// Reads a term.
pub fn typed_term<V: Scalar>(term: TermRequest<V>) -> (result: Result<OperatorTerm<V>>)
    ensures
        match result {
            Ok(typed) => term_met(term, typed),
            Err(error) => term_refused(term, error),
        },
{
    let mut local: Vec<LocalOperator> = Vec::new();
    let mut index: usize = 0;
    while index < term.product.local.len()
        invariant
            index <= term.product.local@.len(),
            local@.len() == index,
            forall|i: int|
                0 <= i < index ==> named((#[trigger] term.product.local@[i])@) == Some(local@[i]),
        decreases term.product.local@.len() - index,
    {
        match typed_local_operator(term.product.local[index].as_str()) {
            Ok(operator) => {
                local.push(operator);
            },
            Err(error) => {
                assert(named(term.product.local@[index as int]@) is None);
                return Err(error);
            },
        }
        index = index + 1;
    }
    assert(local@ =~= operators_named(term.product.local@));
    let product: OpProduct = match OpProduct::with_split(local, term.product.split) {
        Ok(product) => product,
        Err(error) => {
            return Err(error);
        },
    };
    proof {
        product.lemma_wf();
    }
    OperatorTerm::from_product(product, term.couplings)
}

/// The terms are those that were asked for.
pub open spec fn terms_met<V: Scalar>(
    requests: Seq<TermRequest<V>>,
    list: Seq<OperatorTerm<V>>,
) -> bool {
    list.len() == requests.len() && forall|i: int|
        0 <= i < list.len() ==> term_met(requests[i], #[trigger] list[i])
}

/// The term at a place is the first that cannot be read.
pub open spec fn stops_at<V: Scalar>(
    requests: Seq<TermRequest<V>>,
    place: int,
    error: QmbedError,
) -> bool {
    &&& 0 <= place < requests.len()
    &&& term_refused(requests[place], error)
    &&& exists|list: Seq<OperatorTerm<V>>| #[trigger] terms_met(requests.take(place), list)
}

/// Reads terms in order.
pub fn typed_terms<V: Scalar>(requests: Vec<TermRequest<V>>) -> (result: Result<
    Vec<OperatorTerm<V>>,
>)
    ensures
        match result {
            Ok(list) => terms_met(requests@, list@),
            Err(error) => exists|place: int| #[trigger] stops_at(requests@, place, error),
        },
{
    let ghost all = requests@;
    let mut forward: Vec<TermRequest<V>> = requests;
    let mut backward: Vec<TermRequest<V>> = Vec::new();
    while forward.len() > 0
        invariant
            forward@ == all.take(forward@.len() as int),
            forward@.len() + backward@.len() == all.len(),
            forall|i: int|
                0 <= i < backward@.len() ==> #[trigger] backward@[i] == all[all.len() - 1 - i],
        decreases forward@.len(),
    {
        let ghost before = forward@;
        if let Some(request) = forward.pop() {
            assert(request == all[before.len() - 1]);
            backward.push(request);
        }
        assert(forward@ =~= all.take(forward@.len() as int));
    }
    let mut list: Vec<OperatorTerm<V>> = Vec::new();
    while backward.len() > 0
        invariant
            all == requests@,
            backward@.len() + list@.len() == all.len(),
            forall|i: int|
                0 <= i < backward@.len() ==> #[trigger] backward@[i] == all[all.len() - 1 - i],
            forall|i: int| 0 <= i < list@.len() ==> term_met(all[i], #[trigger] list@[i]),
        decreases backward@.len(),
    {
        let ghost place = list@.len() as int;
        if let Some(request) = backward.pop() {
            assert(request == all[place]);
            match typed_term(request) {
                Ok(term) => {
                    list.push(term);
                },
                Err(error) => {
                    assert(terms_met(all.take(place), list@));
                    assert(stops_at(all, place, error));
                    return Err(error);
                },
            }
        }
    }
    Ok(list)
}

/// What assembling the terms of a request on a basis gives.
pub open spec fn assembled<V: Amplitude, B: Basis>(
    basis: &B,
    requests: Seq<TermRequest<V>>,
    format: MatrixFormat,
    result: Result<Operator<V>>,
) -> bool {
    ||| result is Err && exists|place: int| #[trigger]
        stops_at(requests, place, result->Err_0)
    ||| exists|builder: OperatorBuilder<V, B, B>|
        {
            &&& #[trigger] answered(basis, requests, builder)
            &&& if operator::storable(
                basis.listed().len() as usize,
                basis.listed().len() as usize,
                format,
            ) {
                builder.answers(format, result)
            } else {
                result matches Err(QmbedError::UnsupportedBackend(_))
            }
        }
}

/// The builder holds the terms of a request and makes every check.
pub open spec fn answered<V: Amplitude, B: Basis>(
    basis: &B,
    requests: Seq<TermRequest<V>>,
    builder: OperatorBuilder<V, B, B>,
) -> bool {
    &&& builder.source == basis
    &&& builder.target == basis
    &&& terms_met(requests, builder.terms@)
    &&& builder.checks.hermiticity
    &&& builder.checks.particle_conservation
    &&& builder.checks.symmetry_compatibility
}

/// Assembles the terms of a request on a basis, with every check. A matrix that no
/// storage of the machine can hold is refused.
pub fn assemble_on<V: Amplitude, B: Basis>(
    basis: &B,
    requests: Vec<TermRequest<V>>,
    format: MatrixFormat,
) -> (result: Result<Operator<V>>)
    requires
        basis.well_formed(),
        forall|i: int|
            0 <= i < requests@.len() ==> (#[trigger] requests@[i]).product.local@.len()
                < i32::MAX,
    ensures
        assembled(basis, requests@, format, result),
{
    let ghost all = requests@;
    let list: Vec<OperatorTerm<V>> = match typed_terms(requests) {
        Ok(list) => list,
        Err(error) => {
            return Err(error);
        },
    };
    let rows: usize = basis.len();
    let fits: bool = match format {
        MatrixFormat::Dense => rows.checked_mul(rows).is_some(),
        MatrixFormat::Csc => rows < usize::MAX,
        MatrixFormat::Csr => rows < usize::MAX,
        _ => true,
    };
    assert(fits == operator::storable(rows, rows, format));
    let start: OperatorBuilder<V, B, B> = OperatorBuilder::on(basis);
    let builder: OperatorBuilder<V, B, B> = start.terms(list);
    proof {
        assert(builder.terms@ =~= list@);
        assert(answered(basis, all, builder));
        assert forall|i: int| 0 <= i < builder.terms@.len() implies (
        #[trigger] builder.terms@[i]).wf() && builder.terms@[i].factors().operators().len()
            < i32::MAX by {
            assert(term_met(all[i], list@[i]));
            assert(all[i].product.local@.len() < i32::MAX);
        }
    }
    if !fits {
        return Err(
            QmbedError::UnsupportedBackend("the operator is too large to be stored".to_string()),
        );
    }
    builder.build(format)
}

/// Builds the basis of a request and assembles its terms there.
pub fn assemble_request<V: Amplitude>(
    request: BasisRequest,
    requests: Vec<TermRequest<V>>,
    format: MatrixFormat,
) -> (result: Result<Operator<V>>)
    requires
        forall|i: int|
            0 <= i < requests@.len() ==> (#[trigger] requests@[i]).product.local@.len()
                < i32::MAX,
    ensures
        (result is Err && request.refused_with(result->Err_0)) || exists|basis: PackedKind|
            #[trigger] request.met_by(basis) && assembled(
                &basis,
                requests@,
                format,
                result,
            ),
{
    let ghost all = requests@;
    let basis: PackedKind = match request.build() {
        Ok(basis) => basis,
        Err(error) => {
            return Err(error);
        },
    };
    let result: Result<Operator<V>> = assemble_on(&basis, requests, format);
    proof {
        assert(request.met_by(basis) && assembled(&basis, all, format, result));
    }
    result
}

} // verus!
