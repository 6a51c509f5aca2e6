//! Products of local operators acting on a many-body state, with exact amplitudes.

use vstd::prelude::*;
use crate::error::{QmbedError, Result};
use crate::error;

verus! {

/// One exact factor of a matrix element: `i^quarter_turns * numerator * sqrt(radicand)`,
/// halved if so marked.
#[derive(Clone, Copy, Debug, PartialEq, Eq, Structural)]
pub struct LocalFactor {
    pub quarter_turns: u8,
    pub numerator: u128,
    pub halved: bool,
    pub radicand: u128,
}

/// A complex number by the bit patterns of its parts.
#[derive(Clone, Copy, Debug, PartialEq, Eq, Structural)]
pub struct Bits {
    pub first: u64,
    pub second: u64,
}

/// The factor that comes with replacing a state by the representative of its orbit:
/// `sqrt(source_orbit / target_orbit) * exp(2 pi i turn / steps)`, and the conjugate of
/// the given phase where the symmetry maps bring their own.
#[derive(Clone, Copy, Debug, PartialEq, Eq, Structural)]
pub struct Reduction {
    pub turn: usize,
    pub steps: usize,
    pub given: Option<Bits>,
    pub source_orbit: usize,
    pub target_orbit: usize,
}

/// One factor of a matrix element.
#[derive(Clone, Copy, Debug, PartialEq, Eq, Structural)]
pub enum Factor {
    Local(LocalFactor),
    Orbit(Reduction),
    Given(Bits),
}

/// One outcome of a single local operator: the new state and its factor, `None`
/// standing for one.
#[derive(Clone, Copy, Debug)]
pub struct Move<S> {
    pub state: S,
    pub factor: Option<LocalFactor>,
}

/// One outcome of an operator product: the final state and the factors of its
/// matrix element, in the order in which the local operators act.
#[derive(Debug)]
pub struct Transition<S> {
    pub state: S,
    pub factors: Vec<Factor>,
}

/// Why an operator product is refused; an operator of the user's own that refuses a
/// state does so with one of the errors it has for that.
pub ghost enum Fault {
    Arity,
    Site { site: usize, sites: usize },
    Symbol,
    Outside,
    Refused(Set<QmbedError>),
}

/// The error of the library that reports the fault; one that an operator brings is
/// handed on.
pub open spec fn reports(error: QmbedError, fault: Fault) -> bool {
    match fault {
        Fault::Arity => error is InvalidCoupling,
        Fault::Site { site, sites } => error matches QmbedError::InvalidSite { site: s, sites: n }
            && s == site && n == sites,
        Fault::Symbol => error is InvalidOperator,
        Fault::Outside => error is StateNotInBasis,
        Fault::Refused(errors) => errors.contains(error),
    }
}

pub open spec fn moves_view<S>(moves: Seq<Move<S>>) -> Seq<(S, Option<LocalFactor>)> {
    Seq::new(moves.len(), |i: int| (moves[i].state, moves[i].factor))
}

pub open spec fn transitions_view<S>(list: Seq<Transition<S>>) -> Seq<(S, Seq<Factor>)> {
    Seq::new(list.len(), |i: int| (list[i].state, list[i].factors@))
}

/// The outcome of a local operator, or the fault in it.
pub type LocalOutcome<S> = std::result::Result<Seq<(S, Option<LocalFactor>)>, Fault>;

/// The outcome of an operator product, or the first fault met.
pub type ProductOutcome<S> = std::result::Result<Seq<(S, Seq<Factor>)>, Fault>;

/// The local operators of a lattice of quantum degrees of freedom.
pub trait LocalAlgebra {
    type State: Copy;

    spec fn ready(&self) -> bool;

    /// A state on which the local operators act without leaving the encoding.
    spec fn valid_state(&self, state: Self::State) -> bool;

    /// What the symbol in place `position` of a product does at a site.
    spec fn moves(
        &self,
        state: Self::State,
        symbol: char,
        position: nat,
        site: usize,
    ) -> LocalOutcome<Self::State>;

    fn apply_symbol(
        &self,
        state: Self::State,
        symbol: char,
        position: usize,
        site: usize,
    ) -> (result: Result<Vec<Move<Self::State>>>)
        requires
            self.ready(),
            self.valid_state(state),
        ensures
            match result {
                Ok(moves) => {
                    &&& self.moves(state, symbol, position as nat, site) == LocalOutcome::<
                        Self::State,
                    >::Ok(moves_view(moves@))
                    &&& moves.len() <= 2
                    &&& forall|i: int|
                        0 <= i < moves.len() ==> self.valid_state((#[trigger] moves[i]).state)
                },
                Err(error) => {
                    &&& self.moves(state, symbol, position as nat, site) is Err
                    &&& reports(
                        error,
                        self.moves(state, symbol, position as nat, site)->Err_0,
                    )
                },
            },
    ;
}

/// The factors so far with those of one more move.
pub open spec fn extended(
    factors: Seq<Factor>,
    factor: Option<LocalFactor>,
) -> Seq<Factor> {
    match factor {
        Some(one) => factors.push(Factor::Local(one)),
        None => factors,
    }
}

/// The first outcomes followed by the second ones, or the first fault.
pub open spec fn joined<S>(first: ProductOutcome<S>, second: ProductOutcome<S>) -> ProductOutcome<
    S,
> {
    match first {
        Err(fault) => Err(fault),
        Ok(a) => match second {
            Err(fault) => Err(fault),
            Ok(b) => Ok(a + b),
        },
    }
}

/// What the leftmost `remaining` local operators of a product do to a state that the
/// others have already acted on with the given factors; the rightmost acts first.
pub open spec fn product_action<A: LocalAlgebra>(
    algebra: &A,
    state: A::State,
    factors: Seq<Factor>,
    symbols: Seq<char>,
    sites: Seq<usize>,
    remaining: nat,
) -> ProductOutcome<A::State>
    decreases remaining, 0nat,
{
    if remaining == 0 {
        Ok(seq![(state, factors)])
    } else {
        let position = (remaining - 1) as nat;
        match algebra.moves(state, symbols[position as int], position, sites[position as int]) {
            Err(fault) => Err(fault),
            Ok(moves) => spread_action(algebra, moves, factors, symbols, sites, position),
        }
    }
}

/// The rest of the product on each of several states in turn.
pub open spec fn spread_action<A: LocalAlgebra>(
    algebra: &A,
    moves: Seq<(A::State, Option<LocalFactor>)>,
    factors: Seq<Factor>,
    symbols: Seq<char>,
    sites: Seq<usize>,
    remaining: nat,
) -> ProductOutcome<A::State>
    decreases remaining, moves.len() + 1,
{
    if moves.len() == 0 {
        Ok(Seq::empty())
    } else {
        joined(
            product_action(
                algebra,
                moves[0].0,
                extended(factors, moves[0].1),
                symbols,
                sites,
                remaining,
            ),
            spread_action(algebra, moves.drop_first(), factors, symbols, sites, remaining),
        )
    }
}

/// What an operator product does to a state.
pub open spec fn operator_action<A: LocalAlgebra>(
    algebra: &A,
    state: A::State,
    symbols: Seq<char>,
    sites: Seq<usize>,
) -> ProductOutcome<A::State> {
    if symbols.len() != sites.len() {
        Err(Fault::Arity)
    } else {
        product_action(algebra, state, Seq::empty(), symbols, sites, symbols.len())
    }
}

/// A branch of a product that has not been followed to its end.
struct Pending<S> {
    state: S,
    factors: Vec<Factor>,
    remaining: usize,
}

/// What the pending branches lead to, the last one first.
spec fn pending_action<A: LocalAlgebra>(
    algebra: &A,
    pending: Seq<Pending<A::State>>,
    symbols: Seq<char>,
    sites: Seq<usize>,
) -> ProductOutcome<A::State>
    decreases pending.len(),
{
    if pending.len() == 0 {
        Ok(Seq::empty())
    } else {
        let top = pending.last();
        joined(
            product_action(
                algebra,
                top.state,
                top.factors@,
                symbols,
                sites,
                top.remaining as nat,
            ),
            pending_action(algebra, pending.drop_last(), symbols, sites),
        )
    }
}

/// A bound on the steps that one branch takes.
spec fn branch_weight(remaining: nat) -> nat
    decreases remaining,
{
    if remaining == 0 {
        1
    } else {
        2 * branch_weight((remaining - 1) as nat) + 1
    }
}

spec fn stack_weight<S>(pending: Seq<Pending<S>>) -> nat
    decreases pending.len(),
{
    if pending.len() == 0 {
        0
    } else {
        branch_weight(pending.last().remaining as nat) + stack_weight(pending.drop_last())
    }
}

proof fn lemma_stack_weight<S>(base: Seq<Pending<S>>, stack: Seq<Pending<S>>, remaining: usize)
    requires
        base.len() <= stack.len() <= base.len() + 2,
        stack.subrange(0, base.len() as int) == base,
        forall|i: int|
            base.len() <= i < stack.len() ==> (#[trigger] stack[i]).remaining == remaining,
    ensures
        stack_weight(stack) <= stack_weight(base) + 2 * branch_weight(remaining as nat),
{
    if stack.len() == base.len() {
        assert(stack =~= base);
    } else if stack.len() == base.len() + 1 {
        assert(stack.drop_last() =~= base);
        assert(stack.last() == stack[base.len() as int]);
    } else {
        let lower = stack.drop_last();
        assert(lower.drop_last() =~= base);
        assert(lower.last() == stack[base.len() as int]);
        assert(stack.last() == stack[(base.len() + 1) as int]);
        assert(stack_weight(lower) == branch_weight(remaining as nat) + stack_weight(base));
    }
}

proof fn lemma_joined_assoc<S>(a: ProductOutcome<S>, b: ProductOutcome<S>, c: ProductOutcome<S>)
    ensures
        joined(joined(a, b), c) == joined(a, joined(b, c)),
{
    if a is Ok && b is Ok && c is Ok {
        assert((a->Ok_0 + b->Ok_0) + c->Ok_0 =~= a->Ok_0 + (b->Ok_0 + c->Ok_0));
    }
}

proof fn lemma_joined_empty<S>(a: ProductOutcome<S>)
    ensures
        joined(Ok(Seq::empty()), a) == a,
        joined(a, Ok(Seq::empty())) == a,
{
    if a is Ok {
        assert(Seq::<(S, Seq<Factor>)>::empty() + a->Ok_0 =~= a->Ok_0);
        assert(a->Ok_0 + Seq::<(S, Seq<Factor>)>::empty() =~= a->Ok_0);
    }
}

/// A copy of a list of factors.
pub(crate) fn copy_factors(factors: &Vec<Factor>) -> (copy: Vec<Factor>)
    ensures
        copy@ == factors@,
{
    let mut copy: Vec<Factor> = Vec::new();
    let mut index: usize = 0;
    while index < factors.len()
        invariant
            index <= factors.len(),
            copy@ == factors@.subrange(0, index as int),
        decreases factors.len() - index,
    {
        copy.push(factors[index]);
        index = index + 1;
    }
    assert(factors@.subrange(0, index as int) =~= factors@);
    copy
}

/// Follows one branch through the operator in place `remaining - 1` and pushes the
/// resulting branches, the first outcome on top.
fn push_branches<S: Copy>(
    moves: &Vec<Move<S>>,
    factors: &Vec<Factor>,
    remaining: usize,
    pending: &mut Vec<Pending<S>>,
)
    ensures
        final(pending)@.len() == old(pending)@.len() + moves@.len(),
        final(pending)@.subrange(0, old(pending)@.len() as int) == old(pending)@,
        forall|i: int|
            0 <= i < moves@.len() ==> ({
                let item = #[trigger] final(pending)@[old(pending)@.len() + i];
                let source = moves@[moves@.len() - 1 - i];
                &&& item.state == source.state
                &&& item.factors@ == extended(factors@, source.factor)
                &&& item.remaining == remaining
            }),
{
    let ghost start = pending@;
    let mut left: usize = moves.len();
    while left > 0
        invariant
            left <= moves.len(),
            pending@.len() == start.len() + moves@.len() - left,
            pending@.subrange(0, start.len() as int) == start,
            forall|i: int|
                0 <= i < moves@.len() - left ==> ({
                    let item = #[trigger] pending@[start.len() + i];
                    let source = moves@[moves@.len() - 1 - i];
                    &&& item.state == source.state
                    &&& item.factors@ == extended(factors@, source.factor)
                    &&& item.remaining == remaining
                }),
        decreases left,
    {
        left = left - 1;
        let step: Move<S> = moves[left];
        let mut path: Vec<Factor> = copy_factors(factors);
        if let Some(factor) = step.factor {
            path.push(Factor::Local(factor));
        }
        let ghost before = pending@;
        pending.push(Pending { state: step.state, factors: path, remaining });
        assert(pending@.subrange(0, start.len() as int) =~= before.subrange(0, start.len() as int));
        assert forall|i: int| 0 <= i < moves@.len() - left implies ({
            let item = #[trigger] pending@[start.len() + i];
            let source = moves@[moves@.len() - 1 - i];
            &&& item.state == source.state
            &&& item.factors@ == extended(factors@, source.factor)
            &&& item.remaining == remaining
        }) by {
            if i < moves@.len() - left - 1 {
                assert(pending@[start.len() + i] == before[start.len() + i]);
            }
        }
    }
}

proof fn lemma_pushed_branches<A: LocalAlgebra>(
    algebra: &A,
    base: Seq<Pending<A::State>>,
    stack: Seq<Pending<A::State>>,
    moves: Seq<(A::State, Option<LocalFactor>)>,
    factors: Seq<Factor>,
    symbols: Seq<char>,
    sites: Seq<usize>,
    remaining: usize,
)
    requires
        stack.len() == base.len() + moves.len(),
        stack.subrange(0, base.len() as int) == base,
        forall|i: int|
            0 <= i < moves.len() ==> ({
                let item = #[trigger] stack[base.len() + i];
                let source = moves[moves.len() - 1 - i];
                &&& item.state == source.0
                &&& item.factors@ == extended(factors, source.1)
                &&& item.remaining == remaining
            }),
    ensures
        pending_action(algebra, stack, symbols, sites) == joined(
            spread_action(algebra, moves, factors, symbols, sites, remaining as nat),
            pending_action(algebra, base, symbols, sites),
        ),
    decreases moves.len(),
{
    if moves.len() == 0 {
        assert(stack =~= base);
        lemma_joined_empty(pending_action(algebra, base, symbols, sites));
    } else {
        let rest = moves.drop_first();
        let lower = stack.drop_last();
        assert(lower.subrange(0, base.len() as int) =~= base);
        assert forall|i: int| 0 <= i < rest.len() implies ({
            let item = #[trigger] lower[base.len() + i];
            let source = rest[rest.len() - 1 - i];
            &&& item.state == source.0
            &&& item.factors@ == extended(factors, source.1)
            &&& item.remaining == remaining
        }) by {
            assert(lower[base.len() + i] == stack[base.len() + i]);
        }
        lemma_pushed_branches(algebra, base, lower, rest, factors, symbols, sites, remaining);
        let top = stack[base.len() + (moves.len() - 1)];
        assert(top == stack.last());
        let first = product_action(
            algebra,
            moves[0].0,
            extended(factors, moves[0].1),
            symbols,
            sites,
            remaining as nat,
        );
        lemma_joined_assoc(
            first,
            spread_action(algebra, rest, factors, symbols, sites, remaining as nat),
            pending_action(algebra, base, symbols, sites),
        );
    }
}

/// Applies a product of local operators to a state, the rightmost operator first.
pub fn apply_product<A: LocalAlgebra>(
    algebra: &A,
    state: A::State,
    symbols: &[char],
    sites: &[usize],
) -> (result: Result<Vec<Transition<A::State>>>)
    requires
        algebra.ready(),
        algebra.valid_state(state),
    ensures
        match result {
            Ok(list) => {
                &&& operator_action(algebra, state, symbols@, sites@) == ProductOutcome::<
                    A::State,
                >::Ok(transitions_view(list@))
                &&& forall|i: int|
                    0 <= i < list.len() ==> algebra.valid_state((#[trigger] list[i]).state)
            },
            Err(error) => {
                &&& operator_action(algebra, state, symbols@, sites@) is Err
                &&& reports(error, operator_action(algebra, state, symbols@, sites@)->Err_0)
            },
        },
{
    if symbols.len() != sites.len() {
        return Err(
            QmbedError::InvalidCoupling(
                error::weave(
                    vec!["operator arity ", " does not match ", " sites"],
                    vec![symbols.len(), sites.len()],
                ),
            ),
        );
    }
    let ghost goal = operator_action(algebra, state, symbols@, sites@);
    let mut found: Vec<Transition<A::State>> = Vec::new();
    let mut pending: Vec<Pending<A::State>> = Vec::new();
    pending.push(Pending { state, factors: Vec::new(), remaining: symbols.len() });
    proof {
        let item = pending@[0];
        assert(item.factors@ =~= Seq::<Factor>::empty());
        assert(pending@.drop_last() =~= Seq::<Pending<A::State>>::empty());
        assert(pending_action(algebra, pending@.drop_last(), symbols@, sites@)
            == ProductOutcome::<A::State>::Ok(Seq::empty()));
        lemma_joined_empty(goal);
        assert(transitions_view(found@) =~= Seq::empty());
    }
    while pending.len() > 0
        invariant
            algebra.ready(),
            symbols@.len() == sites@.len(),
            goal == operator_action(algebra, state, symbols@, sites@),
            joined(
                ProductOutcome::<A::State>::Ok(transitions_view(found@)),
                pending_action(algebra, pending@, symbols@, sites@),
            ) == goal,
            forall|i: int|
                0 <= i < pending.len() ==> algebra.valid_state((#[trigger] pending[i]).state)
                    && pending[i].remaining <= symbols@.len(),
            forall|i: int|
                0 <= i < found.len() ==> algebra.valid_state((#[trigger] found[i]).state),
        decreases stack_weight(pending@),
    {
        let ghost stack = pending@;
        let ghost reached = transitions_view(found@);
        let item = pending.pop();
        if let Some(branch) = item {
            let ghost base = pending@;
            assert(base =~= stack.drop_last());
            assert(branch == stack.last());
            let Pending { state: current, factors, remaining } = branch;
            let ghost below = pending_action(algebra, base, symbols@, sites@);
            if remaining == 0 {
                let ghost done = (current, factors@);
                let ghost earlier = found@;
                found.push(Transition { state: current, factors });
                proof {
                    assert(transitions_view(found@) =~= reached + seq![done]);
                    lemma_joined_assoc(
                        ProductOutcome::<A::State>::Ok(reached),
                        ProductOutcome::<A::State>::Ok(seq![done]),
                        below,
                    );
                    assert forall|i: int| 0 <= i < found.len() implies algebra.valid_state(
                        (#[trigger] found[i]).state,
                    ) by {
                        if i < earlier.len() {
                            assert(found[i] == earlier[i]);
                        }
                    }
                }
            } else {
                let position: usize = remaining - 1;
                match algebra.apply_symbol(current, symbols[position], position, sites[position]) {
                    Err(error) => {
                        return Err(error);
                    },
                    Ok(moves) => {
                        push_branches(&moves, &factors, position, &mut pending);
                        proof {
                            lemma_pushed_branches(
                                algebra,
                                base,
                                pending@,
                                moves_view(moves@),
                                factors@,
                                symbols@,
                                sites@,
                                position,
                            );
                            assert forall|i: int|
                                base.len() <= i < pending@.len() implies algebra.valid_state(
                                (#[trigger] pending@[i]).state,
                            ) && pending@[i].remaining == position by {
                                let j = i - base.len();
                                assert(pending@[base.len() + j] == pending@[i]);
                                assert(algebra.valid_state(
                                    moves[moves@.len() - 1 - j].state,
                                ));
                            }
                            assert forall|i: int| 0 <= i < pending@.len() implies algebra.valid_state(
                                (#[trigger] pending@[i]).state,
                            ) && pending@[i].remaining <= symbols@.len() by {
                                if i < base.len() {
                                    assert(pending@.subrange(0, base.len() as int)[i] == base[i]);
                                    assert(base[i] == stack[i]);
                                }
                            }
                            lemma_stack_weight(base, pending@, position);
                        }
                    },
                }
            }
        }
    }
    proof {
        lemma_joined_empty(ProductOutcome::<A::State>::Ok(transitions_view(found@)));
    }
    Ok(found)
}

} // verus!
