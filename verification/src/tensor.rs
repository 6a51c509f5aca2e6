//! Tensor products of bases, and matter coupled to one photon mode.

use vstd::prelude::*;
use vstd::arithmetic::div_mod::*;
use vstd::arithmetic::mul::*;
use vstd::string::StrSliceExecFns;
use crate::basis::{Basis, Landing};
use crate::basis;
use crate::error::{QmbedError, Result};
use crate::local::{Factor, Fault, ProductOutcome, Reduction, Transition};
use crate::local;
use crate::notation;

verus! {

/// The pairs of states of two bases, the right state running fastest.
#[derive(Debug)]
pub struct TensorBasis<Left, Right> {
    left: Left,
    right: Right,
}

/// A state of a product: one state of each factor.
#[derive(Clone, Copy, Debug, PartialEq, Eq)]
pub struct TensorState<A, B> {
    pub left: A,
    pub right: B,
}

/// All pairs of two lists, the second item running fastest.
pub open spec fn all_pairs<A, B>(left: Seq<A>, right: Seq<B>) -> Seq<TensorState<A, B>> {
    Seq::new(
        left.len() * right.len(),
        |i: int|
            TensorState {
                left: left[i / (right.len() as int)],
                right: right[i % (right.len() as int)],
            },
    )
}

/// All pairs of outcomes, with the factors of both.
pub open spec fn paired_outcomes<A, B>(
    left: Seq<(A, Seq<Factor>)>,
    right: Seq<(B, Seq<Factor>)>,
) -> Seq<(TensorState<A, B>, Seq<Factor>)> {
    Seq::new(
        left.len() * right.len(),
        |i: int|
            {
                let l = left[i / (right.len() as int)];
                let r = right[i % (right.len() as int)];
                (TensorState { left: l.0, right: r.0 }, l.1 + r.1)
            },
    )
}

/// The position of a pair among all pairs.
pub proof fn lemma_pair_position(i: int, j: int, m: int, n: int)
    requires
        0 <= i < m,
        0 <= j < n,
    ensures
        0 <= i * n + j < m * n,
        (i * n + j) / n == i,
        (i * n + j) % n == j,
{
    lemma_fundamental_div_mod_converse(i * n + j, n, i, j);
    assert(0 <= i * n + j < m * n) by (nonlinear_arith)
        requires
            0 <= i < m,
            0 <= j < n,
    ;
}

pub proof fn lemma_position_parts(p: int, m: int, n: int)
    requires
        0 <= p < m * n,
        0 <= m,
        0 <= n,
    ensures
        n > 0,
        0 <= p / n < m,
        0 <= p % n < n,
        p == (p / n) * n + p % n,
{
    assert(n > 0) by (nonlinear_arith)
        requires
            0 <= p < m * n,
            0 <= n,
    ;
    lemma_fundamental_div_mod(p, n);
    lemma_mod_bound(p, n);
    lemma_mul_is_commutative(n, p / n);
    lemma_div_pos_is_pos(p, n);
    lemma_mul_is_commutative(m, n);
    lemma_multiply_divide_lt(p, n, m);
}

pub proof fn lemma_pairs_contain<A, B>(left: Seq<A>, right: Seq<B>, a: A, b: B)
    ensures
        all_pairs(left, right).contains(TensorState { left: a, right: b }) <==> left.contains(a) && right.contains(b),
{
    let pairs = all_pairs(left, right);
    let m = left.len() as int;
    let n = right.len() as int;
    if pairs.contains(TensorState { left: a, right: b }) {
        let p = choose|p: int| 0 <= p < pairs.len() && pairs[p] == (TensorState { left: a, right: b });
        lemma_position_parts(p, m, n);
        assert(left[p / n] == a);
        assert(right[p % n] == b);
    }
    if left.contains(a) && right.contains(b) {
        let i = choose|i: int| 0 <= i < m && left[i] == a;
        let j = choose|j: int| 0 <= j < n && right[j] == b;
        lemma_pair_position(i, j, m, n);
        assert(pairs[i * n + j] == (TensorState { left: a, right: b }));
    }
}

impl<Left: Basis, Right: Basis> TensorBasis<Left, Right> {
    pub closed spec fn spec_left(self) -> Left {
        self.left
    }

    pub closed spec fn spec_right(self) -> Right {
        self.right
    }

    /// Both factors are well formed and the pairs can be counted.
    pub open spec fn wf(self) -> bool {
        &&& self.spec_left().well_formed()
        &&& self.spec_right().well_formed()
        &&& self.spec_left().listed().len() * self.spec_right().listed().len() <= usize::MAX
    }

    /// The product of two bases.
    pub fn new(left: Left, right: Right) -> (result: Result<Self>)
        requires
            left.well_formed(),
            right.well_formed(),
        ensures
            match result {
                Ok(tensor) => tensor.wf() && tensor.spec_left() == left && tensor.spec_right()
                    == right,
                Err(error) => error is UnsupportedBackend && left.listed().len()
                    * right.listed().len() > usize::MAX,
            },
    {
        match left.len().checked_mul(right.len()) {
            Some(_) => Ok(TensorBasis { left, right }),
            None => Err(QmbedError::UnsupportedBackend("tensor-basis size overflow".to_string())),
        }
    }

    pub fn left(&self) -> (left: &Left)
        ensures
            *left == self.spec_left(),
    {
        &self.left
    }

    pub fn right(&self) -> (right: &Right)
        ensures
            *right == self.spec_right(),
    {
        &self.right
    }
}

/// What part of a product does to one factor; an empty part leaves the state alone.
pub open spec fn factor_action<B: Basis>(
    basis: &B,
    state: B::State,
    symbols: Seq<char>,
    sites: Seq<usize>,
) -> ProductOutcome<B::State> {
    if symbols.len() == 0 {
        Ok(seq![(state, Seq::empty())])
    } else {
        basis::local_action(basis, state, symbols, None, sites)
    }
}

fn factor_transitions<B: Basis>(basis: &B, state: B::State, symbols: &[char], sites: &[usize]) -> (result:
    Result<Vec<Transition<B::State>>>)
    requires
        basis.well_formed(),
        basis.accepts(state),
    ensures
        match result {
            Ok(list) => {
                &&& factor_action(basis, state, symbols@, sites@) == ProductOutcome::<
                    B::State,
                >::Ok(local::transitions_view(list@))
                &&& forall|i: int|
                    0 <= i < list.len() ==> basis.accepts((#[trigger] list[i]).state)
            },
            Err(error) => {
                &&& factor_action(basis, state, symbols@, sites@) is Err
                &&& local::reports(error, factor_action(basis, state, symbols@, sites@)->Err_0)
            },
        },
{
    if symbols.len() == 0 {
        let mut list: Vec<Transition<B::State>> = Vec::new();
        list.push(Transition { state, factors: Vec::new() });
        assert(local::transitions_view(list@) =~= seq![(state, Seq::empty())]);
        return Ok(list);
    }
    basis::apply_local_transitions(basis, state, symbols, None, sites)
}

/// All pairs of transitions, with the factors of both.
fn pair_transitions<A: Copy, B: Copy>(
    left: &Vec<Transition<A>>,
    right: &Vec<Transition<B>>,
) -> (pairs: Vec<Transition<TensorState<A, B>>>)
    ensures
        local::transitions_view(pairs@) == paired_outcomes(
            local::transitions_view(left@),
            local::transitions_view(right@),
        ),
{
    let ghost lv = local::transitions_view(left@);
    let ghost rv = local::transitions_view(right@);
    let ghost goal = paired_outcomes(lv, rv);
    let ghost n = right.len() as int;
    let mut pairs: Vec<Transition<TensorState<A, B>>> = Vec::new();
    let mut i: usize = 0;
    proof {
        lemma_mul_basics(n);
    }
    while i < left.len()
        invariant
            lv == local::transitions_view(left@),
            rv == local::transitions_view(right@),
            goal == paired_outcomes(lv, rv),
            n == right.len(),
            i <= left.len(),
            pairs.len() == i * n,
            forall|p: int|
                0 <= p < pairs.len() ==> (
                (#[trigger] pairs[p]).state,
                pairs[p].factors@,
            ) == goal[p],
        decreases left.len() - i,
    {
        let mut j: usize = 0;
        while j < right.len()
            invariant
                lv == local::transitions_view(left@),
                rv == local::transitions_view(right@),
                goal == paired_outcomes(lv, rv),
                n == right.len(),
                i < left.len(),
                j <= right.len(),
                pairs.len() == i * n + j,
                forall|p: int|
                    0 <= p < pairs.len() ==> (
                    (#[trigger] pairs[p]).state,
                    pairs[p].factors@,
                ) == goal[p],
            decreases right.len() - j,
        {
            let mut factors: Vec<Factor> = local::copy_factors(&left[i].factors);
            let mut k: usize = 0;
            while k < right[j].factors.len()
                invariant
                    i < left.len(),
                    j < right.len(),
                    k <= right[j as int].factors.len(),
                    factors@ == left[i as int].factors@ + right[j as int].factors@.subrange(
                        0,
                        k as int,
                    ),
                decreases right[j as int].factors.len() - k,
            {
                factors.push(right[j].factors[k]);
                k = k + 1;
                assert(factors@ =~= left[i as int].factors@ + right[j as int].factors@.subrange(
                    0,
                    k as int,
                ));
            }
            assert(right[j as int].factors@.subrange(0, k as int) =~= right[j as int].factors@);
            let ghost before = pairs@;
            pairs.push(Transition { state: TensorState { left: left[i].state, right: right[j].state }, factors });
            proof {
                lemma_pair_position(i as int, j as int, left.len() as int, n);
                assert forall|p: int| 0 <= p < pairs.len() implies (
                (#[trigger] pairs[p]).state,
                pairs[p].factors@,
            ) == goal[p] by {
                    if p < before.len() {
                        assert(pairs[p] == before[p]);
                    }
                }
            }
            j = j + 1;
        }
        proof {
            assert((i + 1) * n == i * n + n) by (nonlinear_arith);
        }
        i = i + 1;
    }
    assert(local::transitions_view(pairs@) =~= goal);
    pairs
}

impl<Left: Basis, Right: Basis> Basis for TensorBasis<Left, Right> {
    type State = TensorState<Left::State, Right::State>;

    open spec fn well_formed(&self) -> bool {
        self.wf()
    }

    open spec fn listed(&self) -> Seq<TensorState<Left::State, Right::State>> {
        all_pairs(self.spec_left().listed(), self.spec_right().listed())
    }

    open spec fn accepts(&self, state: TensorState<Left::State, Right::State>) -> bool {
        self.spec_left().accepts(state.left) && self.spec_right().accepts(state.right)
    }

    open spec fn action(
        &self,
        state: TensorState<Left::State, Right::State>,
        symbols: Seq<char>,
        split: Option<usize>,
        sites: Seq<usize>,
    ) -> ProductOutcome<TensorState<Left::State, Right::State>> {
        match split {
            None => Err(Fault::Symbol),
            Some(cut) => if cut > symbols.len() || symbols.len() != sites.len() {
                Err(Fault::Arity)
            } else {
                let n = symbols.len() as int;
                let left = factor_action(
                    &self.spec_left(),
                    state.left,
                    symbols.subrange(0, cut as int),
                    sites.subrange(0, cut as int),
                );
                let right = factor_action(
                    &self.spec_right(),
                    state.right,
                    symbols.subrange(cut as int, n),
                    sites.subrange(cut as int, n),
                );
                match left {
                    Err(fault) => Err(fault),
                    Ok(l) => match right {
                        Err(fault) => Err(fault),
                        Ok(r) => Ok(paired_outcomes(l, r)),
                    },
                }
            },
        }
    }

    open spec fn distinct(&self) -> bool {
        self.spec_left().distinct() && self.spec_right().distinct()
    }

    open spec fn seat(&self, state: TensorState<Left::State, Right::State>) -> int {
        self.spec_left().seat(state.left) * self.spec_right().listed().len()
            + self.spec_right().seat(state.right)
    }

    proof fn lemma_seat(&self, state: TensorState<Left::State, Right::State>) {
        let l = self.left.listed();
        let r = self.right.listed();
        lemma_pairs_contain(l, r, state.left, state.right);
        self.left.lemma_seat(state.left);
        self.right.lemma_seat(state.right);
        lemma_pair_position(
            self.left.seat(state.left),
            self.right.seat(state.right),
            l.len() as int,
            r.len() as int,
        );
    }

    proof fn lemma_distinct(&self) {
        let l = self.left.listed();
        let r = self.right.listed();
        self.left.lemma_distinct();
        self.right.lemma_distinct();
        let list = self.listed();
        assert forall|p: int, q: int|
            0 <= p < list.len() && 0 <= q < list.len() && p != q implies list[p] != list[q] by {
            let m = l.len() as int;
            let n = r.len() as int;
            lemma_position_parts(p, m, n);
            lemma_position_parts(q, m, n);
            if list[p] == list[q] {
                assert(l[p / n] == l[q / n]);
                assert(r[p % n] == r[q % n]);
            }
        }
    }

    open spec fn orbit_weight(&self, state: TensorState<Left::State, Right::State>) -> nat {
        1
    }

    open spec fn landing(
        &self,
        state: TensorState<Left::State, Right::State>,
        source_orbit: usize,
    ) -> Option<Landing> {
        if self.listed().contains(state) {
            Some(
                Landing {
                    index: self.seat(state) as usize,
                    reduction: basis::no_reduction(),
                },
            )
        } else {
            None
        }
    }

    open spec fn two_parts(&self) -> bool {
        true
    }

    fn needs_separator(&self) -> (needed: bool) {
        true
    }

    open spec fn orbit_reduced(&self) -> bool {
        false
    }

    fn is_orbit_reduced(&self) -> (reduced: bool) {
        false
    }

    fn len(&self) -> (length: usize) {
        self.left.len() * self.right.len()
    }

    fn state(&self, index: usize) -> (result: Result<TensorState<Left::State, Right::State>>) {
        if index >= self.left.len() * self.right.len() {
            return Err(QmbedError::StateNotInBasis);
        }
        let columns: usize = self.right.len();
        proof {
            lemma_position_parts(
                index as int,
                self.left.listed().len() as int,
                self.right.listed().len() as int,
            );
        }
        match self.left.state(index / columns) {
            Ok(left) => match self.right.state(index % columns) {
                Ok(right) => Ok(TensorState { left, right }),
                Err(error) => Err(error),
            },
            Err(error) => Err(error),
        }
    }

    fn index(&self, state: TensorState<Left::State, Right::State>) -> (result: Result<usize>) {
        proof {
            lemma_pairs_contain(self.left.listed(), self.right.listed(), state.left, state.right);
        }
        let row: usize = match self.left.index(state.left) {
            Ok(row) => row,
            Err(error) => {
                return Err(error);
            },
        };
        let column: usize = match self.right.index(state.right) {
            Ok(column) => column,
            Err(error) => {
                return Err(error);
            },
        };
        proof {
            lemma_pair_position(
                row as int,
                column as int,
                self.left.listed().len() as int,
                self.right.listed().len() as int,
            );
            assert(0 <= row * self.right.listed().len()) by (nonlinear_arith);
        }
        Ok(row * self.right.len() + column)
    }

    fn unreduced_transitions(
        &self,
        state: TensorState<Left::State, Right::State>,
        symbols: &[char],
        split: Option<usize>,
        sites: &[usize],
    ) -> (result: Result<Vec<Transition<TensorState<Left::State, Right::State>>>>) {
        let cut: usize = match split {
            Some(cut) => cut,
            None => {
                return Err(
                    QmbedError::InvalidOperator(
                        "tensor-basis operator strings must contain one `|` separator".to_string(),
                    ),
                );
            },
        };
        if cut > symbols.len() || symbols.len() != sites.len() {
            return Err(
                QmbedError::InvalidCoupling(
                    "tensor operator arity does not match its sites".to_string(),
                ),
            );
        }
        let left: Vec<Transition<Left::State>> = match factor_transitions(
            &self.left,
            state.left,
            vstd::slice::slice_subrange(symbols, 0, cut),
            vstd::slice::slice_subrange(sites, 0, cut),
        ) {
            Ok(list) => list,
            Err(error) => {
                return Err(error);
            },
        };
        let right: Vec<Transition<Right::State>> = match factor_transitions(
            &self.right,
            state.right,
            vstd::slice::slice_subrange(symbols, cut, symbols.len()),
            vstd::slice::slice_subrange(sites, cut, sites.len()),
        ) {
            Ok(list) => list,
            Err(error) => {
                return Err(error);
            },
        };
        let pairs: Vec<Transition<TensorState<Left::State, Right::State>>> = pair_transitions(&left, &right);
        assert forall|p: int| 0 <= p < pairs.len() implies self.accepts(
            (#[trigger] pairs[p]).state,
        ) by {
            let lv = local::transitions_view(left@);
            let rv = local::transitions_view(right@);
            let pv = local::transitions_view(pairs@);
            assert(lv.len() == left.len() && rv.len() == right.len() && pv.len() == pairs.len());
            assert(pv == paired_outcomes(lv, rv));
            assert(paired_outcomes(lv, rv).len() == lv.len() * rv.len());
            assert(pv[p] == paired_outcomes(lv, rv)[p]);
            lemma_position_parts(p, left.len() as int, right.len() as int);
            let i = p / (right.len() as int);
            let j = p % (right.len() as int);
            assert(self.left.accepts(left[i].state));
            assert(self.right.accepts(right[j].state));
        }
        Ok(pairs)
    }

    fn transition_orbit_size(&self, state: TensorState<Left::State, Right::State>) -> (result: Result<
        usize,
    >) {
        Ok(1)
    }

    open spec fn preservation(&self, operator: Seq<char>) -> std::result::Result<bool, Fault> {
        let left = self.spec_left().preservation(notation::text_before(operator));
        let right = self.spec_right().preservation(notation::text_behind(operator));
        if notation::separator(operator) == operator.len() {
            Err(Fault::Symbol)
        } else if notation::text_behind(operator).contains('|') {
            Err(Fault::Symbol)
        } else if left is Err {
            left
        } else if !left->Ok_0 {
            Ok(false)
        } else {
            right
        }
    }

    fn operator_preserves_particle_sector(&self, operator: &str) -> (result: Result<bool>) {
        let chars: Vec<char> = notation::text_chars(operator);
        assert(chars@.subrange(0, chars.len() as int) =~= operator@);
        let cut: usize = notation::find_separator(&chars, 0);
        if cut == chars.len() {
            return Err(QmbedError::InvalidOperator(operator.to_string()));
        }
        assert(chars@.subrange(cut + 1, chars.len() as int) =~= notation::text_behind(operator@));
        if notation::find_separator(&chars, cut + 1) < chars.len() {
            return Err(QmbedError::InvalidOperator(operator.to_string()));
        }
        match self.left.operator_preserves_particle_sector(operator.substring_char(0, cut)) {
            Ok(true) => self.right.operator_preserves_particle_sector(
                operator.substring_char(cut + 1, chars.len()),
            ),
            Ok(false) => Ok(false),
            Err(error) => Err(error),
        }
    }

    fn index_transition(
        &self,
        state: TensorState<Left::State, Right::State>,
        source_orbit_size: usize,
    ) -> (result: Option<Landing>) {
        match self.index(state) {
            Ok(index) => {
                assert(self.listed()[index as int] == state);
                Some(
                    Landing {
                        index,
                        reduction: Reduction {
                            turn: 0,
                            steps: 1,
                            given: None,
                            source_orbit: 1,
                            target_orbit: 1,
                        },
                    },
                )
            },
            Err(_) => None,
        }
    }
}

} // verus!
