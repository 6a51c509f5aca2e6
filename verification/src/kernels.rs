//! Vectors owned by a runtime, and work spread over workers.

use vstd::prelude::*;
use vstd::arithmetic::div_mod::*;
use crate::error::{QmbedError, Result};
use crate::error;
use crate::linear::LinearOperator;
use crate::measurement;
use crate::operator;
use crate::runtime::{CpuRuntime, RuntimeCapabilities};
use crate::scalar::Scalar;

verus! {

/// A vector in the memory of a runtime.
pub trait RuntimeBuffer<V: Scalar> {
    spec fn contents(&self) -> Seq<V>;

    fn len(&self) -> (length: usize)
        ensures
            length == self.contents().len(),
    ;

    fn is_empty(&self) -> (empty: bool)
        ensures
            empty == (self.contents().len() == 0),
    ;
}

/// A vector with another one, scaled, added to it.
pub open spec fn shifted_by<V: Scalar>(alpha: V, input: Seq<V>, output: Seq<V>) -> Seq<V> {
    Seq::new(output.len(), |i: int| output[i].sum(alpha.product(input[i])))
}

/// A vector multiplied from the right by a number.
pub open spec fn stretched<V: Scalar>(alpha: V, values: Seq<V>) -> Seq<V> {
    Seq::new(values.len(), |i: int| values[i].product(alpha))
}

/// Storage and vector operations that iterative methods need. A runtime may refuse an
/// operation; it then says so and leaves the vectors as they were.
pub trait Runtime<V: Scalar> {
    type Buffer: RuntimeBuffer<V>;

    spec fn offers(&self) -> RuntimeCapabilities;

    /// The runtime carries out every operation whose vectors match.
    spec fn dependable(&self) -> bool;

    fn capabilities(&self) -> (capabilities: RuntimeCapabilities)
        ensures
            capabilities == self.offers(),
    ;

    fn zeros(&self, length: usize) -> (result: Result<Self::Buffer>)
        ensures
            self.dependable() ==> result is Ok,
            result matches Ok(buffer) ==> buffer.contents() == Seq::new(
                length as nat,
                |i: int| V::zero_value(),
            ),
    ;

    fn upload(&self, values: &[V]) -> (result: Result<Self::Buffer>)
        ensures
            self.dependable() ==> result is Ok,
            result matches Ok(buffer) ==> buffer.contents() == values@,
    ;

    fn to_host(&self, buffer: &Self::Buffer) -> (result: Result<Vec<V>>)
        ensures
            self.dependable() ==> result is Ok,
            result matches Ok(values) ==> values@ == buffer.contents(),
    ;

    fn fill(&self, buffer: &mut Self::Buffer, value: V) -> (result: Result<()>)
        ensures
            self.dependable() ==> result is Ok,
            match result {
                Ok(()) => final(buffer).contents() == Seq::new(
                    old(buffer).contents().len(),
                    |i: int| value,
                ),
                Err(_) => final(buffer).contents() == old(buffer).contents(),
            },
    ;

    fn axpy(&self, alpha: V, input: &Self::Buffer, output: &mut Self::Buffer) -> (result: Result<
        (),
    >)
        ensures
            self.dependable() ==> (result is Ok) == (input.contents().len()
                == old(output).contents().len()),
            match result {
                Ok(()) => input.contents().len() == old(output).contents().len()
                    && final(output).contents() == shifted_by(
                    alpha,
                    input.contents(),
                    old(output).contents(),
                ),
                Err(error) => final(output).contents() == old(output).contents() && (
                self.dependable() ==> error is DimensionMismatch),
            },
    ;

    fn scale(&self, alpha: V, buffer: &mut Self::Buffer) -> (result: Result<()>)
        ensures
            self.dependable() ==> result is Ok,
            match result {
                Ok(()) => final(buffer).contents() == stretched(alpha, old(buffer).contents()),
                Err(_) => final(buffer).contents() == old(buffer).contents(),
            },
    ;

    fn dotc(&self, left: &Self::Buffer, right: &Self::Buffer) -> (result: Result<V>)
        ensures
            self.dependable() ==> (result is Ok) == (left.contents().len()
                == right.contents().len()),
            match result {
                Ok(number) => left.contents().len() == right.contents().len() && number
                    == measurement::inner_product(
                    left.contents(),
                    right.contents(),
                    left.contents().len(),
                ),
                Err(error) => self.dependable() ==> error is DimensionMismatch,
            },
    ;
}

/// A map that acts on the vectors of a runtime.
pub trait RuntimeLinearOperator<V: Scalar, R: Runtime<V>> {
    spec fn runnable(&self) -> bool;

    spec fn runtime_extent(&self) -> (usize, usize);

    spec fn runtime_maps(&self, input: Seq<V>) -> Option<Seq<V>>;

    /// The map may refuse a vector with the error.
    spec fn runtime_refuses(&self, input: Seq<V>, error: QmbedError) -> bool;

    fn runtime_shape(&self) -> (shape: (usize, usize))
        ensures
            shape == self.runtime_extent(),
    ;

    fn apply_on(&self, runtime: &R, input: &R::Buffer, output: &mut R::Buffer) -> (result: Result<
        (),
    >)
        requires
            self.runnable(),
        ensures
            final(output).contents().len() == old(output).contents().len(),
            match result {
                Ok(()) => {
                    &&& input.contents().len() == self.runtime_extent().1
                    &&& old(output).contents().len() == self.runtime_extent().0
                    &&& self.runtime_maps(input.contents()) == Some(final(output).contents())
                },
                Err(error) => if input.contents().len() != self.runtime_extent().1
                    || old(output).contents().len() != self.runtime_extent().0 {
                    error is DimensionMismatch
                } else {
                    self.runtime_maps(input.contents()) is None && self.runtime_refuses(
                        input.contents(),
                        error,
                    )
                },
            },
    ;
}

/// A vector in the memory of the host.
#[derive(Debug)]
pub struct CpuBuffer<V> {
    values: Vec<V>,
}

impl<V: Scalar> CpuBuffer<V> {
    pub fn as_slice(&self) -> (slice: &[V])
        ensures
            slice@ == self.contents(),
    {
        self.values.as_slice()
    }
}

impl<V: Scalar> RuntimeBuffer<V> for CpuBuffer<V> {
    closed spec fn contents(&self) -> Seq<V> {
        self.values@
    }

    fn len(&self) -> (length: usize) {
        self.values.len()
    }

    fn is_empty(&self) -> (empty: bool) {
        self.values.len() == 0
    }
}

fn copied<V: Copy>(values: &[V]) -> (copy: Vec<V>)
    ensures
        copy@ == values@,
{
    let mut copy: Vec<V> = Vec::new();
    while copy.len() < values.len()
        invariant
            copy@.len() <= values@.len(),
            copy@ =~= values@.take(copy@.len() as int),
        decreases values@.len() - copy@.len(),
    {
        copy.push(values[copy.len()]);
    }
    copy
}

fn different_lengths(left: usize, right: usize) -> (error: QmbedError)
    ensures
        error is DimensionMismatch,
{
    QmbedError::DimensionMismatch(
        error::weave(vec!["runtime vector lengths differ: ", " and "], vec![left, right]),
    )
}

impl<V: Scalar> Runtime<V> for CpuRuntime {
    type Buffer = CpuBuffer<V>;

    open spec fn offers(&self) -> RuntimeCapabilities {
        RuntimeCapabilities {
            accelerator: self.spec_profile().accelerator,
            ranks: self.spec_profile().ranks,
            threads_per_rank: self.spec_profile().threads_per_rank,
        }
    }

    open spec fn dependable(&self) -> bool {
        true
    }

    fn capabilities(&self) -> (capabilities: RuntimeCapabilities) {
        CpuRuntime::capabilities(self)
    }

    fn zeros(&self, length: usize) -> (result: Result<CpuBuffer<V>>) {
        let values: Vec<V> = operator::zeros(length);
        assert(values@ =~= Seq::new(length as nat, |i: int| V::zero_value()));
        Ok(CpuBuffer { values })
    }

    fn upload(&self, values: &[V]) -> (result: Result<CpuBuffer<V>>) {
        Ok(CpuBuffer { values: copied(values) })
    }

    fn to_host(&self, buffer: &CpuBuffer<V>) -> (result: Result<Vec<V>>) {
        Ok(copied(buffer.values.as_slice()))
    }

    fn fill(&self, buffer: &mut CpuBuffer<V>, value: V) -> (result: Result<()>) {
        let length: usize = buffer.values.len();
        let mut index: usize = 0;
        while index < length
            invariant
                index <= length,
                length == buffer.values@.len(),
                length == old(buffer).values@.len(),
                forall|i: int| 0 <= i < index ==> #[trigger] buffer.values@[i] == value,
            decreases length - index,
        {
            buffer.values.set(index, value);
            index = index + 1;
        }
        assert(buffer.values@ =~= Seq::new(old(buffer).contents().len(), |i: int| value));
        Ok(())
    }

    fn axpy(&self, alpha: V, input: &CpuBuffer<V>, output: &mut CpuBuffer<V>) -> (result: Result<
        (),
    >) {
        let length: usize = output.values.len();
        if input.values.len() != length {
            return Err(different_lengths(input.values.len(), length));
        }
        let ghost before = output.values@;
        let mut index: usize = 0;
        while index < length
            invariant
                index <= length,
                length == output.values@.len(),
                length == input.values@.len(),
                before == old(output).contents(),
                before.len() == length,
                forall|i: int|
                    0 <= i < index ==> #[trigger] output.values@[i] == before[i].sum(
                        alpha.product(input.values@[i]),
                    ),
                forall|i: int| index <= i < length ==> #[trigger] output.values@[i] == before[i],
            decreases length - index,
        {
            let sum: V = output.values[index].plus(alpha.times(input.values[index]));
            output.values.set(index, sum);
            index = index + 1;
        }
        assert(output.values@ =~= shifted_by(alpha, input.contents(), before));
        Ok(())
    }

    fn scale(&self, alpha: V, buffer: &mut CpuBuffer<V>) -> (result: Result<()>) {
        let length: usize = buffer.values.len();
        let ghost before = buffer.values@;
        let mut index: usize = 0;
        while index < length
            invariant
                index <= length,
                length == buffer.values@.len(),
                before == old(buffer).contents(),
                before.len() == length,
                forall|i: int|
                    0 <= i < index ==> #[trigger] buffer.values@[i] == before[i].product(alpha),
                forall|i: int| index <= i < length ==> #[trigger] buffer.values@[i] == before[i],
            decreases length - index,
        {
            let value: V = buffer.values[index].times(alpha);
            buffer.values.set(index, value);
            index = index + 1;
        }
        assert(buffer.values@ =~= stretched(alpha, before));
        Ok(())
    }

    fn dotc(&self, left: &CpuBuffer<V>, right: &CpuBuffer<V>) -> (result: Result<V>) {
        if left.values.len() != right.values.len() {
            return Err(different_lengths(left.values.len(), right.values.len()));
        }
        Ok(measurement::inner(left.values.as_slice(), right.values.as_slice()))
    }
}

impl<V: Scalar, O: LinearOperator<V>> RuntimeLinearOperator<V, CpuRuntime> for O {
    open spec fn runnable(&self) -> bool {
        self.usable()
    }

    open spec fn runtime_extent(&self) -> (usize, usize) {
        self.extent()
    }

    open spec fn runtime_maps(&self, input: Seq<V>) -> Option<Seq<V>> {
        self.maps(input)
    }

    open spec fn runtime_refuses(&self, input: Seq<V>, error: QmbedError) -> bool {
        self.refuses(input, error)
    }

    fn runtime_shape(&self) -> (shape: (usize, usize)) {
        self.shape()
    }

    fn apply_on(&self, runtime: &CpuRuntime, input: &CpuBuffer<V>, output: &mut CpuBuffer<V>) -> (result:
        Result<()>) {
        self.apply(input.values.as_slice(), output.values.as_mut_slice())
    }
}

/// The worker that handles an item.
pub open spec fn worker_of(index: nat, workers: nat) -> nat {
    index % workers
}

impl CpuRuntime {
    /// The number of workers for a number of items: no more than threads, and none idle.
    pub fn workers(&self, items: usize) -> (workers: usize)
        requires
            self.wf(),
        ensures
            workers == (if self.spec_profile().threads_per_rank <= items {
                self.spec_profile().threads_per_rank
            } else {
                items
            }),
    {
        let threads: usize = self.profile().threads_per_rank;
        if threads <= items {
            threads
        } else {
            items
        }
    }

    /// The items of one worker, in ascending order.
    pub fn share(&self, worker: usize, items: usize) -> (list: Vec<usize>)
        requires
            self.wf(),
        ensures
            forall|i: int, j: int|
                0 <= i < j < list@.len() ==> #[trigger] list@[i] < #[trigger] list@[j],
            forall|index: usize| #[trigger]
                list@.contains(index) <==> index < items && worker_of(
                    index as nat,
                    if self.spec_profile().threads_per_rank <= items {
                        self.spec_profile().threads_per_rank as nat
                    } else {
                        items as nat
                    },
                ) == worker,
    {
        let workers: usize = self.workers(items);
        let mut list: Vec<usize> = Vec::new();
        let mut index: usize = 0;
        while index < items
            invariant
                index <= items,
                items > 0 ==> workers > 0,
                forall|i: int| 0 <= i < list@.len() ==> #[trigger] list@[i] < index,
                forall|i: int, j: int|
                    0 <= i < j < list@.len() ==> #[trigger] list@[i] < #[trigger] list@[j],
                forall|k: usize| #[trigger]
                    list@.contains(k) <==> k < index && worker_of(k as nat, workers as nat)
                        == worker,
            decreases items - index,
        {
            let ghost before = list@;
            if index % workers == worker {
                list.push(index);
            }
            proof {
                assert forall|k: usize| #[trigger] list@.contains(k) <==> k < index + 1
                    && worker_of(k as nat, workers as nat) == worker by {
                    if list@.len() > before.len() {
                        assert(list@[before.len() as int] == index);
                        if before.contains(k) {
                            let i = choose|i: int| 0 <= i < before.len() && before[i] == k;
                            assert(list@[i] == k);
                        }
                        if list@.contains(k) && k != index {
                            let i = choose|i: int| 0 <= i < list@.len() && list@[i] == k;
                            assert(before[i] == k);
                            assert(before.contains(k));
                        }
                    }
                }
            }
            index = index + 1;
        }
        list
    }
}

/// Every item has one worker.
pub proof fn every_item_has_one_worker(index: nat, workers: nat)
    requires
        workers > 0,
    ensures
        worker_of(index, workers) < workers,
{
    lemma_mod_bound(index as int, workers as int);
}

/// What has arrived for an item.
pub open spec fn answer_for<U>(arrived: Seq<(usize, Result<U>)>, index: int) -> Option<Result<U>>
    decreases arrived.len(),
{
    if arrived.len() == 0 {
        None
    } else if arrived.last().0 == index {
        Some(arrived.last().1)
    } else {
        answer_for(arrived.drop_last(), index)
    }
}

/// The item is the first one without a result, and the error says why.
pub open spec fn fails_first<U>(
    arrived: Seq<(usize, Result<U>)>,
    index: int,
    error: QmbedError,
) -> bool {
    &&& forall|j: int| 0 <= j < index ==> answered(arrived, j)
    &&& match answer_for(arrived, index) {
        None => error is UnsupportedBackend,
        Some(Err(own)) => own == error,
        Some(Ok(_)) => false,
    }
}

/// A value has arrived for the item.
pub open spec fn yields<U>(arrived: Seq<(usize, Result<U>)>, index: int, value: U) -> bool {
    answer_for(arrived, index) matches Some(Ok(own)) && own == value
}

/// A result has arrived for the item.
pub open spec fn answered<U>(arrived: Seq<(usize, Result<U>)>, index: int) -> bool {
    answer_for(arrived, index) matches Some(Ok(_))
}

proof fn lemma_answer<U>(arrived: Seq<(usize, Result<U>)>, at: int)
    requires
        0 <= at < arrived.len(),
        forall|i: int, j: int|
            0 <= i < j < arrived.len() ==> (#[trigger] arrived[i]).0 != (#[trigger] arrived[j]).0,
    ensures
        answer_for(arrived, arrived[at].0 as int) == Some(arrived[at].1),
    decreases arrived.len(),
{
    if at < arrived.len() - 1 {
        let front = arrived.drop_last();
        assert(front[at] == arrived[at]);
        assert(arrived[at].0 != arrived[arrived.len() - 1].0);
        lemma_answer(front, at);
    }
}

proof fn lemma_no_answer<U>(arrived: Seq<(usize, Result<U>)>, index: int)
    requires
        forall|i: int| 0 <= i < arrived.len() ==> (#[trigger] arrived[i]).0 != index,
    ensures
        answer_for(arrived, index) is None,
    decreases arrived.len(),
{
    if arrived.len() > 0 {
        let front = arrived.drop_last();
        assert(arrived[arrived.len() - 1].0 != index);
        assert forall|i: int| 0 <= i < front.len() implies (#[trigger] front[i]).0 != index by {
            assert(front[i] == arrived[i]);
        }
        lemma_no_answer(front, index);
    }
}

/// Puts results that arrive in any order into the order of the items.
pub fn gather<U>(count: usize, arrived: Vec<(usize, Result<U>)>) -> (result: Result<Vec<U>>)
    requires
        forall|i: int| 0 <= i < arrived@.len() ==> (#[trigger] arrived@[i]).0 < count,
        forall|i: int, j: int|
            0 <= i < j < arrived@.len() ==> (#[trigger] arrived@[i]).0 != (#[trigger] arrived@[j]).0,
    ensures
        match result {
            Ok(values) => values@.len() == count && forall|i: int|
                0 <= i < count ==> yields(arrived@, i, #[trigger] values@[i]),
            Err(error) => exists|i: int|
                0 <= i < count && #[trigger] fails_first(arrived@, i, error),
        },
{
    let ghost all = arrived@;
    let mut rest: Vec<(usize, Result<U>)> = arrived;
    let mut slots: Vec<Option<Result<U>>> = Vec::new();
    while slots.len() < count
        invariant
            slots@.len() <= count,
            forall|i: int| 0 <= i < slots@.len() ==> (#[trigger] slots@[i]) is None,
        decreases count - slots@.len(),
    {
        slots.push(None);
    }
    while rest.len() > 0
        invariant
            rest@.len() <= all.len(),
            rest@ =~= all.take(rest@.len() as int),
            slots@.len() == count,
            forall|i: int| 0 <= i < all.len() ==> (#[trigger] all[i]).0 < count,
            forall|i: int, j: int|
                0 <= i < j < all.len() ==> (#[trigger] all[i]).0 != (#[trigger] all[j]).0,
            forall|i: int|
                rest@.len() <= i < all.len() ==> slots@[(#[trigger] all[i]).0 as int] == Some(
                    all[i].1,
                ),
            forall|k: int|
                0 <= k < count && (#[trigger] slots@[k]) is Some ==> exists|i: int|
                    rest@.len() <= i < all.len() && (#[trigger] all[i]).0 == k,
        decreases rest@.len(),
    {
        let ghost old_rest = rest@;
        let ghost old_slots = slots@;
        if let Some((index, answer)) = rest.pop() {
            let ghost at = rest@.len() as int;
            assert(old_rest[at] == all[at]);
            assert(index == all[at].0 && answer == all[at].1);
            slots.set(index, Some(answer));
            proof {
                assert forall|i: int| rest@.len() <= i < all.len() implies slots@[(
                #[trigger] all[i]).0 as int] == Some(all[i].1) by {
                    if i > at {
                        assert(all[at].0 != all[i].0);
                        assert(slots@[all[i].0 as int] == old_slots[all[i].0 as int]);
                    }
                }
                assert forall|k: int| 0 <= k < count && (
                #[trigger] slots@[k]) is Some implies exists|i: int|
                    rest@.len() <= i < all.len() && (#[trigger] all[i]).0 == k by {
                    if k == index {
                        assert(all[at].0 == k);
                    } else {
                        assert(old_slots[k] is Some);
                    }
                }
            }
        }
    }
    proof {
        assert forall|k: int| 0 <= k < count implies #[trigger] slots@[k] == answer_for(all, k) by {
            if slots@[k] is Some {
                let i = choose|i: int| 0 <= i < all.len() && (#[trigger] all[i]).0 == k;
                lemma_answer(all, i);
            } else {
                assert forall|i: int| 0 <= i < all.len() implies (#[trigger] all[i]).0 != k by {
                    assert(slots@[all[i].0 as int] == Some(all[i].1));
                }
                lemma_no_answer(all, k);
            }
        }
    }
    let mut backward: Vec<U> = Vec::new();
    let mut failure: Option<QmbedError> = None;
    let ghost filled = slots@;
    while slots.len() > 0
        invariant
            filled.len() == count,
            slots@.len() <= count,
            slots@ =~= filled.take(slots@.len() as int),
            forall|k: int| 0 <= k < count ==> #[trigger] filled[k] == answer_for(all, k),
            failure is None ==> backward@.len() == count - slots@.len() && forall|i: int|
                0 <= i < backward@.len() ==> yields(all, count - 1 - i, #[trigger] backward@[i]),
            failure matches Some(error) ==> exists|i: int|
                slots@.len() <= i < count && #[trigger] first_behind(
                    all,
                    slots@.len() as int,
                    i,
                    error,
                ),
        decreases slots@.len(),
    {
        let ghost before = slots@;
        let ghost blamed = failure;
        if let Some(slot) = slots.pop() {
            let ghost at = slots@.len() as int;
            assert(before[at] == filled[at]);
            assert(slot == answer_for(all, at));
            match slot {
                Some(Ok(value)) => {
                    backward.push(value);
                    proof {
                        if let Some(error) = blamed {
                            let i = choose|i: int|
                                before.len() <= i < count && #[trigger] first_behind(
                                    all,
                                    before.len() as int,
                                    i,
                                    error,
                                );
                            assert(answered(all, at));
                            assert(first_behind(all, at, i, error));
                        }
                    }
                },
                Some(Err(error)) => {
                    proof {
                        assert(first_behind(all, at, at, error));
                    }
                    failure = Some(error);
                },
                None => {
                    let error: QmbedError = QmbedError::UnsupportedBackend(
                        "a CPU runtime worker did not return a result".to_string(),
                    );
                    proof {
                        assert(first_behind(all, at, at, error));
                    }
                    failure = Some(error);
                },
            }
        }
    }
    if let Some(error) = failure {
        proof {
            let i = choose|i: int| 0 <= i < count && #[trigger] first_behind(all, 0, i, error);
            assert(fails_first(all, i, error));
        }
        return Err(error);
    }
    let ghost turned = backward@;
    let mut values: Vec<U> = Vec::new();
    while backward.len() > 0
        invariant
            turned.len() == count,
            backward@.len() + values@.len() == count,
            backward@ =~= turned.take(backward@.len() as int),
            forall|i: int|
                0 <= i < turned.len() ==> yields(all, count - 1 - i, #[trigger] turned[i]),
            forall|i: int|
                0 <= i < values@.len() ==> yields(all, i, #[trigger] values@[i]),
        decreases backward@.len(),
    {
        let ghost before = backward@;
        if let Some(value) = backward.pop() {
            let ghost at = backward@.len() as int;
            assert(before[at] == turned[at]);
            values.push(value);
        }
    }
    Ok(values)
}

/// Among the items from a place on, the item is the first one without a result.
spec fn first_behind<U>(
    arrived: Seq<(usize, Result<U>)>,
    from: int,
    index: int,
    error: QmbedError,
) -> bool {
    &&& forall|j: int| from <= j < index ==> answered(arrived, j)
    &&& match answer_for(arrived, index) {
        None => error is UnsupportedBackend,
        Some(Err(own)) => own == error,
        Some(Ok(_)) => false,
    }
}

} // verus!
