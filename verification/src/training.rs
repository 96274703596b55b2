//! Mini-batch updates and the epochs of stochastic gradient descent.
//!
//! A training set comes here as the shapes of its examples, the target of
//! each before its input, and an example is named by its position in the set.

use vstd::prelude::*;
use ndarray_rand::rand::rngs::StdRng;
use crate::batch::{
    batch_at, batch_count, cut_from, lemma_batch_lengths, lemma_rearranged_visits_each_once,
    mini_batches, rising, rising_order, shuffle, visits_each_once,
};
use crate::error::NetworkError;
use crate::network::{example_fits, misfit_of, Network};
use crate::shape::Shape;

verus! {

/// One move of a mini-batch update.
#[derive(Clone, Copy, Debug, PartialEq, Eq, Structural)]
pub enum Update {
    /// Set the running totals, one for each weight matrix and bias vector and
    /// of its shape, to zero.
    Clear,
    /// Backpropagate the training example at this position, against the
    /// parameters as they stand, and add its gradients to the totals.
    Learn(usize),
    /// Take from each parameter its total times the learning rate divided by
    /// this number, which is the number of examples in the mini-batch.
    Descend(usize),
}

/// The moves of an update on `batch`: the totals are cleared, every example
/// of the batch is learned in turn, and the parameters move once, at the end.
pub open spec fn update_plan(batch: Seq<usize>) -> Seq<Update> {
    seq![Update::Clear] + Seq::new(batch.len(), |i: int| Update::Learn(batch[i])) + seq![
        Update::Descend(batch.len() as usize),
    ]
}

/// What stands against learning the example at `position`: the training
/// set holds no such example, or the example does not fit the network.
pub open spec fn fault_of(
    sizes: Seq<usize>,
    training: Seq<(Shape, Shape)>,
    position: usize,
) -> Option<NetworkError> {
    if position >= training.len() {
        Some(NetworkError::UnknownExample(position))
    } else if !example_fits(sizes, training[position as int].0, training[position as int].1) {
        Some(misfit_of(sizes, training[position as int].0, training[position as int].1))
    } else {
        None
    }
}

/// Every example of the training set fits the network.
pub open spec fn all_fit(sizes: Seq<usize>, training: Seq<(Shape, Shape)>) -> bool {
    forall|p: int|
        0 <= p < training.len() ==> example_fits(
            sizes,
            (#[trigger] training[p]).0,
            training[p].1,
        )
}

/// The example at `at` is the first of the training set that does not fit.
pub open spec fn first_misfit_at(
    sizes: Seq<usize>,
    training: Seq<(Shape, Shape)>,
    at: int,
) -> bool {
    &&& 0 <= at < training.len()
    &&& !example_fits(sizes, training[at].0, training[at].1)
    &&& forall|p: int|
        0 <= p < at ==> example_fits(sizes, (#[trigger] training[p]).0, training[p].1)
}

/// The updates of one epoch: some order that visits each of `len` examples
/// once is cut into mini-batches of `size`, and `plans` holds the moves of
/// the update on each of them, in turn.
pub open spec fn epoch_of(plans: Seq<Vec<Update>>, len: int, size: int) -> bool {
    exists|order: Seq<usize>|
        {
            &&& visits_each_once(order, len)
            &&& plans.len() == batch_count(len, size)
            &&& forall|k: int|
                0 <= k < plans.len() ==> (#[trigger] plans[k])@ == update_plan(
                    batch_at(order, size, k),
                )
        }
}

/// Every mini-batch of an order that visits each example once holds an
/// example at least, and names no example outside the training set.
pub proof fn lemma_batches_name_examples(order: Seq<usize>, len: int, size: int, k: int)
    requires
        size > 0,
        visits_each_once(order, len),
        0 <= k < batch_count(len, size),
    ensures
        batch_at(order, size, k).len() > 0,
        forall|i: int|
            0 <= i < batch_at(order, size, k).len() ==> #[trigger] batch_at(order, size, k)[i]
                < len,
{
    lemma_batch_lengths(order, size, k);
    assert(k * size >= 0 && (k + 1) * size == k * size + size) by (nonlinear_arith)
        requires
            k >= 0,
            size > 0,
    ;
    assert forall|i: int| 0 <= i < batch_at(order, size, k).len() implies #[trigger] batch_at(
        order,
        size,
        k,
    )[i] < len by {
        assert(batch_at(order, size, k)[i] == order[k * size + i]);
    }
}

impl Network {
    /// Plans the update on one mini-batch. The entries of the batch are
    /// looked at in order, and the first that cannot be learned is reported:
    /// one that names no example of the training set, or one whose example
    /// does not fit the network, the input looked at before the target. A
    /// batch without entries is refused, since it has no average gradient.
    /// The divisor of the step is the number of examples in this batch,
    /// whatever the size of the others.
    pub fn update_mini_batch(
        &self,
        training: &Vec<(Shape, Shape)>,
        batch: &Vec<usize>,
    ) -> (planned: Result<Vec<Update>, NetworkError>)
        ensures
            match planned {
                Ok(plan) => {
                    &&& batch@.len() > 0
                    &&& forall|i: int|
                        0 <= i < batch@.len() ==> fault_of(self@, training@, #[trigger] batch@[i])
                            is None
                    &&& plan@ == update_plan(batch@)
                },
                Err(e) => if batch@.len() == 0 {
                    e == NetworkError::EmptyBatch
                } else {
                    exists|at: int|
                        {
                            &&& 0 <= at < batch@.len()
                            &&& fault_of(self@, training@, #[trigger] batch@[at]) == Some(e)
                            &&& forall|i: int|
                                0 <= i < at ==> fault_of(self@, training@, #[trigger] batch@[i])
                                    is None
                        }
                },
            },
    {
        if batch.len() == 0 {
            return Err(NetworkError::EmptyBatch);
        }
        let mut plan: Vec<Update> = Vec::new();
        plan.push(Update::Clear);
        let mut i: usize = 0;
        while i < batch.len()
            invariant
                0 < batch.len(),
                i <= batch.len(),
                forall|j: int|
                    0 <= j < i ==> fault_of(self@, training@, #[trigger] batch@[j]) is None,
                plan@ == seq![Update::Clear] + Seq::new(
                    i as nat,
                    |j: int| Update::Learn(batch@[j]),
                ),
            decreases batch.len() - i,
        {
            let position = batch[i];
            if position >= training.len() {
                assert(fault_of(self@, training@, batch@[i as int]) == Some(
                    NetworkError::UnknownExample(position),
                ));
                return Err(NetworkError::UnknownExample(position));
            }
            let example = training[position];
            match self.check_example(example.0, example.1) {
                Ok(()) => {},
                Err(e) => {
                    assert(fault_of(self@, training@, batch@[i as int]) == Some(e));
                    return Err(e);
                },
            }
            plan.push(Update::Learn(position));
            i += 1;
            assert(plan@ =~= seq![Update::Clear] + Seq::new(
                i as nat,
                |j: int| Update::Learn(batch@[j]),
            ));
        }
        plan.push(Update::Descend(batch.len()));
        assert(plan@ =~= update_plan(batch@));
        Ok(plan)
    }

    /// Plans `epochs` epochs of training. Each epoch shuffles the order that
    /// the one before it left, cuts the new order into mini-batches of
    /// `mini_batch_size` and plans the update on each of them; the caller
    /// carries the updates of an epoch out one after the other, each on the
    /// parameters that the one before it left, and evaluates when the last
    /// of them is done. A mini-batch size of zero is refused, and after that
    /// a training set with an example that does not fit the network, of
    /// which the first is reported.
    pub fn stochastic_gradient_descent(
        &self,
        training: &Vec<(Shape, Shape)>,
        epochs: u16,
        mini_batch_size: u16,
        rng: &mut StdRng,
    ) -> (planned: Result<Vec<Vec<Vec<Update>>>, NetworkError>)
        ensures
            match planned {
                Ok(schedule) => {
                    &&& mini_batch_size > 0
                    &&& all_fit(self@, training@)
                    &&& schedule@.len() == epochs
                    &&& forall|e: int|
                        0 <= e < schedule@.len() ==> epoch_of(
                            (#[trigger] schedule@[e])@,
                            training@.len() as int,
                            mini_batch_size as int,
                        )
                },
                Err(e) => if mini_batch_size == 0 {
                    e == NetworkError::EmptyBatch
                } else {
                    exists|at: int|
                        first_misfit_at(self@, training@, at) && e == misfit_of(
                            self@,
                            training@[at].0,
                            training@[at].1,
                        )
                },
            },
    {
        if mini_batch_size == 0 {
            return Err(NetworkError::EmptyBatch);
        }
        let mut p: usize = 0;
        while p < training.len()
            invariant
                mini_batch_size > 0,
                p <= training.len(),
                forall|q: int|
                    0 <= q < p ==> example_fits(self@, (#[trigger] training@[q]).0, training@[q].1),
            decreases training.len() - p,
        {
            let example = training[p];
            match self.check_example(example.0, example.1) {
                Ok(()) => {},
                Err(e) => {
                    assert(first_misfit_at(self@, training@, p as int));
                    return Err(e);
                },
            }
            p += 1;
        }
        let ghost len = training@.len() as int;
        let ghost size = mini_batch_size as int;
        let mut order = rising_order(training.len());
        let mut schedule: Vec<Vec<Vec<Update>>> = Vec::new();
        let mut epoch: u16 = 0;
        while epoch < epochs
            invariant
                epoch <= epochs,
                size == mini_batch_size,
                size > 0,
                len == training@.len(),
                len <= usize::MAX,
                all_fit(self@, training@),
                schedule@.len() == epoch,
                order@.to_multiset() == rising(len).to_multiset(),
                forall|e: int| 0 <= e < schedule@.len() ==> epoch_of(
                    (#[trigger] schedule@[e])@,
                    len,
                    size,
                ),
            decreases epochs - epoch,
        {
            shuffle(&mut order, rng);
            proof {
                lemma_rearranged_visits_each_once(order@, len);
            }
            let batches = match mini_batches(&order, mini_batch_size as usize) {
                Ok(batches) => batches,
                Err(e) => {
                    return Err(e);
                },
            };
            let mut plans: Vec<Vec<Update>> = Vec::new();
            let mut k: usize = 0;
            while k < batches.len()
                invariant
                    k <= batches.len(),
                    size > 0,
                    len == training@.len(),
                    all_fit(self@, training@),
                    visits_each_once(order@, len),
                    cut_from(batches@, order@, size),
                    plans@.len() == k,
                    forall|j: int|
                        0 <= j < plans@.len() ==> (#[trigger] plans@[j])@ == update_plan(
                            batch_at(order@, size, j),
                        ),
                decreases batches.len() - k,
            {
                let batch = &batches[k];
                proof {
                    lemma_batches_name_examples(order@, len, size, k as int);
                    assert(batch@ == batch_at(order@, size, k as int));
                    assert forall|i: int| 0 <= i < batch@.len() implies fault_of(
                        self@,
                        training@,
                        #[trigger] batch@[i],
                    ) is None by {
                        assert(batch@[i] < len);
                        assert(example_fits(
                            self@,
                            training@[batch@[i] as int].0,
                            training@[batch@[i] as int].1,
                        ));
                    }
                }
                match self.update_mini_batch(training, batch) {
                    Ok(plan) => {
                        plans.push(plan);
                    },
                    Err(e) => {
                        return Err(e);
                    },
                }
                k += 1;
            }
            assert(epoch_of(plans@, len, size));
            schedule.push(plans);
            epoch += 1;
        }
        Ok(schedule)
    }
}

} // verus!
