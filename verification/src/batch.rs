//! Cutting a training set into mini-batches, and the order in which an epoch
//! visits its examples.
//!
//! Examples are named by their position in the training set, so that an order
//! is a sequence of positions, and a mini-batch a run of consecutive entries
//! of an order.

use vstd::prelude::*;
use vstd::seq_lib::{to_multiset_contains, to_multiset_len};
use ndarray_rand::rand::rngs::StdRng;
use ndarray_rand::rand::seq::SliceRandom;
use crate::error::NetworkError;

verus! {

/// `StdRng` of the `rand` crate, as `ndarray-rand` hands it on: the random
/// number generator that decides the order of an epoch. It is made by the
/// caller, from a seed where a run has to be repeatable, and nothing is known
/// here of what is inside it.
#[verifier::external_type_specification]
#[verifier::external_body]
pub struct ExStdRng(StdRng);

/// The positions `0, 1, .., len - 1` in rising order.
pub open spec fn rising(len: int) -> Seq<usize> {
    Seq::new(len as nat, |i: int| i as usize)
}

/// `order` visits each of the positions below `len` once, and nothing else.
pub open spec fn visits_each_once(order: Seq<usize>, len: int) -> bool {
    &&& order.len() == len
    &&& forall|i: int| 0 <= i < order.len() ==> order[i] < len
    &&& order.no_duplicates()
}

/// The number of mini-batches that `len` examples fall into: `len / size`,
/// rounded up.
pub open spec fn batch_count(len: int, size: int) -> int {
    (len + size - 1) / size
}

/// Where mini-batch `k` ends: `size` entries after its start, or at the end
/// of the order where fewer are left.
pub open spec fn batch_end(len: int, size: int, k: int) -> int {
    if (k + 1) * size <= len {
        (k + 1) * size
    } else {
        len
    }
}

/// Mini-batch `k` of an order that is cut into runs of `size` entries.
pub open spec fn batch_at(order: Seq<usize>, size: int, k: int) -> Seq<usize> {
    order.subrange(k * size, batch_end(order.len() as int, size, k))
}

/// `batches` are the mini-batches of `order`, each of `size` entries but for
/// a shorter last one where `size` does not divide the length of the order.
pub open spec fn cut_from(batches: Seq<Vec<usize>>, order: Seq<usize>, size: int) -> bool {
    &&& batches.len() == batch_count(order.len() as int, size)
    &&& forall|k: int| 0 <= k < batches.len() ==> (#[trigger] batches[k])@ == batch_at(order, size, k)
}

/// `SliceRandom::shuffle` of the `rand` crate, on a vector of positions. It
/// walks the slice from its end and swaps each entry with one at or before
/// it, so that what the vector holds afterwards is what it held before, as
/// often as before, in an order of the generator's choice. No more is
/// claimed: not which order, and not that the order changes.
#[verifier::external_body]
pub(crate) fn shuffle(order: &mut Vec<usize>, rng: &mut StdRng)
    ensures
        final(order)@.to_multiset() == old(order)@.to_multiset(),
{
    order.shuffle(rng);
}

/// A sequence that holds what the rising order holds visits each position
/// once.
pub proof fn lemma_rearranged_visits_each_once(order: Seq<usize>, len: int)
    requires
        0 <= len <= usize::MAX,
        order.to_multiset() == rising(len).to_multiset(),
    ensures
        visits_each_once(order, len),
{
    let rise = rising(len);
    to_multiset_len(order);
    to_multiset_len(rise);
    assert(rise.no_duplicates());
    rise.lemma_multiset_has_no_duplicates();
    order.lemma_multiset_has_no_duplicates_conv();
    assert forall|i: int| 0 <= i < order.len() implies order[i] < len by {
        to_multiset_contains(order, order[i]);
        to_multiset_contains(rise, order[i]);
        assert(order.contains(order[i]));
        let j = choose|j: int| 0 <= j < rise.len() && rise[j] == order[i];
        assert(rise[j] == j);
    }
}

/// The rising order of the positions below `len`.
pub fn rising_order(len: usize) -> (order: Vec<usize>)
    ensures
        order@ == rising(len as int),
{
    let mut order: Vec<usize> = Vec::new();
    let mut i: usize = 0;
    while i < len
        invariant
            i <= len,
            order@ == rising(i as int),
        decreases len - i,
    {
        order.push(i);
        i += 1;
        assert(order@ =~= rising(i as int));
    }
    order
}

/// Cuts `order` into consecutive mini-batches of `mini_batch_size` entries.
/// The last one is shorter where the size does not divide the length; an
/// empty order has no mini-batch at all. A size of zero is refused.
pub fn mini_batches(order: &Vec<usize>, mini_batch_size: usize) -> (cut: Result<
    Vec<Vec<usize>>,
    NetworkError,
>)
    ensures
        match cut {
            Ok(batches) => mini_batch_size > 0 && cut_from(
                batches@,
                order@,
                mini_batch_size as int,
            ),
            Err(e) => mini_batch_size == 0 && e == NetworkError::EmptyBatch,
        },
{
    if mini_batch_size == 0 {
        return Err(NetworkError::EmptyBatch);
    }
    let len = order.len();
    let ghost size = mini_batch_size as int;
    let mut batches: Vec<Vec<usize>> = Vec::new();
    let mut start: usize = 0;
    assert(batches@.len() * size == 0) by (nonlinear_arith)
        requires
            batches@.len() == 0,
    ;
    while start < len
        invariant
            len == order.len(),
            size == mini_batch_size,
            size > 0,
            start <= len,
            start < len ==> start == batches.len() * size,
            start == len ==> batches.len() * size >= len,
            batches.len() > 0 ==> (batches.len() - 1) * size < len,
            forall|k: int|
                0 <= k < batches.len() ==> (#[trigger] batches@[k])@ == batch_at(order@, size, k),
        decreases len - start,
    {
        let ghost k = batches.len() as int;
        let end: usize = if len - start > mini_batch_size {
            start + mini_batch_size
        } else {
            len
        };
        proof {
            assert((k + 1) * size == k * size + size) by (nonlinear_arith);
            assert(end == batch_end(len as int, size, k));
        }
        let mut batch: Vec<usize> = Vec::new();
        let mut i: usize = start;
        while i < end
            invariant
                start <= i <= end <= len,
                len == order.len(),
                batch@ == order@.subrange(start as int, i as int),
            decreases end - i,
        {
            batch.push(order[i]);
            i += 1;
            assert(batch@ =~= order@.subrange(start as int, i as int));
        }
        batches.push(batch);
        start = end;
    }
    proof {
        let k = batches.len() as int;
        let n = len as int;
        if k == 0 {
            assert(n == 0);
            assert((n + size - 1) / size == 0) by (nonlinear_arith)
                requires
                    n == 0,
                    size > 0,
            ;
        } else {
            assert((n + size - 1) / size == k) by (nonlinear_arith)
                requires
                    (k - 1) * size < n,
                    k * size >= n,
                    size > 0,
            ;
        }
    }
    Ok(batches)
}

/// Every mini-batch starts inside the order: none is empty, none is longer
/// than `size`, and each but the last has `size` entries exactly.
pub proof fn lemma_batch_lengths(order: Seq<usize>, size: int, k: int)
    requires
        size > 0,
        0 <= k < batch_count(order.len() as int, size),
    ensures
        k * size < order.len(),
        0 < batch_at(order, size, k).len() <= size,
        k + 1 < batch_count(order.len() as int, size) ==> batch_at(order, size, k).len() == size,
        k + 1 == batch_count(order.len() as int, size) ==> batch_at(order, size, k).len()
            == order.len() - k * size,
{
    let n = order.len() as int;
    assert(k * size < n) by (nonlinear_arith)
        requires
            size > 0,
            n >= 0,
            0 <= k < (n + size - 1) / size,
    ;
    assert((k + 1) * size == k * size + size) by (nonlinear_arith);
    if k + 1 < batch_count(n, size) {
        assert((k + 1) * size < n) by (nonlinear_arith)
            requires
                size > 0,
                n >= 0,
                0 <= k + 1 < (n + size - 1) / size,
        ;
    } else {
        assert((k + 1) * size >= n) by (nonlinear_arith)
            requires
                size > 0,
                n >= 0,
                k + 1 == (n + size - 1) / size,
        ;
    }
}

/// The mini-batches leave nothing out and take nothing twice: the entry at
/// position `p` of the order is entry `p % size` of mini-batch `p / size`.
pub proof fn lemma_batches_cover(order: Seq<usize>, size: int, p: int)
    requires
        size > 0,
        0 <= p < order.len(),
    ensures
        0 <= p / size < batch_count(order.len() as int, size),
        0 <= p % size < batch_at(order, size, p / size).len(),
        batch_at(order, size, p / size)[p % size] == order[p],
{
    let n = order.len() as int;
    let k = p / size;
    let r = p % size;
    assert(0 <= k && 0 <= r < size && p == k * size + r) by (nonlinear_arith)
        requires
            size > 0,
            p >= 0,
            k == p / size,
            r == p % size,
    ;
    assert(k < (n + size - 1) / size) by (nonlinear_arith)
        requires
            size > 0,
            0 <= k,
            k * size <= p,
            p < n,
    ;
    assert((k + 1) * size == k * size + size) by (nonlinear_arith);
}

/// A mini-batch size that is no smaller than a training set with examples in
/// it gives one mini-batch, which is the whole order.
pub proof fn lemma_one_batch_when_size_covers(order: Seq<usize>, size: int)
    requires
        0 < order.len() <= size,
    ensures
        batch_count(order.len() as int, size) == 1,
        batch_at(order, size, 0) == order,
{
    let n = order.len() as int;
    assert((n + size - 1) / size == 1) by (nonlinear_arith)
        requires
            0 < n <= size,
    ;
    assert(batch_at(order, size, 0) =~= order);
}

/// An empty training set has no mini-batch.
pub proof fn lemma_no_batch_without_examples(size: int)
    requires
        size > 0,
    ensures
        batch_count(0, size) == 0,
{
    assert((0 + size - 1) / size == 0) by (nonlinear_arith)
        requires
            size > 0,
    ;
}

} // verus!
