//! From the outputs of a network to the class it predicts, and to the number
//! of test examples it gets right.
//!
//! An output component comes here as a score: an unsigned integer that the
//! caller chooses so that a larger component has a larger score and equal
//! components have equal scores. The components of an output lie between 0
//! and 1, and the bit pattern of a double that is not negative orders as the
//! double does.

use vstd::prelude::*;
use crate::error::NetworkError;
use crate::network::{activation_shape_of, Network};
use crate::shape::Shape;

verus! {

/// The score at `at` is the largest, and the first of the largest.
pub open spec fn is_first_maximum(scores: Seq<u64>, at: int) -> bool {
    &&& 0 <= at < scores.len()
    &&& forall|j: int| 0 <= j < scores.len() ==> scores[j] <= scores[at]
    &&& forall|j: int| 0 <= j < at ==> scores[j] < scores[at]
}

/// The network is right about an example when the class it predicts, the
/// first of the largest scores, is the example's label.
pub open spec fn is_hit(scores: Seq<u64>, label: u8) -> bool {
    is_first_maximum(scores, label as int)
}

/// The number of examples, among the first `upto`, that the network is right
/// about.
pub open spec fn hits(outputs: Seq<Vec<u64>>, labels: Seq<u8>, upto: int) -> int
    decreases upto,
{
    if upto <= 0 {
        0
    } else {
        hits(outputs, labels, upto - 1) + if is_hit(outputs[upto - 1]@, labels[upto - 1]) {
            1int
        } else {
            0int
        }
    }
}

/// The output at `at` is the first that has not one score for each class.
pub open spec fn first_misfit(outputs: Seq<Vec<u64>>, classes: int, at: int) -> bool {
    &&& 0 <= at < outputs.len()
    &&& outputs[at]@.len() != classes
    &&& forall|i: int| 0 <= i < at ==> (#[trigger] outputs[i])@.len() == classes
}

/// What counting gives for a network with these layer sizes: the number of
/// hits, or the reason for which nothing was counted. Outputs and labels that
/// differ in number are reported before an output that has not one score for
/// each class, and of such outputs the first is reported.
pub open spec fn counted_as(
    sizes: Seq<usize>,
    outputs: Seq<Vec<u64>>,
    labels: Seq<u8>,
    counted: Result<usize, NetworkError>,
) -> bool {
    match counted {
        Ok(count) => {
            &&& outputs.len() == labels.len()
            &&& forall|i: int|
                0 <= i < outputs.len() ==> (#[trigger] outputs[i])@.len() == sizes[sizes.len() - 1]
            &&& count == hits(outputs, labels, labels.len() as int)
            &&& count <= labels.len()
        },
        Err(NetworkError::LabelCount { scores, labels: given }) => {
            &&& outputs.len() != labels.len()
            &&& scores == outputs.len()
            &&& given == labels.len()
        },
        Err(NetworkError::ShapeMismatch { expected, found }) => {
            &&& outputs.len() == labels.len()
            &&& expected == activation_shape_of(sizes, sizes.len() - 1)
            &&& exists|at: int|
                first_misfit(outputs, sizes[sizes.len() - 1] as int, at) && found
                    == Shape::column_of(outputs[at]@.len() as usize)
        },
        Err(_) => false,
    }
}

/// Counting is settled by the network and the test set: whatever it gives
/// once, it gives again.
pub proof fn lemma_counting_repeats(
    sizes: Seq<usize>,
    outputs: Seq<Vec<u64>>,
    labels: Seq<u8>,
    first: Result<usize, NetworkError>,
    second: Result<usize, NetworkError>,
)
    requires
        counted_as(sizes, outputs, labels, first),
        counted_as(sizes, outputs, labels, second),
    ensures
        first == second,
{
    let classes = sizes[sizes.len() - 1] as int;
    if first is Err && second is Err && outputs.len() == labels.len() {
        let a = choose|at: int|
            first_misfit(outputs, classes, at) && first->Err_0->ShapeMismatch_found
                == Shape::column_of(outputs[at]@.len() as usize);
        let b = choose|at: int|
            first_misfit(outputs, classes, at) && second->Err_0->ShapeMismatch_found
                == Shape::column_of(outputs[at]@.len() as usize);
        if a < b {
            assert(outputs[a]@.len() == classes);
        } else if b < a {
            assert(outputs[b]@.len() == classes);
        }
    } else if outputs.len() == labels.len() {
        if first is Err {
            let a = choose|at: int| first_misfit(outputs, classes, at);
            assert(outputs[a]@.len() == classes);
        }
        if second is Err {
            let b = choose|at: int| first_misfit(outputs, classes, at);
            assert(outputs[b]@.len() == classes);
        }
    }
}

/// No two positions are both the first maximum.
pub proof fn lemma_first_maximum_is_one(scores: Seq<u64>, a: int, b: int)
    requires
        is_first_maximum(scores, a),
        is_first_maximum(scores, b),
    ensures
        a == b,
{
    if a < b {
        assert(scores[a] < scores[b]);
        assert(scores[b] <= scores[a]);
    } else if b < a {
        assert(scores[b] < scores[a]);
        assert(scores[a] <= scores[b]);
    }
}

/// The network is right about no more examples than it was asked about.
pub proof fn lemma_hits_bounded(outputs: Seq<Vec<u64>>, labels: Seq<u8>, upto: int)
    ensures
        0 <= hits(outputs, labels, upto),
        upto >= 0 ==> hits(outputs, labels, upto) <= upto,
    decreases upto,
{
    if upto > 0 {
        lemma_hits_bounded(outputs, labels, upto - 1);
    }
}

/// The class that a vector of scores stands for: the position of the largest
/// score, and of the first one where several are the largest. Without scores
/// there is no class.
pub fn predicted_class(scores: &Vec<u64>) -> (class: Option<usize>)
    ensures
        match class {
            Some(at) => is_first_maximum(scores@, at as int),
            None => scores@.len() == 0,
        },
{
    if scores.len() == 0 {
        return None;
    }
    let mut best: usize = 0;
    let mut i: usize = 1;
    while i < scores.len()
        invariant
            1 <= i <= scores.len(),
            best < i,
            forall|j: int| 0 <= j < i ==> scores@[j] <= scores@[best as int],
            forall|j: int| 0 <= j < best ==> scores@[j] < scores@[best as int],
        decreases scores.len() - i,
    {
        if scores[i] > scores[best] {
            best = i;
        }
        i += 1;
    }
    Some(best)
}

impl Network {
    /// Counts the test examples whose label is the class that the network
    /// predicts. `outputs` holds the scores of the network's output for each
    /// test example and `labels` the label of each, in the same order. A
    /// label that is no class of the network is never a hit. Refused are
    /// outputs and labels that differ in number, and after that an output
    /// that has not one score for each class.
    pub fn evaluate(&self, outputs: &Vec<Vec<u64>>, labels: &Vec<u8>) -> (counted: Result<
        usize,
        NetworkError,
    >)
        ensures
            counted_as(self@, outputs@, labels@, counted),
    {
        if outputs.len() != labels.len() {
            return Err(NetworkError::LabelCount { scores: outputs.len(), labels: labels.len() });
        }
        let classes = self.output_size();
        let mut count: usize = 0;
        let mut i: usize = 0;
        while i < outputs.len()
            invariant
                i <= outputs.len(),
                outputs@.len() == labels@.len(),
                classes == self@[self@.len() - 1],
                classes > 0,
                forall|j: int| 0 <= j < i ==> (#[trigger] outputs@[j])@.len() == classes,
                count == hits(outputs@, labels@, i as int),
                count <= i,
            decreases outputs.len() - i,
        {
            let scores = &outputs[i];
            if scores.len() != classes {
                assert(first_misfit(outputs@, classes as int, i as int));
                return Err(
                    NetworkError::ShapeMismatch {
                        expected: Shape::column(classes),
                        found: Shape::column(scores.len()),
                    },
                );
            }
            let label = labels[i];
            match predicted_class(scores) {
                Some(class) => {
                    proof {
                        if is_hit(scores@, label) {
                            lemma_first_maximum_is_one(scores@, class as int, label as int);
                        }
                    }
                    if class == label as usize {
                        count += 1;
                    }
                },
                None => {},
            }
            i += 1;
        }
        Ok(count)
    }
}

} // verus!
