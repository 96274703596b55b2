//! The kernels of a forward pass and of backpropagation, in the order in
//! which they run, and what each of them does to the shapes of the tensors.
//!
//! A kernel is a piece of floating-point work that the caller carries out. A
//! plan names the kernels one by one; running a plan over shapes alone shows
//! whether every kernel finds operands that fit.

use vstd::prelude::*;
use crate::error::NetworkError;
use crate::network::{
    activation_shape_of, bias_shape_of, example_fits, misfit_of, transitions_of, valid_sizes,
    weight_shape_of, Network,
};
use crate::shape::Shape;

verus! {

/// One kernel. The number is that of a transition: transition `i` leads from
/// layer `i` to layer `i + 1`.
#[derive(Clone, Copy, Debug, PartialEq, Eq, Structural)]
pub enum Step {
    /// `z[i] = weight[i] · a[i] + bias[i]` and `a[i + 1] = sigmoid(z[i])`.
    Forward(usize),
    /// The error of the last transition:
    /// `delta[i] = (a[i + 1] - target) ⊙ sigmoid_prime(z[i])`.
    OutputError(usize),
    /// The error of an earlier transition:
    /// `delta[i] = (weight[i + 1]ᵗ · delta[i + 1]) ⊙ sigmoid_prime(z[i])`.
    HiddenError(usize),
    /// The gradient of the cost by `bias[i]`, which is `delta[i]`.
    BiasGradient(usize),
    /// The gradient of the cost by `weight[i]`, which is `delta[i] · a[i]ᵗ`.
    WeightGradient(usize),
}

/// A tensor that a kernel reads or writes.
#[derive(Clone, Copy, Debug, PartialEq, Eq, Structural)]
pub enum Tensor {
    Weight(usize),
    Bias(usize),
    /// The activation of a layer; that of layer 0 is the input.
    Activation(usize),
    /// The weighted input `z` of a transition.
    WeightedInput(usize),
    /// The error `delta` of a transition.
    Delta(usize),
    WeightGradient(usize),
    BiasGradient(usize),
    /// The output that the training example asks for.
    Target,
}

/// The shapes of the tensors that exist at some moment of a run.
pub type Shapes = Map<Tensor, Shape>;

/// The kernels of a forward pass through the first `count` transitions.
pub open spec fn forward_plan(count: int) -> Seq<Step> {
    Seq::new(count as nat, |i: int| Step::Forward(i as usize))
}

/// The three kernels that give the gradients of transition `i`, in a network
/// of `transitions` transitions.
pub open spec fn layer_gradients(transitions: int, i: int) -> Seq<Step> {
    seq![
        if i == transitions - 1 {
            Step::OutputError(i as usize)
        } else {
            Step::HiddenError(i as usize)
        },
        Step::BiasGradient(i as usize),
        Step::WeightGradient(i as usize),
    ]
}

/// The kernels of the backward pass from the last transition down to
/// transition `lowest`.
pub open spec fn backward_plan(transitions: int, lowest: int) -> Seq<Step>
    decreases transitions - lowest,
{
    if lowest >= transitions {
        Seq::empty()
    } else {
        backward_plan(transitions, lowest + 1) + layer_gradients(transitions, lowest)
    }
}

/// Backpropagation: the forward pass, then the backward pass down to the
/// first transition.
pub open spec fn backpropagation_plan(transitions: int) -> Seq<Step> {
    forward_plan(transitions) + backward_plan(transitions, 0)
}

/// The shape of `tensor`, if it exists.
pub open spec fn shape_in(shapes: Shapes, tensor: Tensor) -> Option<Shape> {
    if shapes.dom().contains(tensor) {
        Some(shapes[tensor])
    } else {
        None
    }
}

/// The shape of `left · right`.
pub open spec fn product_of(left: Option<Shape>, right: Option<Shape>) -> Option<Shape> {
    match (left, right) {
        (Some(l), Some(r)) => l.times(r),
        _ => None,
    }
}

/// The shape of an entry-by-entry combination of `left` and `right`.
pub open spec fn entrywise_of(left: Option<Shape>, right: Option<Shape>) -> Option<Shape> {
    match (left, right) {
        (Some(l), Some(r)) => l.entrywise(r),
        _ => None,
    }
}

/// The shape of the transposed tensor.
pub open spec fn flipped_of(shape: Option<Shape>) -> Option<Shape> {
    match shape {
        Some(s) => Some(s.flipped()),
        None => None,
    }
}

/// The transition after `i`.
pub open spec fn after(i: usize) -> usize {
    (i + 1) as usize
}

/// The shape of what `step` computes from the tensors that exist, or `None`
/// where an operand is missing or two operands do not fit.
pub open spec fn outcome(shapes: Shapes, step: Step) -> Option<Shape> {
    match step {
        Step::Forward(i) => entrywise_of(
            product_of(shape_in(shapes, Tensor::Weight(i)), shape_in(shapes, Tensor::Activation(i))),
            shape_in(shapes, Tensor::Bias(i)),
        ),
        Step::OutputError(i) => entrywise_of(
            entrywise_of(
                shape_in(shapes, Tensor::Activation(after(i))),
                shape_in(shapes, Tensor::Target),
            ),
            shape_in(shapes, Tensor::WeightedInput(i)),
        ),
        Step::HiddenError(i) => entrywise_of(
            product_of(
                flipped_of(shape_in(shapes, Tensor::Weight(after(i)))),
                shape_in(shapes, Tensor::Delta(after(i))),
            ),
            shape_in(shapes, Tensor::WeightedInput(i)),
        ),
        Step::BiasGradient(i) => shape_in(shapes, Tensor::Delta(i)),
        Step::WeightGradient(i) => product_of(
            shape_in(shapes, Tensor::Delta(i)),
            flipped_of(shape_in(shapes, Tensor::Activation(i))),
        ),
    }
}

/// The tensors that exist once `step` has computed a tensor of shape `made`.
pub open spec fn record(shapes: Shapes, step: Step, made: Shape) -> Shapes {
    match step {
        Step::Forward(i) => shapes.insert(Tensor::WeightedInput(i), made).insert(
            Tensor::Activation(after(i)),
            made,
        ),
        Step::OutputError(i) => shapes.insert(Tensor::Delta(i), made),
        Step::HiddenError(i) => shapes.insert(Tensor::Delta(i), made),
        Step::BiasGradient(i) => shapes.insert(Tensor::BiasGradient(i), made),
        Step::WeightGradient(i) => shapes.insert(Tensor::WeightGradient(i), made),
    }
}

/// One kernel, run over shapes: `None` where it would stop on a mismatch.
pub open spec fn apply(shapes: Shapes, step: Step) -> Option<Shapes> {
    match outcome(shapes, step) {
        Some(made) => Some(record(shapes, step, made)),
        None => None,
    }
}

/// A whole plan, run over shapes from its first kernel to its last.
pub open spec fn run(shapes: Shapes, plan: Seq<Step>) -> Option<Shapes>
    decreases plan.len(),
{
    if plan.len() == 0 {
        Some(shapes)
    } else {
        match run(shapes, plan.drop_last()) {
            Some(reached) => apply(reached, plan.last()),
            None => None,
        }
    }
}

/// What exists before a forward pass: the parameters of a network with
/// these layer sizes, and an input.
pub open spec fn at_input(sizes: Seq<usize>, input: Shape) -> Shapes {
    Map::new(
        |t: Tensor|
            match t {
                Tensor::Weight(i) => i < transitions_of(sizes),
                Tensor::Bias(i) => i < transitions_of(sizes),
                Tensor::Activation(i) => i == 0,
                _ => false,
            },
        |t: Tensor|
            match t {
                Tensor::Weight(i) => weight_shape_of(sizes, i as int),
                Tensor::Bias(i) => bias_shape_of(sizes, i as int),
                _ => input,
            },
    )
}

/// What exists before backpropagation: the parameters, the input of the
/// training example and its target.
pub open spec fn at_start(sizes: Seq<usize>, target: Shape, input: Shape) -> Shapes {
    at_input(sizes, input).insert(Tensor::Target, target)
}

/// The parameters of the network exist, each in its shape.
pub open spec fn parameters_held(shapes: Shapes, sizes: Seq<usize>) -> bool {
    &&& forall|i: usize|
        i < transitions_of(sizes) ==> #[trigger] shape_in(shapes, Tensor::Weight(i)) == Some(
            weight_shape_of(sizes, i as int),
        )
    &&& forall|i: usize|
        i < transitions_of(sizes) ==> #[trigger] shape_in(shapes, Tensor::Bias(i)) == Some(
            bias_shape_of(sizes, i as int),
        )
}

/// The forward pass has gone through the first `count` transitions: the
/// activation of each layer up to `count` exists, and the weighted input of
/// each transition before `count`, each a column of its layer's size.
pub open spec fn forward_done(shapes: Shapes, sizes: Seq<usize>, count: int) -> bool {
    &&& parameters_held(shapes, sizes)
    &&& forall|i: usize|
        i <= count ==> #[trigger] shape_in(shapes, Tensor::Activation(i)) == Some(
            activation_shape_of(sizes, i as int),
        )
    &&& forall|i: usize|
        i < count ==> #[trigger] shape_in(shapes, Tensor::WeightedInput(i)) == Some(
            bias_shape_of(sizes, i as int),
        )
}

/// The backward pass has come down to transition `lowest`: from there on
/// every transition has its error, and a gradient for its bias and for its
/// weight that has the very shape of the parameter.
pub open spec fn backward_done(shapes: Shapes, sizes: Seq<usize>, target: Shape, lowest: int) -> bool {
    &&& forward_done(shapes, sizes, transitions_of(sizes))
    &&& shape_in(shapes, Tensor::Target) == Some(target)
    &&& forall|i: usize|
        lowest <= i < transitions_of(sizes) ==> #[trigger] shape_in(shapes, Tensor::Delta(i))
            == Some(bias_shape_of(sizes, i as int))
    &&& forall|i: usize|
        lowest <= i < transitions_of(sizes) ==> #[trigger] shape_in(
            shapes,
            Tensor::BiasGradient(i),
        ) == Some(bias_shape_of(sizes, i as int))
    &&& forall|i: usize|
        lowest <= i < transitions_of(sizes) ==> #[trigger] shape_in(
            shapes,
            Tensor::WeightGradient(i),
        ) == Some(weight_shape_of(sizes, i as int))
}

/// Running a plan and then one more kernel is running the longer plan.
pub proof fn lemma_run_push(shapes: Shapes, plan: Seq<Step>, step: Step)
    ensures
        run(shapes, plan.push(step)) == match run(shapes, plan) {
            Some(reached) => apply(reached, step),
            None => None,
        },
{
    assert(plan.push(step).drop_last() =~= plan);
    assert(plan.push(step).last() == step);
}

/// A run that has stopped on a mismatch stays stopped, whatever follows.
pub proof fn lemma_run_stopped(shapes: Shapes, plan: Seq<Step>, more: Seq<Step>)
    requires
        run(shapes, plan) is None,
    ensures
        run(shapes, plan + more) is None,
    decreases more.len(),
{
    if more.len() == 0 {
        assert(plan + more =~= plan);
    } else {
        lemma_run_stopped(shapes, plan, more.drop_last());
        assert((plan + more).drop_last() =~= plan + more.drop_last());
    }
}

proof fn lemma_forward_run(start: Shapes, sizes: Seq<usize>, count: int)
    requires
        valid_sizes(sizes),
        sizes.len() <= usize::MAX,
        forward_done(start, sizes, 0),
        0 <= count <= transitions_of(sizes),
    ensures
        run(start, forward_plan(count)) is Some,
        forward_done(run(start, forward_plan(count))->0, sizes, count),
        shape_in(run(start, forward_plan(count))->0, Tensor::Target) == shape_in(
            start,
            Tensor::Target,
        ),
    decreases count,
{
    if count == 0 {
        assert(forward_plan(0) =~= Seq::<Step>::empty());
    } else {
        lemma_forward_run(start, sizes, count - 1);
        let before = run(start, forward_plan(count - 1))->0;
        let i = (count - 1) as usize;
        assert(forward_plan(count) =~= forward_plan(count - 1).push(Step::Forward(i)));
        lemma_run_push(start, forward_plan(count - 1), Step::Forward(i));
        assert(shape_in(before, Tensor::Weight(i)) == Some(weight_shape_of(sizes, i as int)));
        assert(shape_in(before, Tensor::Bias(i)) == Some(bias_shape_of(sizes, i as int)));
        assert(shape_in(before, Tensor::Activation(i)) == Some(
            activation_shape_of(sizes, i as int),
        ));
        let made = bias_shape_of(sizes, i as int);
        assert(outcome(before, Step::Forward(i)) == Some(made));
        let reached = record(before, Step::Forward(i), made);
        assert(run(start, forward_plan(count)) == Some(reached));
        assert forall|j: usize| j < transitions_of(sizes) implies #[trigger] shape_in(
            reached,
            Tensor::Weight(j),
        ) == Some(weight_shape_of(sizes, j as int)) by {
            assert(shape_in(before, Tensor::Weight(j)) == shape_in(reached, Tensor::Weight(j)));
        }
        assert forall|j: usize| j < transitions_of(sizes) implies #[trigger] shape_in(
            reached,
            Tensor::Bias(j),
        ) == Some(bias_shape_of(sizes, j as int)) by {
            assert(shape_in(before, Tensor::Bias(j)) == shape_in(reached, Tensor::Bias(j)));
        }
        assert forall|j: usize| j <= count implies #[trigger] shape_in(
            reached,
            Tensor::Activation(j),
        ) == Some(activation_shape_of(sizes, j as int)) by {
            if j != after(i) {
                assert(shape_in(before, Tensor::Activation(j)) == shape_in(
                    reached,
                    Tensor::Activation(j),
                ));
            }
        }
        assert forall|j: usize| j < count implies #[trigger] shape_in(
            reached,
            Tensor::WeightedInput(j),
        ) == Some(bias_shape_of(sizes, j as int)) by {
            if j != i {
                assert(shape_in(before, Tensor::WeightedInput(j)) == shape_in(
                    reached,
                    Tensor::WeightedInput(j),
                ));
            }
        }
    }
}

proof fn lemma_backward_run(sizes: Seq<usize>, target: Shape, input: Shape, lowest: int)
    requires
        valid_sizes(sizes),
        sizes.len() <= usize::MAX,
        input == activation_shape_of(sizes, 0),
        target == activation_shape_of(sizes, sizes.len() - 1),
        0 <= lowest <= transitions_of(sizes),
    ensures
        run(
            at_start(sizes, target, input),
            forward_plan(transitions_of(sizes)) + backward_plan(transitions_of(sizes), lowest),
        ) is Some,
        backward_done(
            run(
                at_start(sizes, target, input),
                forward_plan(transitions_of(sizes)) + backward_plan(transitions_of(sizes), lowest),
            )->0,
            sizes,
            target,
            lowest,
        ),
    decreases transitions_of(sizes) - lowest,
{
    let start = at_start(sizes, target, input);
    let t = transitions_of(sizes);
    if lowest == t {
        lemma_forward_run(start, sizes, t);
        assert(forward_plan(t) + backward_plan(t, lowest) =~= forward_plan(t));
    } else {
        lemma_backward_run(sizes, target, input, lowest + 1);
        let done = forward_plan(t) + backward_plan(t, lowest + 1);
        let s0 = run(start, done)->0;
        let i = lowest as usize;
        let error = layer_gradients(t, lowest)[0];
        let column = bias_shape_of(sizes, lowest);
        assert(forward_plan(t) + backward_plan(t, lowest) =~= done.push(error).push(
            Step::BiasGradient(i),
        ).push(Step::WeightGradient(i)));
        lemma_run_push(start, done, error);
        lemma_run_push(start, done.push(error), Step::BiasGradient(i));
        lemma_run_push(start, done.push(error).push(Step::BiasGradient(i)), Step::WeightGradient(i));
        assert(shape_in(s0, Tensor::WeightedInput(i)) == Some(column));
        assert(shape_in(s0, Tensor::Activation(i)) == Some(activation_shape_of(sizes, lowest)));
        if lowest == t - 1 {
            assert(shape_in(s0, Tensor::Activation(after(i))) == Some(target));
        } else {
            assert(shape_in(s0, Tensor::Weight(after(i))) == Some(
                weight_shape_of(sizes, lowest + 1),
            ));
            assert(shape_in(s0, Tensor::Delta(after(i))) == Some(
                bias_shape_of(sizes, lowest + 1),
            ));
        }
        assert(outcome(s0, error) == Some(column));
        let s1 = record(s0, error, column);
        assert(s1 == s0.insert(Tensor::Delta(i), column));
        assert(outcome(s1, Step::BiasGradient(i)) == Some(column));
        let s2 = record(s1, Step::BiasGradient(i), column);
        assert(shape_in(s2, Tensor::Delta(i)) == Some(column));
        assert(shape_in(s2, Tensor::Activation(i)) == Some(activation_shape_of(sizes, lowest)));
        assert(outcome(s2, Step::WeightGradient(i)) == Some(weight_shape_of(sizes, lowest)));
        let s3 = record(s2, Step::WeightGradient(i), weight_shape_of(sizes, lowest));
        assert(run(start, forward_plan(t) + backward_plan(t, lowest)) == Some(s3));
        assert forall|j: usize| j < t implies #[trigger] shape_in(s3, Tensor::Weight(j)) == Some(
            weight_shape_of(sizes, j as int),
        ) by {
            assert(shape_in(s0, Tensor::Weight(j)) == shape_in(s3, Tensor::Weight(j)));
        }
        assert forall|j: usize| j < t implies #[trigger] shape_in(s3, Tensor::Bias(j)) == Some(
            bias_shape_of(sizes, j as int),
        ) by {
            assert(shape_in(s0, Tensor::Bias(j)) == shape_in(s3, Tensor::Bias(j)));
        }
        assert forall|j: usize| j <= t implies #[trigger] shape_in(s3, Tensor::Activation(j))
            == Some(activation_shape_of(sizes, j as int)) by {
            assert(shape_in(s0, Tensor::Activation(j)) == shape_in(s3, Tensor::Activation(j)));
        }
        assert forall|j: usize| j < t implies #[trigger] shape_in(s3, Tensor::WeightedInput(j))
            == Some(bias_shape_of(sizes, j as int)) by {
            assert(shape_in(s0, Tensor::WeightedInput(j)) == shape_in(
                s3,
                Tensor::WeightedInput(j),
            ));
        }
        assert forall|j: usize| lowest <= j < t implies #[trigger] shape_in(s3, Tensor::Delta(j))
            == Some(bias_shape_of(sizes, j as int)) by {
            if j != i {
                assert(shape_in(s0, Tensor::Delta(j)) == shape_in(s3, Tensor::Delta(j)));
            }
        }
        assert forall|j: usize| lowest <= j < t implies #[trigger] shape_in(
            s3,
            Tensor::BiasGradient(j),
        ) == Some(bias_shape_of(sizes, j as int)) by {
            if j != i {
                assert(shape_in(s0, Tensor::BiasGradient(j)) == shape_in(
                    s3,
                    Tensor::BiasGradient(j),
                ));
            }
        }
        assert forall|j: usize| lowest <= j < t implies #[trigger] shape_in(
            s3,
            Tensor::WeightGradient(j),
        ) == Some(weight_shape_of(sizes, j as int)) by {
            if j != i {
                assert(shape_in(s0, Tensor::WeightGradient(j)) == shape_in(
                    s3,
                    Tensor::WeightGradient(j),
                ));
            }
        }
    }
}

/// A forward pass on an input that fits never stops on a mismatch, and the
/// activation it ends with is a column with one entry for each class.
pub proof fn lemma_forward_pass_fits(sizes: Seq<usize>, input: Shape)
    requires
        valid_sizes(sizes),
        sizes.len() <= usize::MAX,
        input == activation_shape_of(sizes, 0),
    ensures
        run(at_input(sizes, input), forward_plan(transitions_of(sizes))) is Some,
        shape_in(
            run(at_input(sizes, input), forward_plan(transitions_of(sizes)))->0,
            Tensor::Activation(transitions_of(sizes) as usize),
        ) == Some(Shape::column_of(sizes[sizes.len() - 1])),
{
    lemma_forward_run(at_input(sizes, input), sizes, transitions_of(sizes));
}

/// Every transition has a weight gradient in the shape of its weight matrix
/// and a bias gradient in the shape of its bias vector.
pub open spec fn gradients_match_parameters(shapes: Shapes, sizes: Seq<usize>) -> bool {
    &&& forall|i: usize|
        i < transitions_of(sizes) ==> #[trigger] shape_in(shapes, Tensor::WeightGradient(i))
            == Some(weight_shape_of(sizes, i as int))
    &&& forall|i: usize|
        i < transitions_of(sizes) ==> #[trigger] shape_in(shapes, Tensor::BiasGradient(i))
            == Some(bias_shape_of(sizes, i as int))
}

/// Backpropagation on an example that fits never stops on a mismatch, and
/// it leaves, for every transition, a weight gradient in the shape of the
/// weight matrix and a bias gradient in the shape of the bias vector.
pub proof fn lemma_gradients_match_parameters(sizes: Seq<usize>, target: Shape, input: Shape)
    requires
        valid_sizes(sizes),
        sizes.len() <= usize::MAX,
        input == activation_shape_of(sizes, 0),
        target == activation_shape_of(sizes, sizes.len() - 1),
    ensures
        run(at_start(sizes, target, input), backpropagation_plan(transitions_of(sizes))) is Some,
        gradients_match_parameters(
            run(at_start(sizes, target, input), backpropagation_plan(transitions_of(sizes)))->0,
            sizes,
        ),
{
    lemma_backward_run(sizes, target, input, 0);
}

/// The backward pass has three kernels for each transition it covers, and
/// begins with the error of the output layer.
pub proof fn lemma_backward_plan_begins(transitions: int, lowest: int)
    requires
        0 <= lowest < transitions,
    ensures
        backward_plan(transitions, lowest).len() == 3 * (transitions - lowest),
        backward_plan(transitions, lowest)[0] == Step::OutputError((transitions - 1) as usize),
    decreases transitions - lowest,
{
    if lowest + 1 < transitions {
        lemma_backward_plan_begins(transitions, lowest + 1);
    } else {
        assert(backward_plan(transitions, lowest + 1) =~= Seq::<Step>::empty());
    }
}

/// A forward pass stops on its first kernel where the input is anything but
/// a column with one entry for each unit of the input layer, and so does
/// backpropagation.
pub proof fn lemma_wrong_input_stops(sizes: Seq<usize>, target: Shape, input: Shape)
    requires
        valid_sizes(sizes),
        sizes.len() <= usize::MAX,
        input != activation_shape_of(sizes, 0),
    ensures
        run(at_input(sizes, input), forward_plan(transitions_of(sizes))) is None,
        run(at_start(sizes, target, input), backpropagation_plan(transitions_of(sizes))) is None,
{
    let t = transitions_of(sizes);
    lemma_first_kernel_stops(at_input(sizes, input), sizes, input);
    lemma_first_kernel_stops(at_start(sizes, target, input), sizes, input);
    lemma_run_stopped(at_start(sizes, target, input), forward_plan(t), backward_plan(t, 0));
}

proof fn lemma_first_kernel_stops(start: Shapes, sizes: Seq<usize>, input: Shape)
    requires
        valid_sizes(sizes),
        input != activation_shape_of(sizes, 0),
        shape_in(start, Tensor::Weight(0)) == Some(weight_shape_of(sizes, 0)),
        shape_in(start, Tensor::Bias(0)) == Some(bias_shape_of(sizes, 0)),
        shape_in(start, Tensor::Activation(0)) == Some(input),
    ensures
        run(start, forward_plan(transitions_of(sizes))) is None,
{
    let t = transitions_of(sizes);
    let first = Seq::<Step>::empty().push(Step::Forward(0));
    let rest = forward_plan(t).subrange(1, t);
    lemma_run_push(start, Seq::<Step>::empty(), Step::Forward(0));
    assert(outcome(start, Step::Forward(0)) is None);
    assert(run(start, first) is None);
    lemma_run_stopped(start, first, rest);
    assert(first + rest =~= forward_plan(t));
}

/// Backpropagation stops at the error of the output layer where the target
/// is anything but a column with one entry for each class.
pub proof fn lemma_wrong_target_stops(sizes: Seq<usize>, target: Shape, input: Shape)
    requires
        valid_sizes(sizes),
        sizes.len() <= usize::MAX,
        input == activation_shape_of(sizes, 0),
        target != activation_shape_of(sizes, sizes.len() - 1),
    ensures
        run(at_start(sizes, target, input), backpropagation_plan(transitions_of(sizes))) is None,
{
    let start = at_start(sizes, target, input);
    let t = transitions_of(sizes);
    let last = (t - 1) as usize;
    lemma_forward_run(start, sizes, t);
    let reached = run(start, forward_plan(t))->0;
    lemma_backward_plan_begins(t, 0);
    let back = backward_plan(t, 0);
    lemma_run_push(start, forward_plan(t), Step::OutputError(last));
    assert(shape_in(reached, Tensor::Activation(after(last))) == Some(
        activation_shape_of(sizes, t),
    ));
    assert(shape_in(reached, Tensor::Target) == Some(target));
    assert(outcome(reached, Step::OutputError(last)) is None);
    lemma_run_stopped(
        start,
        forward_plan(t).push(Step::OutputError(last)),
        back.subrange(1, back.len() as int),
    );
    assert(forward_plan(t).push(Step::OutputError(last)) + back.subrange(1, back.len() as int)
        =~= backpropagation_plan(t));
}

impl Network {
    /// The kernels of a forward pass on an input of this shape, layer by
    /// layer from the input to the output. An input of another shape than a
    /// column of the input layer's size is refused.
    pub fn feed_forward(&self, input: Shape) -> (planned: Result<Vec<Step>, NetworkError>)
        ensures
            match planned {
                Ok(plan) => {
                    &&& input == activation_shape_of(self@, 0)
                    &&& plan@ == forward_plan(transitions_of(self@))
                    &&& run(at_input(self@, input), plan@) is Some
                    &&& shape_in(
                        run(at_input(self@, input), plan@)->0,
                        Tensor::Activation(transitions_of(self@) as usize),
                    ) == Some(activation_shape_of(self@, self@.len() - 1))
                },
                Err(e) => {
                    &&& input != activation_shape_of(self@, 0)
                    &&& e == (NetworkError::ShapeMismatch {
                        expected: activation_shape_of(self@, 0),
                        found: input,
                    })
                    &&& run(at_input(self@, input), forward_plan(transitions_of(self@))) is None
                },
            },
    {
        let transitions = self.transitions();
        match self.check_input(input) {
            Ok(()) => {},
            Err(e) => {
                proof {
                    lemma_wrong_input_stops(self@, input, input);
                }
                return Err(e);
            },
        }
        let mut plan: Vec<Step> = Vec::new();
        let mut i: usize = 0;
        while i < transitions
            invariant
                i <= transitions,
                plan@ == forward_plan(i as int),
            decreases transitions - i,
        {
            plan.push(Step::Forward(i));
            i += 1;
            assert(plan@ =~= forward_plan(i as int));
        }
        proof {
            lemma_forward_pass_fits(self@, input);
        }
        Ok(plan)
    }

    /// The kernels of backpropagation on one training example: the forward
    /// pass that keeps every weighted input and activation, the error of the
    /// output layer with its two gradients, then error and gradients of each
    /// earlier transition, from the last but one down to the first. The
    /// shape of the input is checked before that of the target.
    pub fn backpropagation(&self, target: Shape, input: Shape) -> (planned: Result<
        Vec<Step>,
        NetworkError,
    >)
        ensures
            match planned {
                Ok(plan) => {
                    &&& example_fits(self@, target, input)
                    &&& plan@ == backpropagation_plan(transitions_of(self@))
                    &&& run(at_start(self@, target, input), plan@) is Some
                    &&& gradients_match_parameters(
                        run(at_start(self@, target, input), plan@)->0,
                        self@,
                    )
                },
                Err(e) => {
                    &&& !example_fits(self@, target, input)
                    &&& e == misfit_of(self@, target, input)
                    &&& run(
                        at_start(self@, target, input),
                        backpropagation_plan(transitions_of(self@)),
                    ) is None
                },
            },
    {
        let transitions = self.transitions();
        let mut plan = match self.feed_forward(input) {
            Ok(plan) => plan,
            Err(e) => {
                proof {
                    lemma_wrong_input_stops(self@, target, input);
                }
                return Err(e);
            },
        };
        match self.check_target(target) {
            Ok(()) => {},
            Err(e) => {
                proof {
                    lemma_wrong_target_stops(self@, target, input);
                }
                return Err(e);
            },
        }
        let mut i: usize = transitions;
        while i > 0
            invariant
                i <= transitions,
                plan@ == forward_plan(transitions as int) + backward_plan(
                    transitions as int,
                    i as int,
                ),
            decreases i,
        {
            i -= 1;
            if i + 1 == transitions {
                plan.push(Step::OutputError(i));
            } else {
                plan.push(Step::HiddenError(i));
            }
            plan.push(Step::BiasGradient(i));
            plan.push(Step::WeightGradient(i));
            assert(plan@ =~= forward_plan(transitions as int) + (backward_plan(
                transitions as int,
                i + 1,
            ) + layer_gradients(transitions as int, i as int)));
        }
        proof {
            lemma_gradients_match_parameters(self@, target, input);
        }
        Ok(plan)
    }
}

} // verus!
