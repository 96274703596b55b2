//! The layer sizes of a network and the shapes that follow from them.

use vstd::prelude::*;
use crate::error::NetworkError;
use crate::shape::Shape;

verus! {

/// Layer sizes that a network can be built from: at least two layers, and
/// no layer without units.
pub open spec fn valid_sizes(sizes: Seq<usize>) -> bool {
    &&& sizes.len() >= 2
    &&& forall|i: int| 0 <= i < sizes.len() ==> sizes[i] > 0
}

/// The position of the first empty layer is `at`.
pub open spec fn first_empty_layer(sizes: Seq<usize>, at: int) -> bool {
    &&& 0 <= at < sizes.len()
    &&& sizes[at] == 0
    &&& forall|i: int| 0 <= i < at ==> sizes[i] > 0
}

/// The number of transitions between consecutive layers, which is the
/// number of weight matrices and of bias vectors.
pub open spec fn transitions_of(sizes: Seq<usize>) -> int {
    sizes.len() - 1
}

/// The shape of the weight matrix of transition `i`: one row for each unit of
/// the layer it leads to, one column for each unit of the layer it comes from.
pub open spec fn weight_shape_of(sizes: Seq<usize>, i: int) -> Shape {
    Shape { rows: sizes[i + 1], cols: sizes[i] }
}

/// The shape of the bias vector of transition `i`.
pub open spec fn bias_shape_of(sizes: Seq<usize>, i: int) -> Shape {
    Shape::column_of(sizes[i + 1])
}

/// The shape of the activation of layer `i`; layer 0 is the input.
pub open spec fn activation_shape_of(sizes: Seq<usize>, i: int) -> Shape {
    Shape::column_of(sizes[i])
}

/// A training example, by the shapes of its target and of its input, fits a
/// network with these layer sizes: the input is a column with one entry for
/// each unit of the input layer, the target a column with one entry for each
/// class.
pub open spec fn example_fits(sizes: Seq<usize>, target: Shape, input: Shape) -> bool {
    &&& input == activation_shape_of(sizes, 0)
    &&& target == activation_shape_of(sizes, sizes.len() - 1)
}

/// What is reported of a training example that does not fit: the shape of
/// its input where that is wrong, and else the shape of its target.
pub open spec fn misfit_of(sizes: Seq<usize>, target: Shape, input: Shape) -> NetworkError {
    if input != activation_shape_of(sizes, 0) {
        NetworkError::ShapeMismatch { expected: activation_shape_of(sizes, 0), found: input }
    } else {
        NetworkError::ShapeMismatch {
            expected: activation_shape_of(sizes, sizes.len() - 1),
            found: target,
        }
    }
}

/// A network as far as its layer sizes go, checked once and fixed from then
/// on. Its weights and biases are numbers, which the caller keeps.
#[derive(Debug)]
pub struct Network {
    sizes: Vec<usize>,
}

impl View for Network {
    type V = Seq<usize>;

    closed spec fn view(&self) -> Seq<usize> {
        self.sizes@
    }
}

impl Network {
    #[verifier::type_invariant]
    spec fn well_formed(self) -> bool {
        valid_sizes(self.sizes@)
    }

    /// Checks the layer sizes and keeps them. Too short a sequence is
    /// reported before an empty layer.
    pub fn new(sizes: Vec<usize>) -> (made: Result<Network, NetworkError>)
        ensures
            match made {
                Ok(network) => valid_sizes(sizes@) && network@ == sizes@,
                Err(NetworkError::TooFewLayers) => sizes@.len() < 2,
                Err(NetworkError::EmptyLayer(at)) => sizes@.len() >= 2 && first_empty_layer(
                    sizes@,
                    at as int,
                ),
                Err(_) => false,
            },
    {
        if sizes.len() < 2 {
            return Err(NetworkError::TooFewLayers);
        }
        let mut i: usize = 0;
        while i < sizes.len()
            invariant
                sizes.len() >= 2,
                i <= sizes.len(),
                forall|j: int| 0 <= j < i ==> sizes@[j] > 0,
            decreases sizes.len() - i,
        {
            if sizes[i] == 0 {
                return Err(NetworkError::EmptyLayer(i));
            }
            i += 1;
        }
        Ok(Network { sizes })
    }

    /// The number of layers, input and output included.
    pub fn number_of_layers(&self) -> (n: usize)
        ensures
            n == self@.len(),
            n >= 2,
            valid_sizes(self@),
    {
        proof {
            use_type_invariant(self);
        }
        self.sizes.len()
    }

    /// The number of weight matrices, and of bias vectors.
    pub fn transitions(&self) -> (n: usize)
        ensures
            n == transitions_of(self@),
            n >= 1,
            valid_sizes(self@),
            self@.len() <= usize::MAX,
    {
        proof {
            use_type_invariant(self);
        }
        self.sizes.len() - 1
    }

    /// The layer sizes as they were given.
    pub fn sizes(&self) -> (s: &Vec<usize>)
        ensures
            s@ == self@,
            valid_sizes(self@),
    {
        proof {
            use_type_invariant(self);
        }
        &self.sizes
    }

    /// The number of input features.
    pub fn input_size(&self) -> (n: usize)
        ensures
            n == self@[0],
            n > 0,
    {
        proof {
            use_type_invariant(self);
        }
        self.sizes[0]
    }

    /// The number of classes.
    pub fn output_size(&self) -> (n: usize)
        ensures
            n == self@[self@.len() - 1],
            n > 0,
    {
        proof {
            use_type_invariant(self);
        }
        self.sizes[self.sizes.len() - 1]
    }

    /// The shape of the weight matrix of transition `i`, if there is such a
    /// transition.
    pub fn weight_shape(&self, i: usize) -> (s: Option<Shape>)
        ensures
            s == if i < transitions_of(self@) {
                Some(weight_shape_of(self@, i as int))
            } else {
                None
            },
    {
        proof {
            use_type_invariant(self);
        }
        if i < self.sizes.len() - 1 {
            Some(Shape { rows: self.sizes[i + 1], cols: self.sizes[i] })
        } else {
            None
        }
    }

    /// The shape of the bias vector of transition `i`, if there is such a
    /// transition.
    pub fn bias_shape(&self, i: usize) -> (s: Option<Shape>)
        ensures
            s == if i < transitions_of(self@) {
                Some(bias_shape_of(self@, i as int))
            } else {
                None
            },
    {
        proof {
            use_type_invariant(self);
        }
        if i < self.sizes.len() - 1 {
            Some(Shape::column(self.sizes[i + 1]))
        } else {
            None
        }
    }

    /// The shapes of the weight matrices, one for each transition, in order.
    pub fn weight_shapes(&self) -> (shapes: Vec<Shape>)
        ensures
            shapes@.len() == transitions_of(self@),
            forall|i: int|
                0 <= i < shapes@.len() ==> #[trigger] shapes@[i] == weight_shape_of(self@, i),
    {
        proof {
            use_type_invariant(self);
        }
        let mut shapes: Vec<Shape> = Vec::new();
        let mut i: usize = 0;
        while i + 1 < self.sizes.len()
            invariant
                i + 1 <= self.sizes.len(),
                shapes@.len() == i,
                forall|j: int|
                    0 <= j < shapes@.len() ==> #[trigger] shapes@[j] == weight_shape_of(self@, j),
            decreases self.sizes.len() - i,
        {
            shapes.push(Shape { rows: self.sizes[i + 1], cols: self.sizes[i] });
            i += 1;
        }
        shapes
    }

    /// The shapes of the bias vectors, one for each transition, in order.
    pub fn bias_shapes(&self) -> (shapes: Vec<Shape>)
        ensures
            shapes@.len() == transitions_of(self@),
            forall|i: int|
                0 <= i < shapes@.len() ==> #[trigger] shapes@[i] == bias_shape_of(self@, i),
    {
        proof {
            use_type_invariant(self);
        }
        let mut shapes: Vec<Shape> = Vec::new();
        let mut i: usize = 0;
        while i + 1 < self.sizes.len()
            invariant
                i + 1 <= self.sizes.len(),
                shapes@.len() == i,
                forall|j: int|
                    0 <= j < shapes@.len() ==> #[trigger] shapes@[j] == bias_shape_of(self@, j),
            decreases self.sizes.len() - i,
        {
            shapes.push(Shape::column(self.sizes[i + 1]));
            i += 1;
        }
        shapes
    }

    /// Checks that `input` is a column vector with one entry for each unit of
    /// the input layer.
    pub fn check_input(&self, input: Shape) -> (checked: Result<(), NetworkError>)
        ensures
            checked == if input == activation_shape_of(self@, 0) {
                Ok::<(), NetworkError>(())
            } else {
                Err(
                    (NetworkError::ShapeMismatch {
                        expected: activation_shape_of(self@, 0),
                        found: input,
                    }),
                )
            },
    {
        proof {
            use_type_invariant(self);
        }
        let expected = Shape::column(self.sizes[0]);
        if input.rows == expected.rows && input.cols == expected.cols {
            Ok(())
        } else {
            Err(NetworkError::ShapeMismatch { expected, found: input })
        }
    }

    /// Checks that `target` is a column vector with one entry for each class.
    pub fn check_target(&self, target: Shape) -> (checked: Result<(), NetworkError>)
        ensures
            checked == if target == activation_shape_of(self@, self@.len() - 1) {
                Ok::<(), NetworkError>(())
            } else {
                Err(
                    (NetworkError::ShapeMismatch {
                        expected: activation_shape_of(self@, self@.len() - 1),
                        found: target,
                    }),
                )
            },
    {
        proof {
            use_type_invariant(self);
        }
        let expected = Shape::column(self.sizes[self.sizes.len() - 1]);
        if target.rows == expected.rows && target.cols == expected.cols {
            Ok(())
        } else {
            Err(NetworkError::ShapeMismatch { expected, found: target })
        }
    }

    /// Checks a training example by the shapes of its target and of its
    /// input, the input first.
    pub fn check_example(&self, target: Shape, input: Shape) -> (checked: Result<(), NetworkError>)
        ensures
            checked == if example_fits(self@, target, input) {
                Ok::<(), NetworkError>(())
            } else {
                Err(misfit_of(self@, target, input))
            },
    {
        match self.check_input(input) {
            Ok(()) => self.check_target(target),
            Err(e) => Err(e),
        }
    }
}

/// The parameters of a transition fit each other and the layers on both
/// sides: the weight matrix has as many rows as the bias vector, which is one
/// for each unit of the layer the transition leads to, and as many columns as
/// the layer it comes from has units; so the weighted input of a layer's
/// activation exists, and is a column of the next layer's size.
pub proof fn lemma_parameters_fit(sizes: Seq<usize>, i: int)
    requires
        valid_sizes(sizes),
        0 <= i < transitions_of(sizes),
    ensures
        weight_shape_of(sizes, i).rows == bias_shape_of(sizes, i).rows,
        weight_shape_of(sizes, i).rows == sizes[i + 1],
        weight_shape_of(sizes, i).cols == sizes[i],
        bias_shape_of(sizes, i).cols == 1,
        weight_shape_of(sizes, i).times(activation_shape_of(sizes, i)) == Some(
            bias_shape_of(sizes, i),
        ),
        bias_shape_of(sizes, i) == activation_shape_of(sizes, i + 1),
{
}

} // verus!
