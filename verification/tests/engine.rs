use ndarray::Array2;
use ndarray_rand::rand::rngs::StdRng;
use ndarray_rand::rand::SeedableRng;
use ndarray_rand::rand_distr::Normal;
use ndarray_rand::RandomExt;
use neural_net::error::NetworkError;
use neural_net::network::Network;
use neural_net::plan::Step;
use neural_net::scoring::predicted_class;
use neural_net::shape::Shape;
use neural_net::training::Update;

type Example = (Array2<f64>, Array2<f64>);

struct Engine {
    layout: Network,
    weights: Vec<Array2<f64>>,
    biases: Vec<Array2<f64>>,
}

fn sigmoid(z: f64) -> f64 {
    1.0 / (1.0 + (-z).exp())
}

fn sigmoid_prime(z: f64) -> f64 {
    sigmoid(z) * (1.0 - sigmoid(z))
}

fn shape_of(tensor: &Array2<f64>) -> Shape {
    Shape { rows: tensor.nrows(), cols: tensor.ncols() }
}

fn shapes_of(training: &[Example]) -> Vec<(Shape, Shape)> {
    training.iter().map(|(target, input)| (shape_of(target), shape_of(input))).collect()
}

fn column(entries: &[f64]) -> Array2<f64> {
    Array2::from_shape_vec((entries.len(), 1), entries.to_vec()).unwrap()
}

impl Engine {
    fn new(sizes: Vec<usize>, seed: u64) -> Result<Engine, NetworkError> {
        let layout = Network::new(sizes)?;
        let mut rng = StdRng::seed_from_u64(seed);
        let normal = Normal::new(0.0, 1.0).unwrap();
        let biases = layout
            .bias_shapes()
            .iter()
            .map(|s| Array2::random_using((s.rows, s.cols), normal, &mut rng))
            .collect();
        let weights = layout
            .weight_shapes()
            .iter()
            .map(|s| Array2::random_using((s.rows, s.cols), normal, &mut rng))
            .collect();
        Ok(Engine { layout, weights, biases })
    }

    fn feed_forward(&self, input: &Array2<f64>) -> Result<Array2<f64>, NetworkError> {
        let plan = self.layout.feed_forward(shape_of(input))?;
        let mut activation = input.clone();
        for step in plan {
            match step {
                Step::Forward(i) => {
                    activation =
                        (self.weights[i].dot(&activation) + &self.biases[i]).mapv(sigmoid);
                }
                _ => unreachable!(),
            }
        }
        Ok(activation)
    }

    fn backpropagation(
        &self,
        example: &Example,
    ) -> Result<(Vec<Array2<f64>>, Vec<Array2<f64>>), NetworkError> {
        let (target, input) = example;
        let plan = self.layout.backpropagation(shape_of(target), shape_of(input))?;
        let transitions = self.layout.transitions();
        let mut activations: Vec<Array2<f64>> = vec![input.clone()];
        let mut weighted: Vec<Array2<f64>> = Vec::new();
        let mut deltas: Vec<Option<Array2<f64>>> = vec![None; transitions];
        let mut nabla_b: Vec<Option<Array2<f64>>> = vec![None; transitions];
        let mut nabla_w: Vec<Option<Array2<f64>>> = vec![None; transitions];
        for step in plan {
            match step {
                Step::Forward(i) => {
                    let z = self.weights[i].dot(&activations[i]) + &self.biases[i];
                    activations.push(z.mapv(sigmoid));
                    weighted.push(z);
                }
                Step::OutputError(i) => {
                    deltas[i] =
                        Some((&activations[i + 1] - target) * weighted[i].mapv(sigmoid_prime));
                }
                Step::HiddenError(i) => {
                    let next = deltas[i + 1].as_ref().unwrap();
                    deltas[i] =
                        Some(self.weights[i + 1].t().dot(next) * weighted[i].mapv(sigmoid_prime));
                }
                Step::BiasGradient(i) => {
                    nabla_b[i] = Some(deltas[i].as_ref().unwrap().clone());
                }
                Step::WeightGradient(i) => {
                    nabla_w[i] = Some(deltas[i].as_ref().unwrap().dot(&activations[i].t()));
                }
            }
        }
        Ok((
            nabla_b.into_iter().map(|g| g.unwrap()).collect(),
            nabla_w.into_iter().map(|g| g.unwrap()).collect(),
        ))
    }

    fn update_mini_batch(
        &mut self,
        training: &[Example],
        batch: &Vec<usize>,
        learning_rate: f64,
    ) -> Result<(), NetworkError> {
        let shapes = shapes_of(training);
        let plan = self.layout.update_mini_batch(&shapes, batch)?;
        self.run(training, &plan, learning_rate);
        Ok(())
    }

    fn run(&mut self, training: &[Example], plan: &Vec<Update>, learning_rate: f64) {
        let mut total_b: Vec<Array2<f64>> = Vec::new();
        let mut total_w: Vec<Array2<f64>> = Vec::new();
        for step in plan {
            match step {
                Update::Clear => {
                    total_b = self.biases.iter().map(|b| Array2::zeros(b.raw_dim())).collect();
                    total_w = self.weights.iter().map(|w| Array2::zeros(w.raw_dim())).collect();
                }
                Update::Learn(position) => {
                    let (nabla_b, nabla_w) = self.backpropagation(&training[*position]).unwrap();
                    for i in 0..total_b.len() {
                        total_b[i] = &total_b[i] + &nabla_b[i];
                        total_w[i] = &total_w[i] + &nabla_w[i];
                    }
                }
                Update::Descend(examples) => {
                    let rate = learning_rate / *examples as f64;
                    for i in 0..total_b.len() {
                        self.biases[i] = &self.biases[i] - &(rate * &total_b[i]);
                        self.weights[i] = &self.weights[i] - &(rate * &total_w[i]);
                    }
                }
            }
        }
    }

    fn evaluate(&self, test: &[(u8, Array2<f64>)]) -> Result<usize, NetworkError> {
        let mut outputs = Vec::new();
        let mut labels = Vec::new();
        for (label, input) in test {
            let output = self.feed_forward(input)?;
            outputs.push(output.iter().map(|c| c.to_bits()).collect());
            labels.push(*label);
        }
        self.layout.evaluate(&outputs, &labels)
    }

    fn cost(&self, example: &Example) -> f64 {
        let output = self.feed_forward(&example.1).unwrap();
        (&output - &example.0).mapv(|d| d * d).sum() / 2.0
    }
}

#[test]
fn new_engine_has_parameters_of_the_right_shapes() {
    let sizes = vec![7, 5, 3, 4];
    let engine = Engine::new(sizes.clone(), 1).unwrap();
    assert_eq!(engine.weights.len(), 3);
    assert_eq!(engine.biases.len(), 3);
    for i in 0..3 {
        assert_eq!(engine.weights[i].dim(), (sizes[i + 1], sizes[i]));
        assert_eq!(engine.biases[i].dim(), (sizes[i + 1], 1));
    }
}

#[test]
fn new_engine_refuses_bad_sizes() {
    assert!(matches!(Engine::new(vec![3], 1), Err(NetworkError::TooFewLayers)));
    assert!(matches!(Engine::new(vec![3, 0, 2], 1), Err(NetworkError::EmptyLayer(1))));
}

#[test]
fn feed_forward_output_lies_between_zero_and_one() {
    for seed in 0..20 {
        let engine = Engine::new(vec![6, 5, 4, 3], seed).unwrap();
        let mut rng = StdRng::seed_from_u64(seed + 100);
        let input = Array2::random_using((6, 1), Normal::new(0.0, 1.0).unwrap(), &mut rng);
        let output = engine.feed_forward(&input).unwrap();
        assert_eq!(output.dim(), (3, 1));
        for component in output.iter() {
            assert!(0.0 < *component && *component < 1.0);
        }
    }
}

#[test]
fn feed_forward_of_known_parameters() {
    let mut engine = Engine::new(vec![2, 1], 0).unwrap();
    engine.weights[0] = Array2::from_shape_vec((1, 2), vec![1.0, -1.0]).unwrap();
    engine.biases[0] = column(&[0.0]);
    let output = engine.feed_forward(&column(&[0.25, 0.25])).unwrap();
    assert_eq!(output[(0, 0)], 0.5);
    engine.biases[0] = column(&[2.0]);
    let output = engine.feed_forward(&column(&[1.0, 3.0])).unwrap();
    assert_eq!(output[(0, 0)], 0.5);
    let output = engine.feed_forward(&column(&[3.0, 1.0])).unwrap();
    assert!((output[(0, 0)] - 1.0 / (1.0 + (-4.0f64).exp())).abs() < 1e-15);
}

#[test]
fn feed_forward_refuses_a_misshapen_input() {
    let engine = Engine::new(vec![2, 3, 2], 0).unwrap();
    let found = Shape { rows: 3, cols: 1 };
    assert_eq!(
        engine.feed_forward(&column(&[0.1, 0.2, 0.3])).unwrap_err(),
        NetworkError::ShapeMismatch { expected: Shape { rows: 2, cols: 1 }, found }
    );
    let wide = Array2::zeros((2, 2));
    assert!(engine.feed_forward(&wide).is_err());
}

#[test]
fn gradients_have_the_shapes_of_the_parameters() {
    for seed in 0..5 {
        let sizes = vec![4, 6, 5, 3];
        let engine = Engine::new(sizes, seed).unwrap();
        let example = (column(&[0.0, 1.0, 0.0]), column(&[0.1, 0.9, 0.4, 0.0]));
        let (nabla_b, nabla_w) = engine.backpropagation(&example).unwrap();
        assert_eq!(nabla_b.len(), engine.biases.len());
        assert_eq!(nabla_w.len(), engine.weights.len());
        for i in 0..nabla_b.len() {
            assert_eq!(nabla_b[i].dim(), engine.biases[i].dim());
            assert_eq!(nabla_w[i].dim(), engine.weights[i].dim());
        }
    }
}

#[test]
fn backpropagation_refuses_a_misshapen_example() {
    let engine = Engine::new(vec![2, 3, 2], 0).unwrap();
    let example = (column(&[1.0]), column(&[0.5, 0.5]));
    assert_eq!(
        engine.backpropagation(&example).unwrap_err(),
        NetworkError::ShapeMismatch {
            expected: Shape { rows: 2, cols: 1 },
            found: Shape { rows: 1, cols: 1 },
        }
    );
}

#[test]
fn gradients_agree_with_finite_differences() {
    let mut engine = Engine::new(vec![2, 3, 2], 17).unwrap();
    let example = (column(&[0.0, 1.0]), column(&[0.3, 0.8]));
    let (nabla_b, nabla_w) = engine.backpropagation(&example).unwrap();
    let h = 1e-5;
    for layer in 0..2 {
        let (rows, cols) = engine.weights[layer].dim();
        for r in 0..rows {
            for c in 0..cols {
                let kept = engine.weights[layer][(r, c)];
                engine.weights[layer][(r, c)] = kept + h;
                let above = engine.cost(&example);
                engine.weights[layer][(r, c)] = kept - h;
                let below = engine.cost(&example);
                engine.weights[layer][(r, c)] = kept;
                let slope = (above - below) / (2.0 * h);
                assert!((slope - nabla_w[layer][(r, c)]).abs() < 1e-4);
                assert!((slope - nabla_w[layer][(r, c)]).abs() < 1e-8);
            }
            let kept = engine.biases[layer][(r, 0)];
            engine.biases[layer][(r, 0)] = kept + h;
            let above = engine.cost(&example);
            engine.biases[layer][(r, 0)] = kept - h;
            let below = engine.cost(&example);
            engine.biases[layer][(r, 0)] = kept;
            let slope = (above - below) / (2.0 * h);
            assert!((slope - nabla_b[layer][(r, 0)]).abs() < 1e-4);
            assert!((slope - nabla_b[layer][(r, 0)]).abs() < 1e-8);
        }
    }
}

#[test]
fn gradients_of_a_deep_network_agree_with_finite_differences() {
    let mut engine = Engine::new(vec![3, 4, 3, 2, 2], 23).unwrap();
    let example = (column(&[1.0, 0.0]), column(&[0.3, 0.8, 0.1]));
    let (_, nabla_w) = engine.backpropagation(&example).unwrap();
    let h = 1e-5;
    for layer in 0..4 {
        let (rows, cols) = engine.weights[layer].dim();
        for r in 0..rows {
            for c in 0..cols {
                let kept = engine.weights[layer][(r, c)];
                engine.weights[layer][(r, c)] = kept + h;
                let above = engine.cost(&example);
                engine.weights[layer][(r, c)] = kept - h;
                let below = engine.cost(&example);
                engine.weights[layer][(r, c)] = kept;
                let slope = (above - below) / (2.0 * h);
                assert!((slope - nabla_w[layer][(r, c)]).abs() < 1e-8);
            }
        }
    }
}

#[test]
fn a_small_step_lowers_the_cost() {
    for seed in 0..10 {
        let mut engine = Engine::new(vec![3, 4, 2], seed).unwrap();
        let training = vec![(column(&[1.0, 0.0]), column(&[0.2, 0.7, 0.5]))];
        let before = engine.cost(&training[0]);
        engine.update_mini_batch(&training, &vec![0], 0.01).unwrap();
        let after = engine.cost(&training[0]);
        assert!(after < before);
    }
}

#[test]
fn update_moves_the_output_towards_the_target() {
    let mut engine = Engine::new(vec![2, 2, 1], 5).unwrap();
    let input = column(&[0.5, 0.5]);
    let training = vec![(column(&[1.0]), input.clone())];
    let before = engine.feed_forward(&input).unwrap();
    assert_eq!(before.dim(), (1, 1));
    assert!(0.0 < before[(0, 0)] && before[(0, 0)] < 1.0);
    engine.update_mini_batch(&training, &vec![0], 1.0).unwrap();
    let after = engine.feed_forward(&input).unwrap();
    assert_ne!(after[(0, 0)], before[(0, 0)]);
    assert!((1.0 - after[(0, 0)]).abs() < (1.0 - before[(0, 0)]).abs());
    assert!(0.0 < after[(0, 0)] && after[(0, 0)] < 1.0);
}

#[test]
fn update_averages_over_the_batch() {
    let mut once = Engine::new(vec![2, 3, 2], 9).unwrap();
    let mut twice = Engine::new(vec![2, 3, 2], 9).unwrap();
    let training = vec![(column(&[0.0, 1.0]), column(&[0.4, 0.6]))];
    once.update_mini_batch(&training, &vec![0], 0.5).unwrap();
    twice.update_mini_batch(&training, &vec![0, 0], 0.5).unwrap();
    for i in 0..2 {
        for (a, b) in once.weights[i].iter().zip(twice.weights[i].iter()) {
            assert!((a - b).abs() < 1e-12);
        }
        for (a, b) in once.biases[i].iter().zip(twice.biases[i].iter()) {
            assert!((a - b).abs() < 1e-12);
        }
    }
}

#[test]
fn update_takes_the_step_that_the_gradient_gives() {
    let mut engine = Engine::new(vec![2, 3, 2], 4).unwrap();
    let training = vec![
        (column(&[0.0, 1.0]), column(&[0.4, 0.6])),
        (column(&[1.0, 0.0]), column(&[0.9, 0.1])),
    ];
    let (b0, w0) = engine.backpropagation(&training[0]).unwrap();
    let (b1, w1) = engine.backpropagation(&training[1]).unwrap();
    let weights = engine.weights.clone();
    let biases = engine.biases.clone();
    engine.update_mini_batch(&training, &vec![1, 0], 3.0).unwrap();
    for i in 0..2 {
        let expected_w = &weights[i] - &(1.5 * (&w0[i] + &w1[i]));
        let expected_b = &biases[i] - &(1.5 * (&b0[i] + &b1[i]));
        for (a, b) in engine.weights[i].iter().zip(expected_w.iter()) {
            assert!((a - b).abs() < 1e-12);
        }
        for (a, b) in engine.biases[i].iter().zip(expected_b.iter()) {
            assert!((a - b).abs() < 1e-12);
        }
    }
}

#[test]
fn update_refuses_an_empty_batch_and_leaves_the_parameters() {
    let mut engine = Engine::new(vec![2, 3, 2], 4).unwrap();
    let training = vec![(column(&[0.0, 1.0]), column(&[0.4, 0.6]))];
    let weights = engine.weights.clone();
    assert_eq!(
        engine.update_mini_batch(&training, &vec![], 1.0),
        Err(NetworkError::EmptyBatch)
    );
    assert_eq!(engine.weights, weights);
}

#[test]
fn update_refuses_a_misshapen_example_and_leaves_the_parameters() {
    let mut engine = Engine::new(vec![2, 3, 2], 4).unwrap();
    let training = vec![
        (column(&[0.0, 1.0]), column(&[0.4, 0.6])),
        (column(&[0.0, 1.0]), column(&[0.4, 0.6, 0.1])),
    ];
    let weights = engine.weights.clone();
    let biases = engine.biases.clone();
    assert_eq!(
        engine.update_mini_batch(&training, &vec![0, 1], 1.0),
        Err(NetworkError::ShapeMismatch {
            expected: Shape { rows: 2, cols: 1 },
            found: Shape { rows: 3, cols: 1 },
        })
    );
    assert_eq!(engine.weights, weights);
    assert_eq!(engine.biases, biases);
}

#[test]
fn evaluate_counts_and_repeats() {
    let mut engine = Engine::new(vec![2, 2], 0).unwrap();
    engine.weights[0] = Array2::from_shape_vec((2, 2), vec![1.0, 0.0, 0.0, 1.0]).unwrap();
    engine.biases[0] = column(&[0.0, 0.0]);
    let test = vec![
        (0u8, column(&[0.9, 0.1])),
        (1u8, column(&[0.2, 0.3])),
        (1u8, column(&[0.8, 0.3])),
        (0u8, column(&[0.5, 0.5])),
        (1u8, column(&[0.5, 0.5])),
    ];
    let first = engine.evaluate(&test).unwrap();
    assert_eq!(first, 3);
    assert_eq!(engine.evaluate(&test).unwrap(), first);
    assert!(first <= test.len());
    let output = engine.feed_forward(&test[3].1).unwrap();
    let scores: Vec<u64> = output.iter().map(|c| c.to_bits()).collect();
    assert_eq!(predicted_class(&scores), Some(0));
}

#[test]
fn training_learns_to_tell_two_classes_apart() {
    let mut engine = Engine::new(vec![2, 4, 2], 12).unwrap();
    let mut training: Vec<Example> = Vec::new();
    let mut test: Vec<(u8, Array2<f64>)> = Vec::new();
    for i in 0..40 {
        let low = 0.05 + 0.01 * (i % 10) as f64;
        let high = 0.95 - 0.01 * (i % 7) as f64;
        if i % 2 == 0 {
            training.push((column(&[1.0, 0.0]), column(&[low, high])));
            test.push((0, column(&[low + 0.02, high - 0.02])));
        } else {
            training.push((column(&[0.0, 1.0]), column(&[high, low])));
            test.push((1, column(&[high - 0.02, low + 0.02])));
        }
    }
    let mut rng = StdRng::seed_from_u64(99);
    let schedule = engine
        .layout
        .stochastic_gradient_descent(&shapes_of(&training), 60, 8, &mut rng)
        .unwrap();
    assert_eq!(schedule.len(), 60);
    for epoch in &schedule {
        assert_eq!(epoch.len(), 5);
        for plan in epoch {
            engine.run(&training, plan, 3.0);
        }
    }
    assert_eq!(engine.evaluate(&test).unwrap(), test.len());
}
