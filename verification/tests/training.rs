use ndarray_rand::rand::rngs::StdRng;
use ndarray_rand::rand::SeedableRng;
use neural_net::batch::{mini_batches, rising_order};
use neural_net::error::NetworkError;
use neural_net::network::Network;
use neural_net::shape::Shape;
use neural_net::training::Update;

fn network() -> Network {
    Network::new(vec![3, 4, 2]).unwrap()
}

fn examples(len: usize) -> Vec<(Shape, Shape)> {
    vec![(Shape::column(2), Shape::column(3)); len]
}

fn learned(plan: &Vec<Update>) -> Vec<usize> {
    let mut positions = Vec::new();
    for step in plan {
        if let Update::Learn(position) = step {
            positions.push(*position);
        }
    }
    positions
}

fn visited(epoch: &Vec<Vec<Update>>) -> Vec<usize> {
    let mut all = Vec::new();
    for plan in epoch {
        assert_eq!(plan[0], Update::Clear);
        assert_eq!(plan[plan.len() - 1], Update::Descend(plan.len() - 2));
        assert_eq!(learned(plan).len(), plan.len() - 2);
        assert!(plan.len() > 2);
        all.extend(learned(plan));
    }
    all
}

fn flatten(batches: &Vec<Vec<usize>>) -> Vec<usize> {
    let mut all = Vec::new();
    for batch in batches {
        for position in batch {
            all.push(*position);
        }
    }
    all
}

#[test]
fn rising_order_counts_from_zero() {
    assert_eq!(rising_order(0), Vec::<usize>::new());
    assert_eq!(rising_order(1), vec![0]);
    assert_eq!(rising_order(5), vec![0, 1, 2, 3, 4]);
}

#[test]
fn mini_batches_cut_evenly() {
    let order = vec![4, 2, 0, 5, 1, 3];
    assert_eq!(
        mini_batches(&order, 2),
        Ok(vec![vec![4, 2], vec![0, 5], vec![1, 3]])
    );
    assert_eq!(mini_batches(&order, 3), Ok(vec![vec![4, 2, 0], vec![5, 1, 3]]));
    assert_eq!(
        mini_batches(&order, 1),
        Ok(vec![vec![4], vec![2], vec![0], vec![5], vec![1], vec![3]])
    );
}

#[test]
fn last_mini_batch_may_be_shorter() {
    let order = vec![6, 5, 4, 3, 2, 1, 0];
    assert_eq!(
        mini_batches(&order, 3),
        Ok(vec![vec![6, 5, 4], vec![3, 2, 1], vec![0]])
    );
    assert_eq!(mini_batches(&order, 4), Ok(vec![vec![6, 5, 4, 3], vec![2, 1, 0]]));
    assert_eq!(mini_batches(&order, 6), Ok(vec![vec![6, 5, 4, 3, 2, 1], vec![0]]));
}

#[test]
fn mini_batch_size_larger_than_training_set_gives_one_batch() {
    let order = vec![2, 0, 1];
    assert_eq!(mini_batches(&order, 3), Ok(vec![vec![2, 0, 1]]));
    assert_eq!(mini_batches(&order, 4), Ok(vec![vec![2, 0, 1]]));
    assert_eq!(mini_batches(&order, 1000), Ok(vec![vec![2, 0, 1]]));
    assert_eq!(mini_batches(&order, usize::MAX), Ok(vec![vec![2, 0, 1]]));
}

#[test]
fn empty_training_set_has_no_mini_batch() {
    assert_eq!(mini_batches(&vec![], 1), Ok(vec![]));
    assert_eq!(mini_batches(&vec![], 10), Ok(vec![]));
}

#[test]
fn mini_batch_size_zero_is_refused() {
    assert_eq!(mini_batches(&vec![0, 1, 2], 0), Err(NetworkError::EmptyBatch));
    assert_eq!(mini_batches(&vec![], 0), Err(NetworkError::EmptyBatch));
}

#[test]
fn mini_batches_join_to_the_order() {
    let order: Vec<usize> = (0..103).rev().collect();
    for size in 1..120 {
        let batches = mini_batches(&order, size).unwrap();
        assert_eq!(batches.len(), (order.len() + size - 1) / size);
        assert_eq!(flatten(&batches), order);
        for (k, batch) in batches.iter().enumerate() {
            assert!(!batch.is_empty());
            if k + 1 < batches.len() {
                assert_eq!(batch.len(), size);
            } else {
                assert_eq!(batch.len(), order.len() - k * size);
            }
        }
    }
}

#[test]
fn update_learns_every_example_and_descends_once() {
    let net = network();
    assert_eq!(
        net.update_mini_batch(&examples(10), &vec![7, 3, 5]),
        Ok(vec![
            Update::Clear,
            Update::Learn(7),
            Update::Learn(3),
            Update::Learn(5),
            Update::Descend(3),
        ])
    );
    assert_eq!(
        net.update_mini_batch(&examples(1), &vec![0]),
        Ok(vec![Update::Clear, Update::Learn(0), Update::Descend(1)])
    );
}

#[test]
fn update_learns_an_example_as_often_as_the_batch_names_it() {
    let net = network();
    assert_eq!(
        net.update_mini_batch(&examples(2), &vec![1, 1]),
        Ok(vec![Update::Clear, Update::Learn(1), Update::Learn(1), Update::Descend(2)])
    );
}

#[test]
fn update_divides_by_the_length_of_a_short_last_batch() {
    let net = network();
    let order = rising_order(7);
    let batches = mini_batches(&order, 3).unwrap();
    let plans: Vec<Vec<Update>> =
        batches.iter().map(|b| net.update_mini_batch(&examples(7), b).unwrap()).collect();
    assert_eq!(plans[0].last(), Some(&Update::Descend(3)));
    assert_eq!(plans[1].last(), Some(&Update::Descend(3)));
    assert_eq!(plans[2], vec![Update::Clear, Update::Learn(6), Update::Descend(1)]);
}

#[test]
fn update_refuses_an_empty_batch() {
    let net = network();
    assert_eq!(net.update_mini_batch(&examples(10), &vec![]), Err(NetworkError::EmptyBatch));
    assert_eq!(net.update_mini_batch(&examples(0), &vec![]), Err(NetworkError::EmptyBatch));
}

#[test]
fn update_refuses_an_unknown_example() {
    let net = network();
    assert_eq!(
        net.update_mini_batch(&examples(10), &vec![1, 10, 3]),
        Err(NetworkError::UnknownExample(10))
    );
    assert_eq!(
        net.update_mini_batch(&examples(10), &vec![12, 11]),
        Err(NetworkError::UnknownExample(12))
    );
    assert_eq!(
        net.update_mini_batch(&examples(0), &vec![0]),
        Err(NetworkError::UnknownExample(0))
    );
}

#[test]
fn update_refuses_an_example_that_does_not_fit() {
    let net = network();
    let mut training = examples(5);
    training[2] = (Shape::column(2), Shape::column(4));
    training[3] = (Shape::column(3), Shape::column(3));
    training[4] = (Shape::column(7), Shape { rows: 3, cols: 2 });
    assert!(net.update_mini_batch(&training, &vec![0, 1]).is_ok());
    assert_eq!(
        net.update_mini_batch(&training, &vec![0, 2, 3]),
        Err(NetworkError::ShapeMismatch { expected: Shape::column(3), found: Shape::column(4) })
    );
    assert_eq!(
        net.update_mini_batch(&training, &vec![3, 2]),
        Err(NetworkError::ShapeMismatch { expected: Shape::column(2), found: Shape::column(3) })
    );
    assert_eq!(
        net.update_mini_batch(&training, &vec![4]),
        Err(NetworkError::ShapeMismatch {
            expected: Shape::column(3),
            found: Shape { rows: 3, cols: 2 },
        })
    );
    assert_eq!(
        net.update_mini_batch(&training, &vec![1, 9, 2]),
        Err(NetworkError::UnknownExample(9))
    );
    assert_eq!(
        net.update_mini_batch(&training, &vec![1, 3, 9]),
        Err(NetworkError::ShapeMismatch { expected: Shape::column(2), found: Shape::column(3) })
    );
}

#[test]
fn descent_has_an_epoch_for_each_round() {
    let mut rng = StdRng::seed_from_u64(7);
    let schedule = network().stochastic_gradient_descent(&examples(10), 4, 3, &mut rng).unwrap();
    assert_eq!(schedule.len(), 4);
    for epoch in &schedule {
        assert_eq!(epoch.len(), 4);
        assert_eq!(learned(&epoch[0]).len(), 3);
        assert_eq!(learned(&epoch[1]).len(), 3);
        assert_eq!(learned(&epoch[2]).len(), 3);
        assert_eq!(learned(&epoch[3]).len(), 1);
        assert_eq!(epoch[0][4], Update::Descend(3));
        assert_eq!(epoch[3][2], Update::Descend(1));
        let mut seen = visited(epoch);
        seen.sort();
        assert_eq!(seen, rising_order(10));
    }
}

#[test]
fn descent_without_epochs_plans_nothing() {
    let mut rng = StdRng::seed_from_u64(7);
    assert_eq!(network().stochastic_gradient_descent(&examples(10), 0, 3, &mut rng), Ok(vec![]));
}

#[test]
fn descent_without_examples_has_empty_epochs() {
    let mut rng = StdRng::seed_from_u64(7);
    assert_eq!(
        network().stochastic_gradient_descent(&examples(0), 3, 5, &mut rng),
        Ok(vec![vec![], vec![], vec![]])
    );
}

#[test]
fn descent_refuses_a_mini_batch_size_of_zero() {
    let mut rng = StdRng::seed_from_u64(7);
    assert_eq!(
        network().stochastic_gradient_descent(&examples(10), 4, 0, &mut rng),
        Err(NetworkError::EmptyBatch)
    );
    assert_eq!(
        network().stochastic_gradient_descent(&examples(0), 0, 0, &mut rng),
        Err(NetworkError::EmptyBatch)
    );
}

#[test]
fn descent_refuses_a_training_set_that_does_not_fit() {
    let mut rng = StdRng::seed_from_u64(7);
    let mut training = examples(10);
    training[6] = (Shape::column(5), Shape::column(3));
    training[8] = (Shape::column(2), Shape::column(1));
    assert_eq!(
        network().stochastic_gradient_descent(&training, 4, 3, &mut rng),
        Err(NetworkError::ShapeMismatch { expected: Shape::column(2), found: Shape::column(5) })
    );
    training[6] = (Shape::column(2), Shape::column(3));
    assert_eq!(
        network().stochastic_gradient_descent(&training, 4, 3, &mut rng),
        Err(NetworkError::ShapeMismatch { expected: Shape::column(3), found: Shape::column(1) })
    );
    assert_eq!(
        network().stochastic_gradient_descent(&training, 4, 0, &mut rng),
        Err(NetworkError::EmptyBatch)
    );
}

#[test]
fn descent_with_a_large_mini_batch_has_one_batch_in_each_epoch() {
    let mut rng = StdRng::seed_from_u64(11);
    let schedule = network().stochastic_gradient_descent(&examples(6), 5, 100, &mut rng).unwrap();
    assert_eq!(schedule.len(), 5);
    for epoch in &schedule {
        assert_eq!(epoch.len(), 1);
        assert_eq!(epoch[0].len(), 8);
        assert_eq!(epoch[0][7], Update::Descend(6));
        let mut seen = learned(&epoch[0]);
        seen.sort();
        assert_eq!(seen, vec![0, 1, 2, 3, 4, 5]);
    }
}

#[test]
fn descent_shuffles() {
    let mut rng = StdRng::seed_from_u64(3);
    let schedule = network().stochastic_gradient_descent(&examples(200), 3, 200, &mut rng).unwrap();
    let rising = rising_order(200);
    for epoch in &schedule {
        assert_ne!(learned(&epoch[0]), rising);
    }
    assert_ne!(schedule[0], schedule[1]);
    assert_ne!(schedule[1], schedule[2]);
}

#[test]
fn same_seed_gives_the_same_mini_batches() {
    let mut first = StdRng::seed_from_u64(42);
    let mut second = StdRng::seed_from_u64(42);
    let a = network().stochastic_gradient_descent(&examples(97), 12, 10, &mut first).unwrap();
    let b = network().stochastic_gradient_descent(&examples(97), 12, 10, &mut second).unwrap();
    assert_eq!(a, b);
}

#[test]
fn other_seed_gives_other_mini_batches() {
    let mut first = StdRng::seed_from_u64(42);
    let mut second = StdRng::seed_from_u64(43);
    let a = network().stochastic_gradient_descent(&examples(97), 12, 10, &mut first).unwrap();
    let b = network().stochastic_gradient_descent(&examples(97), 12, 10, &mut second).unwrap();
    assert_ne!(a, b);
}
