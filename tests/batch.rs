use futures_join_all::batch::{gather, numbered_inputs, Batch, GatherError, RecordError};

#[test]
fn results_follow_input_order_not_completion_order() {
    // Unit 2 finishes first, then unit 1, then unit 3.
    let completions = vec![(1usize, 20u64), (0usize, 10u64), (2usize, 30u64)];
    let results = gather(vec![1, 2, 3], &completions).unwrap();
    assert_eq!(results, vec![(1, 10), (2, 20), (3, 30)]);
    assert_ne!(results, vec![(2, 20), (1, 10), (3, 30)]);
}

#[test]
fn every_completion_order_gives_the_same_results() {
    let orders: Vec<Vec<usize>> = vec![
        vec![0, 1, 2],
        vec![0, 2, 1],
        vec![1, 0, 2],
        vec![1, 2, 0],
        vec![2, 0, 1],
        vec![2, 1, 0],
    ];
    let outcomes = [9u64, 1, 5];
    for order in orders {
        let completions: Vec<(usize, u64)> = order.iter().map(|&k| (k, outcomes[k])).collect();
        let results = gather(vec![1, 2, 3], &completions).unwrap();
        assert_eq!(results, vec![(1, 9), (2, 1), (3, 5)]);
    }
}

#[test]
fn empty_batch_gives_empty_results() {
    let inputs = numbered_inputs(0);
    assert!(inputs.is_empty());
    let results = gather(inputs, &Vec::new()).unwrap();
    assert!(results.is_empty());
}

#[test]
fn result_count_equals_input_count() {
    for n in 0u64..20 {
        let inputs = numbered_inputs(n);
        let completions: Vec<(usize, u64)> = (0..n as usize).rev().map(|k| (k, 1)).collect();
        let results = gather(inputs, &completions).unwrap();
        assert_eq!(results.len(), n as usize);
    }
}

#[test]
fn numbered_inputs_count_from_one() {
    assert_eq!(numbered_inputs(3), vec![1, 2, 3]);
    assert_eq!(numbered_inputs(1), vec![1]);
}

#[test]
fn a_batch_much_larger_than_any_pool_is_gathered() {
    let n: u64 = 5000;
    let completions: Vec<(usize, u64)> =
        (0..n as usize).rev().map(|k| (k, (k as u64 % 10) + 1)).collect();
    let results = gather(numbered_inputs(n), &completions).unwrap();
    assert_eq!(results.len(), 5000);
    for (k, pair) in results.iter().enumerate() {
        assert_eq!(*pair, (k as u64 + 1, (k as u64 % 10) + 1));
    }
}

#[test]
fn two_runs_share_their_shape_but_not_their_outcomes() {
    let first = gather(numbered_inputs(4), &vec![(3, 2), (0, 7), (2, 1), (1, 10)]).unwrap();
    let second = gather(numbered_inputs(4), &vec![(1, 3), (2, 3), (0, 4), (3, 8)]).unwrap();
    let inputs_of = |r: &Vec<(u64, u64)>| r.iter().map(|p| p.0).collect::<Vec<u64>>();
    assert_eq!(inputs_of(&first), vec![1, 2, 3, 4]);
    assert_eq!(inputs_of(&second), vec![1, 2, 3, 4]);
    assert_ne!(first, second);
}

#[test]
fn duplicate_inputs_are_kept_apart() {
    let results = gather(vec![5, 5, 5], &vec![(2, 3), (0, 1), (1, 2)]).unwrap();
    assert_eq!(results, vec![(5, 1), (5, 2), (5, 3)]);
}

#[test]
fn completion_past_the_end_is_refused() {
    let r = gather(vec![1, 2], &vec![(0, 1), (2, 1), (1, 1)]);
    assert_eq!(
        r,
        Err(GatherError::Refused { position: 1, reason: RecordError::OutOfRange })
    );
}

#[test]
fn second_completion_of_a_unit_is_refused() {
    let r = gather(vec![1, 2], &vec![(1, 4), (1, 5), (0, 1)]);
    assert_eq!(
        r,
        Err(GatherError::Refused { position: 1, reason: RecordError::AlreadyRecorded })
    );
}

#[test]
fn first_refused_completion_is_reported() {
    let r = gather(vec![1, 2], &vec![(0, 1), (0, 2), (7, 1)]);
    assert_eq!(
        r,
        Err(GatherError::Refused { position: 1, reason: RecordError::AlreadyRecorded })
    );
}

#[test]
fn missing_completion_leaves_the_batch_incomplete() {
    let r = gather(vec![1, 2, 3], &vec![(2, 1), (0, 1)]);
    assert_eq!(r, Err(GatherError::Incomplete));
}

#[test]
fn batch_collects_step_by_step() {
    let mut batch = Batch::new(vec![10, 20]);
    assert_eq!(batch.len(), 2);
    assert_eq!(batch.inputs(), &vec![10, 20]);
    assert!(!batch.is_collected());
    assert_eq!(batch.results(), None);
    assert_eq!(batch.record(1, 6), Ok(()));
    assert!(!batch.is_collected());
    assert_eq!(batch.results(), None);
    assert_eq!(batch.record(1, 9), Err(RecordError::AlreadyRecorded));
    assert_eq!(batch.record(2, 9), Err(RecordError::OutOfRange));
    assert_eq!(batch.record(0, 3), Ok(()));
    assert!(batch.is_collected());
    assert_eq!(batch.results(), Some(vec![(10, 3), (20, 6)]));
}

#[test]
fn empty_batch_is_collected_at_once() {
    let batch = Batch::new(Vec::new());
    assert!(batch.is_collected());
    assert_eq!(batch.results(), Some(Vec::new()));
}
