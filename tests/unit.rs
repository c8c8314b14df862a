use futures_join_all::unit::{plan_task, LONGEST_SLEEP, SHORTEST_SLEEP};

#[test]
fn planned_task_keeps_its_input_and_sleeps_one_to_ten_seconds() {
    for n in 0u64..200 {
        let (input, seconds) = plan_task(n);
        assert_eq!(input, n);
        assert!((1..=10).contains(&seconds));
        assert!(SHORTEST_SLEEP <= seconds && seconds <= LONGEST_SLEEP);
    }
}

#[test]
fn planned_durations_vary() {
    let draws: Vec<u64> = (0..300u64).map(|n| plan_task(n).1).collect();
    assert!(draws.iter().any(|&s| s != draws[0]));
    assert!(draws.iter().any(|&s| s > SHORTEST_SLEEP));
}

#[test]
fn duration_bounds() {
    assert_eq!(SHORTEST_SLEEP, 1);
    assert_eq!(LONGEST_SLEEP, 10);
}
