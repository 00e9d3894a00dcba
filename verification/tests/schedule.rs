use perceptron::schedule::{plan_training, Schedule};

fn is_whole_pass(pass: &[usize], n: usize) -> bool {
    let mut seen = vec![false; n];
    for &position in pass {
        if position >= n || seen[position] {
            return false;
        }
        seen[position] = true;
    }
    pass.len() == n
}

fn run_to_end(mut schedule: Schedule) -> Vec<usize> {
    let mut presented = Vec::new();
    while let Some(sample) = schedule.next_sample() {
        presented.push(sample);
    }
    assert_eq!(schedule.next_sample(), None);
    presented
}

#[test]
fn schedule_makes_samples_times_epochs_presentations() {
    assert_eq!(run_to_end(Schedule::new(5, 100)).len(), 500);
    assert_eq!(run_to_end(Schedule::new(7, 1)).len(), 7);
    assert_eq!(run_to_end(Schedule::new(1, 9)).len(), 9);
}

#[test]
fn every_pass_presents_each_sample_once() {
    for n in 1..12 {
        for epochs in 0..6 {
            let presented = run_to_end(Schedule::new(n, epochs));
            assert_eq!(presented.len(), n * epochs);
            for pass in presented.chunks(n) {
                assert!(is_whole_pass(pass, n));
            }
        }
    }
}

#[test]
fn schedule_without_epochs_presents_nothing() {
    let mut schedule = Schedule::new(5, 0);
    assert_eq!(schedule.next_sample(), None);
    assert_eq!(schedule.next_sample(), None);
}

#[test]
fn schedule_without_samples_presents_nothing() {
    let mut schedule = Schedule::new(0, 100);
    assert_eq!(schedule.next_sample(), None);
    assert_eq!(run_to_end(Schedule::new(0, 0)), Vec::<usize>::new());
}

#[test]
fn single_sample_is_presented_once_per_epoch() {
    assert_eq!(run_to_end(Schedule::new(1, 4)), vec![0, 0, 0, 0]);
}

#[test]
fn finished_schedule_stays_finished() {
    let mut schedule = Schedule::new(2, 1);
    assert!(schedule.next_sample().is_some());
    assert!(schedule.next_sample().is_some());
    for _ in 0..10 {
        assert_eq!(schedule.next_sample(), None);
    }
}

#[test]
fn passes_are_reshuffled() {
    let presented = run_to_end(Schedule::new(50, 20));
    let passes: Vec<&[usize]> = presented.chunks(50).collect();
    assert_eq!(passes.len(), 20);
    assert!(passes.iter().any(|pass| *pass != passes[0]));
    let plain: Vec<usize> = (0..50).collect();
    assert!(passes.iter().any(|pass| *pass != plain.as_slice()));
}

#[test]
fn planned_training_covers_the_collection() {
    let samples: Vec<Vec<i32>> = vec![vec![0, 0], vec![1, 2], vec![2, 4], vec![3, 6], vec![8, 16]];
    let before = samples.clone();
    let lens: Vec<usize> = samples.iter().map(|s| s.len()).collect();
    let schedule = match plan_training(&lens, 1, 100) {
        Ok(schedule) => schedule,
        Err(e) => panic!("fitting samples were refused: {:?}", e),
    };
    let presented = run_to_end(schedule);
    assert_eq!(presented.len(), 500);
    for pass in presented.chunks(5) {
        assert!(is_whole_pass(pass, 5));
    }
    assert_eq!(samples, before);
    assert_eq!(lens, vec![2, 2, 2, 2, 2]);
}

#[test]
fn planned_training_without_epochs_presents_nothing() {
    match plan_training(&vec![3, 3, 3], 2, 0) {
        Ok(mut schedule) => assert_eq!(schedule.next_sample(), None),
        Err(e) => panic!("fitting samples were refused: {:?}", e),
    }
}

#[test]
fn planned_training_over_no_samples_presents_nothing() {
    match plan_training(&Vec::new(), 2, 10) {
        Ok(mut schedule) => assert_eq!(schedule.next_sample(), None),
        Err(e) => panic!("an empty collection was refused: {:?}", e),
    }
}
