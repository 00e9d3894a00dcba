use perceptron::sample::{check_sample, check_samples, SampleError};
use perceptron::schedule::plan_training;

#[test]
fn sample_with_features_and_target_fits() {
    assert_eq!(check_sample(0, 2, 1), Ok(()));
    assert_eq!(check_sample(7, 4, 3), Ok(()));
}

#[test]
fn sample_of_target_alone_fits_perceptron_without_inputs() {
    assert_eq!(check_sample(0, 1, 0), Ok(()));
}

#[test]
fn empty_sample_is_malformed() {
    assert_eq!(
        check_sample(3, 0, 1),
        Err(SampleError::MalformedSample { sample: 3 })
    );
}

#[test]
fn empty_sample_is_malformed_even_without_inputs() {
    assert_eq!(
        check_sample(0, 0, 0),
        Err(SampleError::MalformedSample { sample: 0 })
    );
}

#[test]
fn short_sample_is_dimension_mismatch() {
    assert_eq!(
        check_sample(5, 2, 3),
        Err(SampleError::DimensionMismatch { sample: 5, features: 1 })
    );
}

#[test]
fn long_sample_is_dimension_mismatch() {
    assert_eq!(
        check_sample(1, 5, 1),
        Err(SampleError::DimensionMismatch { sample: 1, features: 4 })
    );
}

#[test]
fn largest_input_size_is_handled() {
    assert_eq!(
        check_sample(0, usize::MAX, usize::MAX),
        Err(SampleError::DimensionMismatch { sample: 0, features: usize::MAX - 1 })
    );
    assert_eq!(check_sample(0, usize::MAX, usize::MAX - 1), Ok(()));
}

#[test]
fn collection_of_fitting_samples_passes() {
    assert_eq!(check_samples(&vec![2, 2, 2, 2, 2], 1), Ok(()));
}

#[test]
fn empty_collection_passes() {
    assert_eq!(check_samples(&Vec::new(), 4), Ok(()));
}

#[test]
fn first_fault_of_collection_is_reported() {
    assert_eq!(
        check_samples(&vec![3, 3, 2, 0, 3], 2),
        Err(SampleError::DimensionMismatch { sample: 2, features: 1 })
    );
    assert_eq!(
        check_samples(&vec![3, 0, 2, 0, 3], 2),
        Err(SampleError::MalformedSample { sample: 1 })
    );
}

#[test]
fn fault_in_last_sample_is_found() {
    assert_eq!(
        check_samples(&vec![2, 2, 2, 4], 1),
        Err(SampleError::DimensionMismatch { sample: 3, features: 3 })
    );
}

#[test]
fn training_on_empty_sample_is_refused() {
    let samples: Vec<Vec<u8>> = vec![vec![1, 2], vec![], vec![3, 6]];
    let lens: Vec<usize> = samples.iter().map(|s| s.len()).collect();
    match plan_training(&lens, 1, 100) {
        Ok(_) => panic!("an empty sample was accepted"),
        Err(e) => assert_eq!(e, SampleError::MalformedSample { sample: 1 }),
    }
}

#[test]
fn training_on_empty_sample_is_refused_without_epochs() {
    match plan_training(&vec![0], 1, 0) {
        Ok(_) => panic!("an empty sample was accepted"),
        Err(e) => assert_eq!(e, SampleError::MalformedSample { sample: 0 }),
    }
}

#[test]
fn training_on_mismatched_sample_is_refused() {
    match plan_training(&vec![2, 2, 3], 1, 5) {
        Ok(_) => panic!("a sample of the wrong size was accepted"),
        Err(e) => assert_eq!(e, SampleError::DimensionMismatch { sample: 2, features: 2 }),
    }
}
