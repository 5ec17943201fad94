use image_knn::model::ImageClassifier;
use image_knn::predict::{predict, squared_distance, PredictError};

fn model_of(w: u32, h: u32, k: usize, samples: &[(&[u8], i32)]) -> ImageClassifier {
    let mut m = ImageClassifier::new(w, h, k);
    for (feats, label) in samples {
        m.push_sample(feats.to_vec(), *label);
    }
    m
}

#[test]
fn squared_distance_exact_value() {
    let a: Vec<u8> = vec![0, 10, 255];
    let b: Vec<u8> = vec![3, 10, 250];
    assert_eq!(squared_distance(&a, &b), 9 + 0 + 25);
    assert_eq!(squared_distance(&a, &a), 0);
}

#[test]
fn exact_match_wins_with_k1() {
    let m = model_of(2, 1, 1, &[(&[0, 0], 0), (&[10, 20], 1)]);
    assert_eq!(predict(&m, &vec![10, 20]), Ok(1));
    assert_eq!(predict(&m, &vec![0, 0]), Ok(0));
}

#[test]
fn equidistant_good_bad_tie_returns_good() {
    let m = model_of(1, 1, 2, &[(&[0], 1), (&[2], 0)]);
    assert_eq!(predict(&m, &vec![1]), Ok(1));
}

#[test]
fn equidistant_tie_returns_good_either_insertion_order() {
    let m = model_of(1, 1, 2, &[(&[0], 0), (&[2], 1)]);
    assert_eq!(predict(&m, &vec![1]), Ok(1));
}

#[test]
fn distance_tie_prefers_lower_insertion_index() {
    // both samples are at distance 1 from the query; k = 1 must take index 0
    let m = model_of(1, 1, 1, &[(&[0], 0), (&[2], 1)]);
    assert_eq!(predict(&m, &vec![1]), Ok(0));
}

#[test]
fn majority_vote_exact_counts() {
    // two near bad samples against one exact good: k = 3 sees 2 bad, 1 good
    let m = model_of(1, 1, 3, &[(&[10], 0), (&[11], 0), (&[12], 1)]);
    assert_eq!(predict(&m, &vec![10]), Ok(0));
    // k = 1 sees only the exact bad match
    let m1 = model_of(1, 1, 1, &[(&[10], 0), (&[11], 0), (&[12], 1)]);
    assert_eq!(predict(&m1, &vec![12]), Ok(1));
}

#[test]
fn single_class_model_always_predicts_good() {
    let m = model_of(1, 1, 1, &[(&[7], 1), (&[200], 1)]);
    for q in [0u8, 7, 100, 200, 255] {
        assert_eq!(predict(&m, &vec![q]), Ok(1));
    }
    let m2 = model_of(1, 1, 2, &[(&[7], 1), (&[200], 1)]);
    assert_eq!(predict(&m2, &vec![50]), Ok(1));
}

#[test]
fn predict_is_deterministic() {
    let m = model_of(2, 1, 2, &[(&[1, 2], 1), (&[3, 4], 0), (&[5, 6], 1)]);
    let first = predict(&m, &vec![2, 3]);
    for _ in 0..10 {
        assert_eq!(predict(&m, &vec![2, 3]), first);
    }
}

#[test]
fn zero_k_is_invalid() {
    let m = model_of(1, 1, 0, &[(&[0], 1), (&[2], 0)]);
    assert_eq!(predict(&m, &vec![1]), Err(PredictError::InvalidK));
}

#[test]
fn k_larger_than_sample_count_is_invalid() {
    let m = model_of(1, 1, 3, &[(&[0], 1), (&[2], 0)]);
    assert_eq!(predict(&m, &vec![1]), Err(PredictError::InvalidK));
}

#[test]
fn empty_model_is_rejected() {
    let m = ImageClassifier::new(1, 1, 1);
    assert_eq!(predict(&m, &vec![0]), Err(PredictError::EmptyModel));
}
