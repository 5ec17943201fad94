use image_knn::model::{ImageClassifier, ModelError};

fn sample_model() -> ImageClassifier {
    let mut m = ImageClassifier::new(2, 2, 3);
    m.push_sample(vec![1, 2, 3, 4], 1);
    m.push_sample(vec![5, 6, 7, 8], 0);
    m.push_sample(vec![255, 0, 255, 0], 1);
    m
}

#[test]
fn save_load_round_trip() {
    let m = sample_model();
    let bytes = m.save();
    let m2 = ImageClassifier::load(&bytes).expect("saved bytes must load");
    assert_eq!(m2.target_width, m.target_width);
    assert_eq!(m2.target_height, m.target_height);
    assert_eq!(m2.k, m.k);
    assert_eq!(m2.x_train, m.x_train);
    assert_eq!(m2.y_train, m.y_train);
}

#[test]
fn empty_model_round_trip() {
    let m = ImageClassifier::new(64, 64, 3);
    let bytes = m.save();
    let m2 = ImageClassifier::load(&bytes).expect("saved bytes must load");
    assert_eq!(m2.target_width, 64);
    assert_eq!(m2.target_height, 64);
    assert_eq!(m2.k, 3);
    assert!(m2.x_train.is_empty());
    assert!(m2.y_train.is_empty());
}

#[test]
fn saved_layout_is_little_endian() {
    let m = ImageClassifier::new(0x0102, 0x0304, 5);
    let bytes = m.save();
    assert_eq!(bytes.len(), 24);
    assert_eq!(&bytes[0..4], &[0x02, 0x01, 0, 0]);
    assert_eq!(&bytes[4..8], &[0x04, 0x03, 0, 0]);
    assert_eq!(&bytes[8..16], &[5, 0, 0, 0, 0, 0, 0, 0]);
    assert_eq!(&bytes[16..24], &[0, 0, 0, 0, 0, 0, 0, 0]);
}

#[test]
fn saved_layout_holds_vectors_then_labels() {
    let mut m = ImageClassifier::new(2, 1, 1);
    m.push_sample(vec![9, 8], 1);
    m.push_sample(vec![7, 6], 0);
    let bytes = m.save();
    assert_eq!(bytes.len(), 24 + 4 + 2);
    assert_eq!(&bytes[24..28], &[9, 8, 7, 6]);
    assert_eq!(&bytes[28..30], &[1, 0]);
}

#[test]
fn truncated_bytes_are_corrupt() {
    assert_eq!(ImageClassifier::load(&vec![0u8; 10]).err(), Some(ModelError::CorruptModel));
    let m = sample_model();
    let mut bytes = m.save();
    bytes.pop();
    assert_eq!(ImageClassifier::load(&bytes).err(), Some(ModelError::CorruptModel));
}

#[test]
fn zero_width_is_corrupt() {
    let mut bytes = vec![0u8; 24];
    bytes[4] = 1;
    assert_eq!(ImageClassifier::load(&bytes).err(), Some(ModelError::CorruptModel));
}

#[test]
fn bad_label_byte_is_corrupt() {
    let mut m = ImageClassifier::new(1, 1, 1);
    m.push_sample(vec![42], 1);
    let mut bytes = m.save();
    let last = bytes.len() - 1;
    bytes[last] = 7;
    assert_eq!(ImageClassifier::load(&bytes).err(), Some(ModelError::CorruptModel));
}

#[test]
fn trailing_garbage_is_corrupt() {
    let m = sample_model();
    let mut bytes = m.save();
    bytes.push(0);
    assert_eq!(ImageClassifier::load(&bytes).err(), Some(ModelError::CorruptModel));
}
