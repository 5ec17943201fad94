use image_knn::predict::{classify_image, PredictError};
use image_knn::train::{filter_supported, is_supported_image_format, train_model, TrainError};

fn png_bytes(pixels: &[u8], w: u32, h: u32) -> Vec<u8> {
    let img = image::GrayImage::from_raw(w, h, pixels.to_vec()).expect("valid raw buffer");
    let mut cursor = std::io::Cursor::new(Vec::new());
    image::DynamicImage::ImageLuma8(img)
        .write_to(&mut cursor, image::ImageFormat::Png)
        .expect("png encoding succeeds");
    cursor.into_inner()
}

#[test]
fn encoding_is_deterministic_and_resizes() {
    let bytes = png_bytes(&[0, 64, 128, 255, 32, 96, 160, 224, 10, 20, 30, 40, 50, 60, 70, 80], 4, 4);
    let r1 = image_knn::features::preprocess_image(&bytes, 2, 2).expect("png decodes");
    let r2 = image_knn::features::preprocess_image(&bytes, 2, 2).expect("png decodes");
    assert_eq!(r1, r2);
    assert_eq!(r1.len(), 4);
    assert_ne!(r1, bytes);
}

#[test]
fn undecodable_bytes_fail_encoding() {
    let garbage: Vec<u8> = vec![1, 2, 3, 4, 5];
    assert!(image_knn::features::preprocess_image(&garbage, 2, 2).is_err());
}

#[test]
fn train_then_classify_round_trip() {
    let dark = png_bytes(&[0, 0, 0, 0], 2, 2);
    let light = png_bytes(&[255, 255, 255, 255], 2, 2);
    let m = train_model(&vec![light.clone()], &vec![dark.clone()], 2, 2, 1)
        .expect("training succeeds");
    assert_eq!(m.x_train.len(), 2);
    assert_eq!(m.y_train, vec![1, 0]);
    assert_eq!(classify_image(&m, &light), Ok(1));
    assert_eq!(classify_image(&m, &dark), Ok(0));
}

#[test]
fn classification_is_deterministic() {
    let dark = png_bytes(&[10, 10, 10, 10], 2, 2);
    let light = png_bytes(&[250, 250, 250, 250], 2, 2);
    let query = png_bytes(&[100, 150, 200, 250], 2, 2);
    let m = train_model(&vec![light], &vec![dark], 2, 2, 2).expect("training succeeds");
    let first = classify_image(&m, &query);
    for _ in 0..5 {
        assert_eq!(classify_image(&m, &query), first);
    }
}

#[test]
fn single_class_training_always_predicts_good() {
    let g1 = png_bytes(&[0, 50, 100, 150], 2, 2);
    let g2 = png_bytes(&[200, 210, 220, 230], 2, 2);
    let m = train_model(&vec![g1, g2], &vec![], 2, 2, 2).expect("training succeeds");
    assert_eq!(m.y_train, vec![1, 1]);
    for q in [0u8, 80, 255] {
        let query = png_bytes(&[q, q, q, q], 2, 2);
        assert_eq!(classify_image(&m, &query), Ok(1));
    }
}

#[test]
fn undecodable_training_image_fails() {
    let garbage: Vec<u8> = vec![9, 9, 9];
    let r = train_model(&vec![garbage], &vec![], 2, 2, 1);
    assert_eq!(r.err(), Some(TrainError::ImageProcessing));
}

#[test]
fn undecodable_query_image_fails_classification() {
    let good = png_bytes(&[1, 2, 3, 4], 2, 2);
    let bad = png_bytes(&[200, 200, 200, 200], 2, 2);
    let m = train_model(&vec![good], &vec![bad], 2, 2, 1).expect("training succeeds");
    let garbage: Vec<u8> = vec![0, 1, 2];
    assert_eq!(classify_image(&m, &garbage), Err(PredictError::ImageProcessing));
}

#[test]
fn classify_on_empty_model_fails() {
    let m = image_knn::model::ImageClassifier::new(2, 2, 1);
    let query = png_bytes(&[1, 2, 3, 4], 2, 2);
    assert_eq!(classify_image(&m, &query), Err(PredictError::EmptyModel));
}

#[test]
fn supported_extensions_are_case_insensitive() {
    assert!(is_supported_image_format("a.png"));
    assert!(is_supported_image_format("photo.JPG"));
    assert!(is_supported_image_format("photo.jpeg"));
    assert!(is_supported_image_format("c.PNG"));
    assert!(!is_supported_image_format("b.txt"));
    assert!(!is_supported_image_format("noextension"));
    assert!(!is_supported_image_format("archive.png.bak"));
    assert!(!is_supported_image_format(".png"));
    assert!(is_supported_image_format("archive.tar.jpg"));
}

#[test]
fn directory_listing_filters_to_supported_files() {
    let names: Vec<String> =
        vec!["a.png".to_string(), "b.txt".to_string(), "c.PNG".to_string()];
    let kept = filter_supported(&names);
    assert_eq!(kept, vec!["a.png".to_string(), "c.PNG".to_string()]);
    assert_eq!(kept.len(), 2);
}
