use labeled_webcam_photos::distance::squared_distance;
use labeled_webcam_photos::gallery::{LabeledPhotoGallery, PhotoError};
use labeled_webcam_photos::raster::{Layout, Raster};
use labeled_webcam_photos::vote::majority_label;

fn rgb(w: u32, h: u32, fill: u8) -> Raster {
    Raster::new(Layout::Rgb, w, h, vec![fill; (w * h * 3) as usize]).unwrap()
}

fn gallery(entries: &[(&str, Vec<Raster>)]) -> LabeledPhotoGallery {
    let labels: Vec<String> = entries.iter().map(|(l, _)| l.to_string()).collect();
    let mut g = LabeledPhotoGallery::with_labels("proj", labels);
    for (l, photos) in entries.iter() {
        for p in photos.iter() {
            let copy = Raster::new(p.layout, p.width, p.height, p.samples.clone()).unwrap();
            g.record_photo(l, copy).unwrap();
        }
    }
    g
}

#[test]
fn distance_of_image_to_itself_is_zero() {
    let a = Raster::new(Layout::Rgb, 2, 1, vec![1, 2, 3, 200, 100, 0]).unwrap();
    let b = Raster::new(Layout::Rgb, 2, 1, vec![1, 2, 3, 200, 100, 0]).unwrap();
    assert_eq!(squared_distance(&a, &b), Some(0));
}

#[test]
fn distance_sums_squared_sample_differences() {
    let a = Raster::new(Layout::Gray, 3, 1, vec![1, 2, 3]).unwrap();
    let b = Raster::new(Layout::Gray, 3, 1, vec![4, 6, 3]).unwrap();
    assert_eq!(squared_distance(&a, &b), Some(25));
    let c = Raster::new(Layout::Gray, 1, 1, vec![0]).unwrap();
    let d = Raster::new(Layout::Gray, 1, 1, vec![255]).unwrap();
    assert_eq!(squared_distance(&c, &d), Some(65025));
}

#[test]
fn distance_rejects_mismatched_shapes() {
    let a = rgb(2, 2, 0);
    let b = rgb(2, 3, 0);
    assert_eq!(squared_distance(&a, &b), None);
    let c = Raster::new(Layout::Gray, 2, 2, vec![0; 4]).unwrap();
    assert_eq!(squared_distance(&a, &c), None);
}

#[test]
fn raster_new_checks_buffer_length() {
    assert!(Raster::new(Layout::Rgb, 2, 2, vec![0; 11]).is_none());
    assert!(Raster::new(Layout::Gray, 2, 2, vec![0; 4]).is_some());
}

#[test]
fn majority_of_identical_photos_wins() {
    let g = gallery(&[("cat", vec![rgb(2, 2, 10)]), ("dog", vec![rgb(2, 2, 200); 5])]);
    assert_eq!(g.label_for(&rgb(2, 2, 200)), Ok("dog".to_string()));
}

#[test]
fn fewer_than_five_photos_is_insufficient() {
    let g = gallery(&[("a", vec![rgb(1, 1, 0); 2]), ("b", vec![rgb(1, 1, 9); 2])]);
    assert_eq!(g.label_for(&rgb(1, 1, 0)), Err(PhotoError::InsufficientSamples));
    let empty = LabeledPhotoGallery::with_labels("proj", vec![]);
    assert_eq!(empty.label_for(&rgb(1, 1, 0)), Err(PhotoError::InsufficientSamples));
}

#[test]
fn stored_photo_of_other_size_is_a_mismatch() {
    let g = gallery(&[("a", vec![rgb(1, 1, 0); 4]), ("b", vec![rgb(2, 1, 0)])]);
    assert_eq!(g.label_for(&rgb(1, 1, 0)), Err(PhotoError::DimensionMismatch));
}

#[test]
fn vote_tie_goes_to_first_label() {
    let g = gallery(&[
        ("b", vec![rgb(1, 1, 50); 2]),
        ("a", vec![rgb(1, 1, 50); 2]),
        ("c", vec![rgb(1, 1, 255); 2]),
    ]);
    assert_eq!(g.label_for(&rgb(1, 1, 50)), Ok("a".to_string()));
}

#[test]
fn nearest_five_outvote_far_majority() {
    let g = gallery(&[("near", vec![rgb(1, 1, 100); 3]), ("far", vec![rgb(1, 1, 0); 4])]);
    // the five nearest are three "near" and two "far" photos
    assert_eq!(g.label_for(&rgb(1, 1, 100)), Ok("near".to_string()));
}

#[test]
fn majority_label_counts_only_nearest() {
    let dists: Vec<u128> = vec![9, 0, 0, 7, 1, 2, 8];
    let labels: Vec<usize> = vec![0, 1, 1, 0, 2, 2, 0];
    // nearest five: indices 1, 2, 4, 5, 3 -> labels 1, 1, 2, 2, 0
    assert_eq!(majority_label(&dists, &labels, 3), 1);
    let equal: Vec<u128> = vec![5, 5, 5, 5, 5, 5];
    let labs: Vec<usize> = vec![1, 1, 1, 0, 0, 0];
    // equal distances keep encounter order: the first five are 1, 1, 1, 0, 0
    assert_eq!(majority_label(&equal, &labs, 2), 1);
}

#[test]
fn identical_photo_with_majority_is_chosen() {
    let a = Raster::new(Layout::Rgb, 2, 1, vec![10, 20, 30, 40, 50, 60]).unwrap();
    let b = Raster::new(Layout::Rgb, 2, 1, vec![200, 20, 30, 40, 50, 90]).unwrap();
    let g = gallery(&[("cat", vec![a.clone(); 3]), ("dog", vec![b.clone(); 3])]);
    assert_eq!(g.label_for(&a), Ok("cat".to_string()));
    assert_eq!(g.label_for(&b), Ok("dog".to_string()));
}
