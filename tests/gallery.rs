use labeled_webcam_photos::gallery::{encode_photo, LabelDir, LabeledPhotoGallery, PhotoError, PhotoFile};
use labeled_webcam_photos::raster::{Layout, Raster};

fn rgb(w: u32, h: u32, fill: u8) -> Raster {
    Raster::new(Layout::Rgb, w, h, vec![fill; (w * h * 3) as usize]).unwrap()
}

fn png_file(path: &str, img: &Raster) -> PhotoFile {
    PhotoFile { path: path.to_string(), bytes: encode_photo(img).unwrap() }
}

#[test]
fn labels_are_sorted_and_unique() {
    let g = LabeledPhotoGallery::with_labels(
        "proj",
        vec!["dog".to_string(), "cat".to_string(), "dog".to_string(), "bird".to_string()],
    );
    assert_eq!(g.all_labels(), vec!["bird".to_string(), "cat".to_string(), "dog".to_string()]);
    assert_eq!(g.photo_count("cat"), Some(0));
    assert_eq!(g.photo_count("cow"), None);
}

#[test]
fn recording_appends_to_known_label() {
    let mut g = LabeledPhotoGallery::with_labels("proj", vec!["cat".to_string(), "dog".to_string()]);
    assert_eq!(g.record_photo("cat", rgb(1, 1, 3)), Ok(()));
    assert_eq!(g.record_photo("cat", rgb(1, 1, 4)), Ok(()));
    assert_eq!(g.photo_count("cat"), Some(2));
    assert_eq!(g.photo_count("dog"), Some(0));
}

#[test]
fn recording_to_unknown_label_is_rejected() {
    let mut g = LabeledPhotoGallery::with_labels("proj", vec!["cat".to_string()]);
    assert_eq!(g.record_photo("cow", rgb(1, 1, 3)), Err(PhotoError::UndefinedLabel("cow".to_string())));
    assert_eq!(g.all_labels(), vec!["cat".to_string()]);
    assert_eq!(g.photo_count("cat"), Some(0));
}

#[test]
fn photo_paths_number_from_one_without_gaps() {
    let g = LabeledPhotoGallery::with_labels("proj", vec!["cat".to_string()]);
    let names: Vec<String> = (0..3).map(|n| g.photo_path("cat", n).unwrap()).collect();
    assert_eq!(names, vec!["proj/cat/photo_1.png", "proj/cat/photo_2.png", "proj/cat/photo_3.png"]);
    assert_eq!(g.photo_path("cat", 41), Ok("proj/cat/photo_42.png".to_string()));
    assert_eq!(g.photo_path("dog", 0), Err(PhotoError::UndefinedLabel("dog".to_string())));
}

#[test]
fn label_directory_joins_project_and_label() {
    let g = LabeledPhotoGallery::with_labels("proj", vec!["cat".to_string()]);
    assert_eq!(g.label_dir_path("cat"), Ok("proj/cat".to_string()));
    assert_eq!(g.label_dir_path("x"), Err(PhotoError::UndefinedLabel("x".to_string())));
}

#[test]
fn load_keeps_labels_and_counts() {
    let a = Raster::new(Layout::Rgb, 2, 1, vec![1, 2, 3, 4, 5, 6]).unwrap();
    let dirs = vec![
        LabelDir {
            label: "dog".to_string(),
            files: vec![png_file("p/dog/photo_1.png", &a), png_file("p/dog/photo_2.png", &a)],
        },
        LabelDir { label: "cat".to_string(), files: vec![png_file("p/cat/photo_1.png", &rgb(3, 3, 7))] },
        LabelDir { label: "empty".to_string(), files: vec![] },
    ];
    let g = LabeledPhotoGallery::from_disk("p", dirs).unwrap();
    assert_eq!(g.all_labels(), vec!["cat".to_string(), "dog".to_string(), "empty".to_string()]);
    assert_eq!(g.photo_count("dog"), Some(2));
    assert_eq!(g.photo_count("cat"), Some(1));
    assert_eq!(g.photo_count("empty"), Some(0));
}

#[test]
fn encoded_photo_decodes_to_same_samples() {
    let a = Raster::new(Layout::Rgb, 2, 1, vec![1, 2, 3, 250, 128, 0]).unwrap();
    let bytes = encode_photo(&a).unwrap();
    assert_eq!(&bytes[1..4], b"PNG");
    let dirs = vec![LabelDir { label: "x".to_string(), files: vec![PhotoFile { path: "x/1".to_string(), bytes }] }];
    let mut g = LabeledPhotoGallery::from_disk("p", dirs).unwrap();
    for _ in 0..4 {
        g.record_photo("x", rgb(2, 1, 0)).unwrap();
    }
    // the decoded photo is the only one at distance zero from the query
    let query = Raster::new(Layout::Rgb, 2, 1, vec![1, 2, 3, 250, 128, 0]).unwrap();
    assert_eq!(g.label_for(&query), Ok("x".to_string()));
}

#[test]
fn undecodable_file_is_reported_with_its_path() {
    let dirs = vec![LabelDir {
        label: "cat".to_string(),
        files: vec![PhotoFile { path: "p/cat/photo_1.png".to_string(), bytes: vec![1, 2, 3, 4] }],
    }];
    assert_eq!(
        LabeledPhotoGallery::from_disk("p", dirs).err(),
        Some(PhotoError::ImageDecode("p/cat/photo_1.png".to_string()))
    );
}

#[test]
fn menu_from_gallery_lists_sorted_labels() {
    let g = LabeledPhotoGallery::with_labels("proj", vec!["zebra".to_string(), "ant".to_string()]);
    let m = g.make_menu();
    assert_eq!(m.current_choice(), "ant");
    assert_eq!(m.len(), 2);
}

#[test]
fn stored_gallery_reloads_with_same_labels_and_counts() {
    let mut g = LabeledPhotoGallery::with_labels("p", vec!["a".to_string(), "b".to_string(), "c".to_string()]);
    for (label, n) in [("a", 2usize), ("b", 0), ("c", 3)] {
        for k in 0..n {
            g.record_photo(label, rgb(2, 2, k as u8)).unwrap();
        }
    }
    let mut dirs = vec![];
    for label in g.all_labels() {
        let n = g.photo_count(&label).unwrap();
        let files = (0..n)
            .map(|k| png_file(&g.photo_path(&label, k).unwrap(), &rgb(2, 2, k as u8)))
            .collect();
        dirs.push(LabelDir { label, files });
    }
    let loaded = LabeledPhotoGallery::from_disk("p", dirs).unwrap();
    assert_eq!(loaded.all_labels(), g.all_labels());
    for label in g.all_labels() {
        assert_eq!(loaded.photo_count(&label), g.photo_count(&label));
    }
}

#[test]
fn encoding_needs_at_least_one_pixel() {
    assert!(encode_photo(&rgb(1, 1, 9)).is_ok());
    let empty = Raster::new(Layout::Rgb, 0, 3, vec![]).unwrap();
    assert!(matches!(encode_photo(&empty), Err(PhotoError::Io(_))));
}
