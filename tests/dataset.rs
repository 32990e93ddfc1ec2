use image_folder::data::{DataError, Dataset};
use image_folder::scan::{is_image_extension, is_image_extension_lowered, FileEntry, RootEntry};

fn file(path: &str, ext: Option<&str>) -> FileEntry {
    FileEntry {
        path: path.to_string(),
        is_file: true,
        extension: ext.map(|e| e.to_string()),
    }
}

fn class(name: &str, entries: Vec<FileEntry>) -> RootEntry {
    RootEntry {
        name: name.to_string(),
        is_dir: true,
        entries,
    }
}

fn plain(name: &str) -> RootEntry {
    RootEntry {
        name: name.to_string(),
        is_dir: false,
        entries: Vec::new(),
    }
}

fn sample_listing() -> Vec<RootEntry> {
    vec![
        class(
            "sea",
            vec![
                file("root/sea/a.jpg", Some("jpg")),
                file("root/sea/b.txt", Some("txt")),
                file("root/sea/c.PNG", Some("PNG")),
            ],
        ),
        plain("notes.md"),
        class(
            "jungle",
            vec![
                file("root/jungle/d.JPEG", Some("JPEG")),
                FileEntry {
                    path: "root/jungle/e.jpg".to_string(),
                    is_file: false,
                    extension: Some("jpg".to_string()),
                },
            ],
        ),
    ]
}

#[test]
fn labels_are_dense_over_directories() {
    let d = Dataset::new("root".to_string(), sample_listing()).unwrap();
    assert_eq!(d.num_classes(), 2);
    assert_eq!(d.class_name(0), Some("sea".to_string()));
    assert_eq!(d.class_name(1), Some("jungle".to_string()));
    assert_eq!(d.class_name(2), None);
    assert_eq!(d.class_index(&"jungle".to_string()), Some(1));
    assert_eq!(d.class_index(&"notes.md".to_string()), None);
    assert_eq!(d.root(), "root");
}

#[test]
fn size_counts_image_files_in_any_case() {
    let d = Dataset::new("root".to_string(), sample_listing()).unwrap();
    assert_eq!(d.len(), 3);
    assert_eq!(d.get_item(0), ("root/sea/a.jpg".to_string(), 0));
    assert_eq!(d.get_item(1), ("root/sea/c.PNG".to_string(), 0));
    assert_eq!(d.get_item(2), ("root/jungle/d.JPEG".to_string(), 1));
}

#[test]
fn scanning_twice_gives_the_same_dataset() {
    let a = Dataset::new("root".to_string(), sample_listing()).unwrap();
    let b = Dataset::new("root".to_string(), sample_listing()).unwrap();
    assert_eq!(a.len(), b.len());
    assert_eq!(a.num_classes(), b.num_classes());
    for i in 0..a.len() {
        assert_eq!(a.get_item(i), b.get_item(i));
    }
}

#[test]
fn missing_extension_is_malformed() {
    let listing = vec![class(
        "sea",
        vec![file("root/sea/a.jpg", Some("jpg")), file("root/sea/README", None)],
    )];
    assert_eq!(
        Dataset::new("root".to_string(), listing).err(),
        Some(DataError::MalformedEntry)
    );
}

#[test]
fn missing_extension_outside_classes_is_ignored() {
    let listing = vec![plain("LICENSE"), class("sea", vec![file("root/sea/a.jpg", Some("jpg"))])];
    let d = Dataset::new("root".to_string(), listing).unwrap();
    assert_eq!(d.len(), 1);
    assert_eq!(d.class_name(0), Some("sea".to_string()));
}

#[test]
fn empty_class_directory_gives_empty_dataset() {
    let d = Dataset::new("root".to_string(), vec![class("sea", Vec::new())]).unwrap();
    assert_eq!(d.len(), 0);
    assert_eq!(d.num_classes(), 1);
}

#[test]
fn empty_root_gives_no_classes() {
    let d = Dataset::new("root".to_string(), Vec::new()).unwrap();
    assert_eq!(d.len(), 0);
    assert_eq!(d.num_classes(), 0);
}

#[test]
fn extension_check_ignores_case() {
    assert!(is_image_extension("jpg"));
    assert!(is_image_extension("JPG"));
    assert!(is_image_extension("PnG"));
    assert!(is_image_extension("jPeG"));
    assert!(!is_image_extension("gif"));
    assert!(!is_image_extension(""));
    assert!(!is_image_extension("jpgx"));
}

#[test]
fn lowered_extension_check_is_exact() {
    assert!(is_image_extension_lowered("jpeg"));
    assert!(is_image_extension_lowered("png"));
    assert!(!is_image_extension_lowered("JPG"));
    assert!(!is_image_extension_lowered("jpe"));
}
