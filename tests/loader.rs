use image_folder::data::{DataLoader, Dataset};
use image_folder::scan::{FileEntry, RootEntry};

fn dataset(n: usize) -> Dataset {
    let entries = (0..n)
        .map(|i| FileEntry {
            path: format!("root/c/{i}.jpg"),
            is_file: true,
            extension: Some("jpg".to_string()),
        })
        .collect();
    let listing = vec![RootEntry {
        name: "c".to_string(),
        is_dir: true,
        entries,
    }];
    Dataset::new("root".to_string(), listing).unwrap()
}

fn epoch(loader: &mut DataLoader) -> Vec<Vec<String>> {
    let mut batches = Vec::new();
    while let Some(b) = loader.next() {
        batches.push(b.into_iter().map(|(_, p)| p).collect());
    }
    batches
}

#[test]
fn epoch_draws_each_sample_once_with_short_last_batch() {
    let mut loader = DataLoader::new(dataset(10), 3, false);
    let batches = epoch(&mut loader);
    let sizes: Vec<usize> = batches.iter().map(|b| b.len()).collect();
    assert_eq!(sizes, vec![3, 3, 3, 1]);
    let all: Vec<String> = batches.concat();
    let expected: Vec<String> = (0..10).map(|i| format!("root/c/{i}.jpg")).collect();
    assert_eq!(all, expected);
    assert_eq!(loader.len_batch(), 4);
    assert_eq!(loader.len(), 10);
}

#[test]
fn reported_batch_count_overcounts_when_divisible() {
    let mut loader = DataLoader::new(dataset(9), 3, false);
    let batches = epoch(&mut loader);
    assert_eq!(batches.len(), 3);
    assert!(batches.iter().all(|b| b.len() == 3));
    assert_eq!(loader.len_batch(), 4);
}

#[test]
fn unshuffled_epochs_repeat_the_order() {
    let mut loader = DataLoader::new(dataset(7), 2, false);
    let first = epoch(&mut loader);
    let second = epoch(&mut loader);
    assert_eq!(first, second);
    assert_eq!(first.len(), 4);
}

#[test]
fn shuffled_epoch_is_a_permutation() {
    let mut loader = DataLoader::new(dataset(50), 8, true);
    let expected: Vec<String> = {
        let mut v: Vec<String> = (0..50).map(|i| format!("root/c/{i}.jpg")).collect();
        v.sort();
        v
    };
    let mut orders = Vec::new();
    for _ in 0..3 {
        let batches = epoch(&mut loader);
        assert_eq!(batches.len(), 7);
        assert_eq!(batches[6].len(), 2);
        let all = batches.concat();
        let mut sorted = all.clone();
        sorted.sort();
        assert_eq!(sorted, expected);
        orders.push(all);
    }
    assert!(orders[0] != orders[1] || orders[1] != orders[2]);
}

#[test]
fn empty_dataset_ends_epoch_at_once() {
    let mut loader = DataLoader::new(dataset(0), 4, true);
    assert!(loader.next().is_none());
    assert!(loader.next().is_none());
    assert_eq!(loader.len(), 0);
    assert_eq!(loader.len_batch(), 1);
}

#[test]
fn labels_travel_with_paths() {
    let listing = vec![
        RootEntry {
            name: "a".to_string(),
            is_dir: true,
            entries: vec![FileEntry {
                path: "r/a/x.png".to_string(),
                is_file: true,
                extension: Some("png".to_string()),
            }],
        },
        RootEntry {
            name: "b".to_string(),
            is_dir: true,
            entries: vec![FileEntry {
                path: "r/b/y.jpg".to_string(),
                is_file: true,
                extension: Some("jpg".to_string()),
            }],
        },
    ];
    let d = Dataset::new("r".to_string(), listing).unwrap();
    let mut loader = DataLoader::new(d, 5, false);
    let batch = loader.next().unwrap();
    assert_eq!(batch, vec![(0, "r/a/x.png".to_string()), (1, "r/b/y.jpg".to_string())]);
    assert!(loader.next().is_none());
    assert_eq!(loader.batch_size(), 5);
    assert!(!loader.is_shuffling());
    assert_eq!(loader.dataset().len(), 2);
}
