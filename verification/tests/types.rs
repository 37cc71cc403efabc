use fs_stats::file_types::{FileType, FileTypes};
use fs_stats::order::{arrange, order_by_key};
use fs_stats::paths::{file_type, type_label};
use std::path::PathBuf;

fn some(text: &str) -> Option<String> {
    Some(text.to_string())
}

#[test]
fn extensions() {
    let type_of = |text: &str| file_type(&PathBuf::from(text));
    assert_eq!(type_of("/a/photo.jpg"), some("JPG"));
    assert_eq!(type_of("/a/archive.tar.gz"), some("GZ"));
    assert_eq!(type_of("/a/README"), None);
    assert_eq!(type_of("/a/.profile"), None);
    assert_eq!(type_of("/a/..x"), some("X"));
    assert_eq!(type_of("/a/end."), some(""));
    assert_eq!(type_of("/a.b/c"), None);
    assert_eq!(type_of("/a/x.y/"), some("Y"));
    assert_eq!(type_of("/a/.."), None);
    assert_eq!(type_of("/"), None);
}

#[test]
fn same_path_same_type() {
    let a = PathBuf::from("/a//b/./c.txt");
    let b = PathBuf::from("/a/b/c.txt");
    assert_eq!(a, b);
    assert_eq!(file_type(&a), file_type(&b));
}

#[test]
fn labels_are_upper_cased() {
    assert_eq!(type_label(some("tXt9_")), some("TXT9_"));
    assert_eq!(type_label(some("stra\u{df}e")), some("STRASSE"));
    assert_eq!(type_label(some("\u{e9}")), some("\u{c9}"));
    assert_eq!(type_label(None), None);
}

#[test]
fn bytes_add_up_by_type() {
    let mut types = FileTypes::new();
    assert!(types.can_record(&some("A"), u64::MAX));
    types.record(some("A"), 5);
    types.record(None, 7);
    types.record(some("A"), 6);
    types.record(some("B"), 2);
    assert_eq!(types.row_of(&some("A")), Some(0));
    assert_eq!(types.row_of(&None), Some(1));
    assert_eq!(types.row_of(&some("B")), Some(2));
    assert_eq!(types.row_of(&some("C")), None);
    let rows: Vec<_> = types.ranked().iter().map(|t| (t.extension.clone(), t.size)).collect();
    assert_eq!(rows, vec![(some("A"), 11), (None, 7), (some("B"), 2)]);
    assert!(types.can_record(&some("A"), u64::MAX - 11));
    assert!(!types.can_record(&some("A"), u64::MAX - 10));
    types.clear();
    assert!(types.ranked().is_empty());
    assert_eq!(types.row_of(&some("A")), None);
}

#[test]
fn ranked_largest_first() {
    let mut types = FileTypes::new();
    types.record(some("A"), 1);
    types.record(some("B"), u64::MAX);
    types.record(some("C"), 1);
    types.record(some("D"), 0);
    types.record(some("E"), 3);
    let names: Vec<_> = types.ranked().iter().map(|t| t.label()).collect();
    assert_eq!(names, vec!["B", "E", "A", "C", "D"]);
}

#[test]
fn shown_labels() {
    let with = FileType { extension: some("RS"), size: 1 };
    let without = FileType { extension: None, size: 1 };
    assert_eq!(with.label(), "RS");
    assert_eq!(without.label(), "<none>");
    assert_eq!(with.clone().label(), "RS");
}

#[test]
fn stable_order_by_key() {
    let keys = vec![3, 1, 2, 1, 3, 0];
    assert_eq!(order_by_key(&keys), vec![5, 1, 3, 2, 0, 4]);
    assert_eq!(order_by_key(&vec![]), Vec::<usize>::new());
    let list = vec![10, 11, 12, 13, 14, 15];
    assert_eq!(arrange(&list, &keys), vec![15, 11, 13, 12, 10, 14]);
}

#[test]
fn order_of_many_keys() {
    let keys: Vec<u64> = (0..1000u64).map(|k| (k * 7919) % 101).collect();
    let order = order_by_key(&keys);
    let mut expected: Vec<usize> = (0..1000).collect();
    expected.sort_by_key(|&k| keys[k]);
    assert_eq!(order, expected);
}
