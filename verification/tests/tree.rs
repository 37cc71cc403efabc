use fs_stats::by_size::{sort_by_size, sort_subtree_by_size};
use fs_stats::edit::{delete_subtree, recalculate_data};
use fs_stats::entry::{found_entry, Entry};
use fs_stats::find::find_path_index;
use fs_stats::scan::DirectoryTreeData;
use fs_stats::shape::check_tree;
use std::path::PathBuf;

fn path(text: &str) -> PathBuf {
    PathBuf::from(text)
}

/// 0 /r
/// 1   /r/a      with 4 /r/a/x (30), 5 /r/a/y (10), 6 /r/a/z (20)
/// 2   /r/b.txt  (100)
/// 3   /r/c      with 7 /r/c/k (5)
fn sample() -> Vec<Entry> {
    let mut data = DirectoryTreeData::from_root_path(path("/r"), false, 0);
    for (parent, name, size, is_file) in [
        (0, "/r/a", 0, false),
        (0, "/r/b.txt", 100, true),
        (0, "/r/c", 0, false),
        (1, "/r/a/x", 30, true),
        (1, "/r/a/y", 10, true),
        (1, "/r/a/z", 20, true),
        (3, "/r/c/k", 5, true),
    ] {
        assert!(data.try_accept(found_entry(parent, path(name), size, is_file)).is_some());
    }
    data.entries
}

fn children(entries: &[Entry]) -> Vec<Vec<usize>> {
    entries.iter().map(|e| e.children.clone()).collect()
}

#[test]
fn sorted_by_size() {
    let entries = sample();
    assert_eq!(sort_by_size(&entries, &vec![4, 5, 6]), vec![5, 6, 4]);
    assert_eq!(sort_by_size(&entries, &vec![1, 2, 3]), vec![3, 1, 2]);
    assert_eq!(sort_by_size(&entries, &vec![]), Vec::<usize>::new());
}

#[test]
fn subtree_sorting_orders_children_below_the_root() {
    let mut entries = sample();
    sort_subtree_by_size(0, &mut entries);
    assert_eq!(entries[1].children, vec![5, 6, 4]);
    assert_eq!(entries[3].children, vec![7]);
    // the entry with index 0 has no parent: its children stay
    assert_eq!(entries[0].children, vec![1, 2, 3]);
    assert!(check_tree(&entries));
    let numbers: Vec<_> = entries.iter().map(|e| (e.size, e.num_files)).collect();
    let unsorted: Vec<_> = sample().iter().map(|e| (e.size, e.num_files)).collect();
    assert_eq!(numbers, unsorted);
    let once = children(&entries);
    sort_subtree_by_size(0, &mut entries);
    assert_eq!(children(&entries), once);
}

#[test]
fn subtree_sorting_leaves_other_subtrees() {
    let mut entries = sample();
    sort_subtree_by_size(3, &mut entries);
    assert_eq!(entries[1].children, vec![4, 5, 6]);
    // sorting from a file orders the directories above it
    sort_subtree_by_size(4, &mut entries);
    assert_eq!(entries[1].children, vec![5, 6, 4]);
}

#[test]
fn find_by_path() {
    let entries = sample();
    assert_eq!(find_path_index(path("/r/a"), &entries), Some(1));
    assert_eq!(find_path_index(path("/r/a/z"), &entries), Some(6));
    assert_eq!(find_path_index(path("/r//c/./k/"), &entries), Some(7));
    assert_eq!(find_path_index(path("/r/b.txt"), &entries), Some(2));
    // the root itself, what is not there, and what lies below a file
    assert_eq!(find_path_index(path("/r"), &entries), None);
    assert_eq!(find_path_index(path("/r/a/w"), &entries), None);
    assert_eq!(find_path_index(path("/r/ab"), &entries), None);
    assert_eq!(find_path_index(path("/r/b.txt/q"), &entries), None);
    assert_eq!(find_path_index(path("/s"), &entries), None);
}

#[test]
fn find_finds_every_entry() {
    let entries = sample();
    for (i, e) in entries.iter().enumerate().skip(1) {
        assert_eq!(find_path_index(e.path.clone(), &entries), Some(i));
    }
}

fn numbers(entries: &[Entry]) -> Vec<(u64, u64)> {
    entries.iter().map(|e| (e.size, e.num_files)).collect()
}

#[test]
fn recalculating_links_anew_and_sums_up() {
    let mut entries = sample();
    let expected = vec![(165, 5), (60, 3), (100, 1), (5, 1), (30, 1), (10, 1), (20, 1), (5, 1)];
    assert_eq!(numbers(&entries), expected);
    let before: Vec<_> = entries.iter().map(|e| (e.parent, e.path.clone(), e.is_file)).collect();
    entries[0].size = 1;
    entries[1].children = vec![6, 4, 5];
    entries[1].size = 7777;
    entries[3].children = vec![];
    entries[3].num_files = 9;
    recalculate_data(&mut entries);
    assert_eq!(entries[0].children, vec![1, 2, 3]);
    assert_eq!(entries[1].children, vec![4, 5, 6]);
    assert_eq!(entries[3].children, vec![7]);
    assert_eq!(numbers(&entries), expected);
    let after: Vec<_> = entries.iter().map(|e| (e.parent, e.path.clone(), e.is_file)).collect();
    assert_eq!(before, after);
    assert!(check_tree(&entries));
    let once = children(&entries);
    recalculate_data(&mut entries);
    assert_eq!(children(&entries), once);
    assert_eq!(numbers(&entries), expected);
}

#[test]
fn recalculating_follows_changed_files() {
    let mut entries = sample();
    entries[4].size = 1000;
    entries[7].num_files = 3;
    recalculate_data(&mut entries);
    let expected = vec![(1135, 7), (1030, 3), (100, 1), (5, 3), (1000, 1), (10, 1), (20, 1), (5, 3)];
    assert_eq!(numbers(&entries), expected);
}

#[test]
fn recalculating_drops_what_directories_take_themselves() {
    let mut data = DirectoryTreeData::from_root_path(path("/r"), false, 0);
    data.try_accept(found_entry(0, path("/r/a"), 4096, false)).unwrap();
    data.try_accept(found_entry(1, path("/r/a/f"), 8, true)).unwrap();
    assert_eq!(numbers(&data.entries), vec![(8, 1), (4104, 1), (8, 1)]);
    recalculate_data(&mut data.entries);
    assert_eq!(numbers(&data.entries), vec![(8, 1), (8, 1), (8, 1)]);
}

#[test]
fn recalculating_clears_directories_off_the_root() {
    let mut entries = vec![
        found_entry(9, path("/r"), 4, false),
        found_entry(2, path("/u"), 5, false),
        found_entry(1, path("/v"), 6, false),
        found_entry(1, path("/w"), 7, true),
    ];
    recalculate_data(&mut entries);
    assert_eq!(numbers(&entries), vec![(0, 0), (0, 0), (0, 0), (7, 1)]);
    assert_eq!(children(&entries), vec![vec![], vec![2, 3], vec![1], vec![]]);
}

#[test]
fn recalculating_a_single_file() {
    let mut entries = vec![found_entry(0, path("/f"), 12, true)];
    recalculate_data(&mut entries);
    assert_eq!(numbers(&entries), vec![(12, 1)]);
    assert!(entries[0].children.is_empty());
}

#[test]
fn deleting_removes_an_entry_and_what_is_directly_below() {
    let mut entries = sample();
    delete_subtree(&mut entries, 3);
    let paths: Vec<_> = entries.iter().map(|e| e.path.clone()).collect();
    assert_eq!(
        paths,
        vec![path("/r"), path("/r/a"), path("/r/b.txt"), path("/r/a/x"), path("/r/a/y"), path("/r/a/z")]
    );
    assert_eq!(entries[0].children, vec![1, 2]);
    assert_eq!(entries[1].children, vec![3, 4, 5]);
    assert_eq!(numbers(&entries), vec![(160, 4), (60, 3), (100, 1), (30, 1), (10, 1), (20, 1)]);
}

#[test]
fn deleting_what_is_not_there_recalculates() {
    let mut entries = sample();
    entries[0].size = 0;
    delete_subtree(&mut entries, 50);
    assert_eq!(entries.len(), 8);
    assert_eq!(entries[1].children, vec![4, 5, 6]);
    assert_eq!(entries[0].size, 165);
}

#[test]
fn a_single_child_is_not_looked_at_for_sorting() {
    // 1 lists only an entry that is not there; sorting from 2 passes 1 on the way up
    let mut entries = vec![
        found_entry(usize::MAX, path("/r"), 0, false),
        found_entry(0, path("/r/a"), 0, false),
        found_entry(1, path("/r/a/b"), 0, false),
    ];
    entries[1].children = vec![77];
    sort_subtree_by_size(2, &mut entries);
    assert_eq!(entries[1].children, vec![77]);
    assert_eq!(sort_by_size(&entries, &vec![77]), vec![77]);
}

#[test]
fn trees_are_told_apart() {
    let entries = sample();
    assert!(check_tree(&entries));
    assert!(!check_tree(&[]));
    let mut wrong = entries.clone();
    wrong[0].parent = 3;
    assert!(!check_tree(&wrong));
    let mut wrong = entries.clone();
    wrong[1].children.push(7);
    assert!(!check_tree(&wrong));
    let mut wrong = entries.clone();
    wrong[1].children.push(4);
    assert!(!check_tree(&wrong));
    let mut wrong = entries.clone();
    wrong[1].children.pop();
    assert!(!check_tree(&wrong));
    let mut wrong = entries.clone();
    wrong[1].parent = 4;
    assert!(!check_tree(&wrong));
    let mut wrong = entries.clone();
    wrong[2].children.push(99);
    assert!(!check_tree(&wrong));
}
