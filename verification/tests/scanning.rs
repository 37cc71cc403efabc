use fs_stats::entry::{found_entry, root_entry, Entry};
use fs_stats::progress::{ended_tasks, running_tasks, ProgressState};
use fs_stats::scan::{
    directory_entry_list, directory_read, empty_entry_list, listing_step, nothing_left, recreate_directory_entry_list,
    scan_finished, DirectoryTreeData, ListingAction, ListingEvent, ScanAction, NTASKS,
};
use fs_stats::shape::check_tree;
use std::path::PathBuf;

fn path(text: &str) -> PathBuf {
    PathBuf::from(text)
}

fn put(data: &mut DirectoryTreeData, parent: usize, name: &str, size: u64, is_file: bool) -> Option<ScanAction> {
    data.try_accept(found_entry(parent, path(name), size, is_file))
}

/// /r (0) with a directory /r/a (1), files /r/b.txt (2) and /r/a/c.TXT (3), and a
/// directory /r/a/d (4) with a file /r/a/d/e (5).
fn sample() -> DirectoryTreeData {
    let mut data = DirectoryTreeData::from_root_path(path("/r"), false, 4096);
    put(&mut data, 0, "/r/a", 4096, false).unwrap();
    put(&mut data, 0, "/r/b.txt", 10, true).unwrap();
    put(&mut data, 1, "/r/a/c.TXT", 7, true).unwrap();
    put(&mut data, 1, "/r/a/d", 100, false).unwrap();
    put(&mut data, 4, "/r/a/d/e", 5, true).unwrap();
    data
}

fn fields(e: &Entry) -> (usize, u64, u64, bool, bool) {
    (e.parent, e.size, e.num_files, e.is_file, e.expanded)
}

#[test]
fn nothing_scanned() {
    let data = DirectoryTreeData::new();
    assert!(data.entries.is_empty());
    assert!(data.file_types.ranked().is_empty());
    assert!(empty_entry_list().is_empty());
}

#[test]
fn start_from_directory() {
    let entries = directory_entry_list(path("/r"), false, 4096);
    assert_eq!(entries.len(), 1);
    assert_eq!(fields(&entries[0]), (usize::MAX, 0, 0, false, true));
    assert_eq!(entries[0].path, path("/r"));
    assert!(entries[0].children.is_empty());
}

#[test]
fn start_from_file() {
    let data = DirectoryTreeData::from_root_path(path("/r/x"), true, 99);
    assert_eq!(fields(&data.entries[0]), (usize::MAX, 99, 1, true, true));
    assert!(data.file_types.ranked().is_empty());
    let root = root_entry(path("/r/x"), true, 99);
    assert_eq!(fields(&root), fields(&data.entries[0]));
}

#[test]
fn start_over_forgets_everything() {
    let mut data = sample();
    data.recreate_from_root_path(path("/other"), false, 1);
    assert_eq!(data.entries.len(), 1);
    assert_eq!(data.entries[0].path, path("/other"));
    assert!(data.file_types.ranked().is_empty());

    let mut entries = sample().entries;
    recreate_directory_entry_list(path("/f"), true, 3, &mut entries);
    assert_eq!(entries.len(), 1);
    assert_eq!(fields(&entries[0]), (usize::MAX, 3, 1, true, true));
}

#[test]
fn files_count_in_every_directory_above() {
    let data = sample();
    let all: Vec<_> = data.entries.iter().map(fields).collect();
    assert_eq!(
        all,
        vec![
            (usize::MAX, 22, 3, false, true),
            (0, 4096 + 12, 2, false, false),
            (0, 10, 1, true, false),
            (1, 7, 1, true, false),
            (1, 105, 1, false, false),
            (4, 5, 1, true, false),
        ]
    );
    assert_eq!(data.entries[0].children, vec![1, 2]);
    assert_eq!(data.entries[1].children, vec![3, 4]);
    assert_eq!(data.entries[4].children, vec![5]);
    assert!(check_tree(&data.entries));
}

#[test]
fn root_and_types_add_up_to_the_same() {
    let data = sample();
    let by_type: u64 = data.file_types.ranked().iter().map(|t| t.size).sum();
    let files: u64 = data.entries.iter().filter(|e| e.is_file).map(|e| e.size).sum();
    assert_eq!(data.entries[0].size, by_type);
    assert_eq!(data.entries[0].size, files);
    assert_eq!(data.entries[0].num_files, 3);
}

#[test]
fn types_go_by_upper_cased_extension() {
    let rows = sample().file_types.ranked();
    let rows: Vec<_> = rows.iter().map(|t| (t.extension.clone(), t.size)).collect();
    assert_eq!(rows, vec![(Some("TXT".to_string()), 17), (None, 5)]);
}

#[test]
fn what_is_left_to_do() {
    let mut data = DirectoryTreeData::from_root_path(path("/r"), false, 0);
    assert!(matches!(put(&mut data, 0, "/r/f", 1, true), Some(ScanAction::Done)));
    match put(&mut data, 0, "/r/d", 1, false) {
        Some(ScanAction::ReadDirectory { index, path: p }) => {
            assert_eq!(index, 2);
            assert_eq!(p, path("/r/d"));
        }
        _ => panic!("a directory is to be read"),
    }
    let next = found_entry(2, path("/r/d/x"), 4, true);
    assert!(data.can_accept(&next));
    assert!(matches!(data.accept(next), ScanAction::Done));
    assert_eq!(data.entries[2].size, 5);
    assert_eq!(data.entries[0].size, 5);
}

#[test]
fn no_place_without_parent() {
    let mut data = sample();
    assert!(put(&mut data, 7, "/r/x", 1, true).is_none());
    assert!(put(&mut data, 7, "/r/x", 1, false).is_none());
    // its own parent: a file would be counted without end
    assert!(put(&mut data, 6, "/r/x", 1, true).is_none());
    assert_eq!(data.entries.len(), 6);
    assert_eq!(data.entries[0].size, 22);
    assert!(!data.can_accept(&found_entry(8, path("/r/x"), 1, false)));
}

#[test]
fn no_place_when_a_number_grows_too_large() {
    let mut data = sample();
    assert!(put(&mut data, 0, "/r/huge", u64::MAX - 21, true).is_none());
    assert_eq!(data.entries.len(), 6);
    assert!(put(&mut data, 0, "/r/big", u64::MAX - 22, true).is_some());
    assert_eq!(data.entries[0].size, u64::MAX);
    assert!(put(&mut data, 0, "/r/empty", 0, true).is_some());
    assert_eq!(data.entries[0].num_files, 5);
}

#[test]
fn no_place_in_a_circle() {
    let mut data = DirectoryTreeData::from_root_path(path("/r"), false, 0);
    put(&mut data, 0, "/r/a", 0, false).unwrap();
    data.entries[0].parent = 1;
    assert!(put(&mut data, 1, "/r/a/f", 1, true).is_none());
    assert!(put(&mut data, 1, "/r/a/d", 1, false).is_some());
}

#[test]
fn listing_events() {
    let mut progress = ProgressState::new();
    let found = |is_dir: bool, is_file: bool| ListingEvent::Found {
        path: path("/r/x"),
        size: 12,
        is_dir,
        is_file,
    };
    match listing_step(3, found(true, false), &mut progress) {
        ListingAction::Queue(e) => {
            assert_eq!(fields(&e), (3, 12, 0, false, false));
            assert_eq!(e.path, path("/r/x"));
        }
        _ => panic!("directories are queued"),
    }
    match listing_step(3, found(false, true), &mut progress) {
        ListingAction::Queue(e) => assert_eq!(fields(&e), (3, 12, 1, true, false)),
        _ => panic!("files are queued"),
    }
    assert!(matches!(listing_step(3, found(false, false), &mut progress), ListingAction::Skip));
    assert_eq!(progress.count, 3);
    assert!(matches!(listing_step(3, ListingEvent::NoMetadata, &mut progress), ListingAction::Skip));
    assert!(matches!(listing_step(3, ListingEvent::Failed, &mut progress), ListingAction::Skip));
    assert!(matches!(listing_step(3, ListingEvent::End, &mut progress), ListingAction::Stop));
    assert_eq!(progress, ProgressState { count: 3, done: 0, complete: false });
}

#[test]
fn scan_is_over_when_all_wait() {
    assert_eq!(NTASKS, 8);
    assert!(scan_finished(true, 8));
    assert!(!scan_finished(false, 8));
    assert!(!scan_finished(true, 7));
    assert!(!scan_finished(true, 9));
}

#[test]
fn nothing_is_left_when_nothing_is_pending() {
    assert!(nothing_left(true, 0, 8));
    assert!(!nothing_left(true, 1, 8));
    assert!(!nothing_left(false, 0, 8));
    assert!(!nothing_left(true, 0, 7));
}

#[test]
fn progress_counts() {
    let mut p = ProgressState::new();
    assert_eq!(p, ProgressState { count: 0, done: 0, complete: false });
    p.found();
    p.found();
    p.finished_one();
    assert_eq!(p, ProgressState { count: 2, done: 1, complete: false });
    p.expect(usize::MAX);
    p.found();
    assert_eq!(p.count, 0);
    p.end();
    assert_eq!(p, ProgressState { count: 0, done: 1, complete: true });
}

#[test]
fn tasks_are_running_or_ended() {
    let state = |complete: bool| ProgressState { count: 0, done: 0, complete };
    let tasks = vec![state(true), state(false), state(true), state(false), state(true)];
    assert_eq!(running_tasks(&tasks), vec![1, 3]);
    assert_eq!(ended_tasks(&tasks), vec![4, 2, 0]);
    assert_eq!(running_tasks(&[]), Vec::<usize>::new());
    assert_eq!(ended_tasks(&[]), Vec::<usize>::new());
}

#[test]
fn copies_are_alike() {
    let data = sample();
    let copy = data.entries[1].clone();
    assert_eq!(fields(&copy), fields(&data.entries[1]));
    assert_eq!(copy.path, path("/r/a"));
    assert_eq!(copy.children, vec![3, 4]);
}

#[test]
fn order_of_arrival_does_not_matter() {
    let mut data = DirectoryTreeData::from_root_path(path("/r"), false, 4096);
    put(&mut data, 0, "/r/b.txt", 10, true).unwrap();
    put(&mut data, 0, "/r/a", 4096, false).unwrap();
    put(&mut data, 2, "/r/a/d", 100, false).unwrap();
    put(&mut data, 3, "/r/a/d/e", 5, true).unwrap();
    put(&mut data, 2, "/r/a/c.TXT", 7, true).unwrap();
    let other = sample();
    assert_eq!(data.entries[0].size, other.entries[0].size);
    assert_eq!(data.entries[0].num_files, other.entries[0].num_files);
    assert_eq!(data.entries[2].size, other.entries[1].size);
    let rows = |d: &DirectoryTreeData| -> Vec<(Option<String>, u64)> {
        d.file_types.ranked().iter().map(|t| (t.extension.clone(), t.size)).collect()
    };
    assert_eq!(rows(&data), rows(&other));
}

#[test]
fn progress_of_a_whole_scan() {
    // /r holds a file, a directory with one file, and something that is neither
    let mut data = DirectoryTreeData::from_root_path(path("/r"), false, 0);
    let mut progress = ProgressState::new();
    let mut queue: Vec<Entry> = vec![];
    let found = |name: &str, is_dir: bool, is_file: bool| ListingEvent::Found {
        path: path(name),
        size: 6,
        is_dir,
        is_file,
    };
    for event in [
        found("/r/f", false, true),
        found("/r/d", true, false),
        found("/r/pipe", false, false),
        ListingEvent::NoMetadata,
        ListingEvent::End,
    ] {
        if let ListingAction::Queue(entry) = listing_step(0, event, &mut progress) {
            queue.push(entry);
        }
    }
    assert_eq!((progress.count, progress.done), (3, 0));

    let directory = queue.pop().unwrap();
    let file = queue.pop().unwrap();
    assert!(matches!(data.handle_entry(file, &mut progress), Some(ScanAction::Done)));
    assert_eq!((progress.count, progress.done), (3, 1));
    let index = match data.handle_entry(directory, &mut progress) {
        Some(ScanAction::ReadDirectory { index, .. }) => index,
        _ => panic!("a directory is to be read"),
    };
    assert_eq!((progress.count, progress.done), (3, 1));
    match listing_step(index, found("/r/d/g", false, true), &mut progress) {
        ListingAction::Queue(entry) => queue.push(entry),
        _ => panic!("files are queued"),
    }
    directory_read(&mut progress);
    assert_eq!((progress.count, progress.done), (4, 2));
    assert!(data.handle_entry(queue.pop().unwrap(), &mut progress).is_some());

    // nothing is left: one item was passed over, the rest is in the tree
    assert_eq!((progress.count, progress.done), (4, 3));
    assert_eq!(data.entries.len(), progress.done + 1);

    // what has no place is not done
    let lost = found_entry(50, path("/lost"), 1, true);
    assert!(data.handle_entry(lost, &mut progress).is_none());
    assert_eq!((progress.count, progress.done), (4, 3));
}
