use fs_stats::display::{
    can_show, display_entries, keep_expanded, row_closed, row_name, row_opened, tree_row,
};
use fs_stats::entry::{found_entry, Entry};
use fs_stats::scan::DirectoryTreeData;
use fs_stats::treemap::{can_lay_out, draw_leaves, fill_pixels, layout_plan, mark_leaves, Area, LayoutStep};
use std::path::PathBuf;

fn path(text: &str) -> PathBuf {
    PathBuf::from(text)
}

/// 0 /r
/// 1   /r/a  with 3 /r/a/x (5), 4 /r/a/y (9), 5 /r/a/z (9)
/// 2   /r/b  (40)
fn sample() -> Vec<Entry> {
    let mut data = DirectoryTreeData::from_root_path(path("/r"), false, 0);
    for (parent, name, size, is_file) in [
        (0, "/r/a", 0, false),
        (0, "/r/b", 40, true),
        (1, "/r/a/x", 5, true),
        (1, "/r/a/y", 9, true),
        (1, "/r/a/z", 9, true),
    ] {
        assert!(data.try_accept(found_entry(parent, path(name), size, is_file)).is_some());
    }
    data.entries
}

fn rows(display: &[Entry]) -> Vec<(usize, Vec<usize>)> {
    display.iter().map(|e| (e.parent, e.children.clone())).collect()
}

#[test]
fn nothing_to_show() {
    assert!(display_entries(&[]).is_empty());
}

#[test]
fn largest_entries_first() {
    let entries = sample();
    let display = display_entries(&entries);
    // the folded directory keeps its children as they are
    assert_eq!(rows(&display), vec![(0, vec![1, 2]), (2, vec![]), (1, vec![3, 4, 5])]);
    assert_eq!(display[0].size, 63);
    assert_eq!(display[1].path, path("/r/b"));
    assert_eq!(display[2].size, 23);
}

#[test]
fn unfolded_directories_show_their_children() {
    let mut entries = sample();
    entries[1].expanded = true;
    let display = display_entries(&entries);
    assert_eq!(
        rows(&display),
        vec![
            (0, vec![1, 2]),
            (2, vec![]),
            (1, vec![3, 4, 5]),
            (4, vec![]),
            (5, vec![]),
            (3, vec![]),
        ]
    );
}

#[test]
fn sizes_past_the_signed_range_come_first() {
    let mut entries = sample();
    entries[1].size = u64::MAX;
    let display = display_entries(&entries);
    assert_eq!(display[1].parent, 1);
    assert_eq!(display[2].parent, 2);
}

#[test]
fn showing_changes_nothing() {
    let mut entries = sample();
    entries[1].expanded = true;
    let display = display_entries(&entries);
    let before: Vec<bool> = entries.iter().map(|e| e.expanded).collect();
    keep_expanded(&display, &mut entries);
    let after: Vec<bool> = entries.iter().map(|e| e.expanded).collect();
    assert_eq!(before, after);
}

#[test]
fn flags_go_back_to_their_entries() {
    let mut entries = sample();
    let mut display = display_entries(&entries);
    display[2].expanded = true;
    display[0].expanded = false;
    keep_expanded(&display, &mut entries);
    let flags: Vec<bool> = entries.iter().map(|e| e.expanded).collect();
    assert_eq!(flags, vec![false, true, false, false, false, false]);

    // rows for entries that are gone are passed over, and the last row counts
    let mut few = sample()[..1].to_vec();
    display[1].parent = 0;
    display[1].expanded = true;
    keep_expanded(&display, &mut few);
    assert!(few[0].expanded);
}

#[test]
fn rows_open_and_close() {
    let mut display = display_entries(&sample());
    let row = tree_row(&display, 2, 63);
    assert_eq!((row.size, row.whole, row.leaf, row.open), (23, 63, false, false));
    let row = tree_row(&display, 1, 63);
    assert_eq!((row.size, row.whole, row.leaf, row.open), (40, 63, true, false));
    // a row that was folded has no rows below it yet
    assert_eq!(row_opened(&mut display, 2), Vec::<usize>::new());
    assert!(display[2].expanded);
    assert_eq!(row_opened(&mut display, 0), vec![1, 2]);
    row_closed(&mut display, 0);
    assert!(!display[0].expanded);
    assert_eq!(display[0].children, vec![1, 2]);
}

#[test]
fn names_of_rows() {
    let display = display_entries(&sample());
    assert_eq!(row_name(&display, 0), Some("/r".to_string()));
    assert_eq!(row_name(&display, 1), Some("b".to_string()));
    assert_eq!(row_name(&display, 2), Some("a".to_string()));
    let odd = vec![
        found_entry(0, path("/x//y/"), 0, false),
        found_entry(0, path(""), 0, false),
        found_entry(0, path("/x/.."), 0, false),
        found_entry(0, path("/x/stra\u{df}e"), 0, false),
    ];
    assert_eq!(row_name(&odd, 0), Some("/x//y/".to_string()));
    assert_eq!(row_name(&odd, 1), None);
    assert_eq!(row_name(&odd, 2), Some("..".to_string()));
    assert_eq!(row_name(&odd, 3), Some("stra\u{df}e".to_string()));
}

#[test]
fn treemap_divides_smallest_first() {
    let steps = layout_plan(&sample());
    assert_eq!(
        steps,
        vec![
            LayoutStep::Enter(0),
            LayoutStep::Place(1),
            LayoutStep::Enter(1),
            LayoutStep::Place(3),
            LayoutStep::Enter(3),
            LayoutStep::Leave,
            LayoutStep::Place(4),
            LayoutStep::Enter(4),
            LayoutStep::Leave,
            LayoutStep::Place(5),
            LayoutStep::Enter(5),
            LayoutStep::Leave,
            LayoutStep::Leave,
            LayoutStep::Place(2),
            LayoutStep::Enter(2),
            LayoutStep::Leave,
            LayoutStep::Leave,
        ]
    );
}

#[test]
fn every_entry_has_its_turn() {
    let entries = sample();
    let steps = layout_plan(&entries);
    for i in 0..entries.len() {
        assert_eq!(steps.iter().filter(|s| **s == LayoutStep::Enter(i)).count(), 1);
    }
    for k in 1..steps.len() {
        if let LayoutStep::Enter(i) = steps[k] {
            assert_eq!(steps[k - 1], LayoutStep::Place(i));
        }
    }
    let left = steps.iter().filter(|s| **s == LayoutStep::Leave).count();
    assert_eq!(left, entries.len());
}

#[test]
fn files_are_marked() {
    let entries = sample();
    let steps = layout_plan(&entries);
    let mut leaf = vec![true; 7];
    mark_leaves(&entries, &steps, &mut leaf);
    assert_eq!(leaf, vec![false, false, true, true, true, true, true]);
    mark_leaves(&entries, &steps, &mut leaf);
    assert_eq!(leaf, vec![false, false, true, true, true, true, true]);
    let mut other = vec![false; 7];
    mark_leaves(&entries, &steps, &mut other);
    assert_eq!(other[..6], leaf[..6]);
    assert!(!other[6]);
    let mut untouched = vec![true, false];
    mark_leaves(&entries, &[LayoutStep::Place(5), LayoutStep::Leave], &mut untouched);
    assert_eq!(untouched, vec![true, false]);
}

#[test]
fn pixels_are_filled() {
    let mut pix = vec![9u8; 3 * 3 * 4];
    fill_pixels([1, 2, 3, 4], 1, 1, 3, 2, 3, &mut pix);
    for (b, &v) in pix.iter().enumerate() {
        let (x, y) = ((b / 4) % 3, b / 12);
        if y == 1 && x >= 1 {
            assert_eq!(v as usize, b % 4 + 1);
        } else {
            assert_eq!(v, 9);
        }
    }
    let before = pix.clone();
    fill_pixels([0; 4], 2, 0, 1, 3, 3, &mut pix);
    fill_pixels([0; 4], 0, 3, 3, 0, 3, &mut pix);
    assert_eq!(pix, before);
}

#[test]
fn only_marked_areas_are_drawn() {
    let area = |x0: usize, y0: usize, x1: usize, y1: usize| Area { x0, y0, x1, y1 };
    let areas = vec![area(0, 0, 1, 1), area(1, 0, 2, 1), area(0, 1, 2, 2)];
    let mut pix = vec![9u8; 16];
    draw_leaves([1, 2, 3, 4], &areas, &[true, false], 2, &mut pix);
    assert_eq!(pix, vec![1, 2, 3, 4, 9, 9, 9, 9, 9, 9, 9, 9, 9, 9, 9, 9]);
    draw_leaves([5; 4], &areas, &[false, false, true], 2, &mut pix);
    assert_eq!(pix, vec![1, 2, 3, 4, 9, 9, 9, 9, 5, 5, 5, 5, 5, 5, 5, 5]);
}

#[test]
fn areas_fit_or_not() {
    let area = |x0: usize, y0: usize, x1: usize, y1: usize| Area { x0, y0, x1, y1 };
    assert!(area(0, 0, 2, 2).fits_in(2, 16));
    assert!(!area(0, 0, 2, 2).fits_in(2, 15));
    assert!(!area(0, 0, 3, 2).fits_in(2, 16));
    assert!(area(5, 5, 5, 9).fits_in(2, 0));
    assert!(area(5, 5, 9, 5).fits_in(2, 0));
    assert!(!area(0, 0, usize::MAX, usize::MAX).fits_in(usize::MAX, usize::MAX));
    assert!(!area(0, 0, usize::MAX, 1).fits_in(0, usize::MAX));
}

#[test]
fn what_can_be_shown_and_laid_out() {
    let entries = sample();
    assert!(can_show(&entries));
    assert!(can_lay_out(&entries));
    assert!(can_show(&[]));
    assert!(!can_lay_out(&[]));

    // a circle below a folded directory is not met when showing
    let mut circle = sample();
    circle[3].children = vec![1];
    assert!(can_show(&circle));
    assert!(!can_lay_out(&circle));
    circle[1].expanded = true;
    assert!(can_show(&circle));
    circle[3].expanded = true;
    assert!(!can_show(&circle));

    // the same entry twice is no circle, an index past the end is refused
    let mut twice = sample();
    twice[2].children = vec![3, 3];
    assert!(can_lay_out(&twice));
    assert_eq!(layout_plan(&twice).iter().filter(|s| **s == LayoutStep::Enter(3)).count(), 3);
    twice[3].children = vec![6];
    assert!(!can_lay_out(&twice));

    // entries that are not reached do not matter
    let mut apart = sample();
    apart.push(found_entry(6, path("/q"), 0, false));
    apart[6].children = vec![6, 99];
    apart[6].expanded = true;
    assert!(can_show(&apart) && can_lay_out(&apart));
    assert_eq!(display_entries(&apart).len(), 3);

    let mut itself = sample();
    itself[0].children.push(0);
    assert!(!can_show(&itself));
}
