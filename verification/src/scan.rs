//! Building the tree while directories are being read.
use vstd::prelude::*;
use std::path::PathBuf;
use crate::entry::{found_entry, found_model, model, parents, root_entry, root_model, Entry, EntryModel};
use crate::file_types::{bytes_in_all, bytes_of, law_recorded_adds_up};
use crate::file_types::{has_room, law_room, recorded, FileTypes, TypeRow};
use crate::paths::{file_type, file_type_of, path_clone};
use crate::progress::ProgressState;
use crate::shape::{climb, climb_ends, is_above, is_tree, lemma_climb_short, met_before};
use crate::shape::{lemma_climb_distinct, lemma_climb_next, lemma_climb_stays_outside};
use crate::totals::{is_consistent, law_insert_keeps_consistent, law_insert_keeps_tree};
use crate::totals::law_tree_can_insert;

verus! {

/// Number of workers that read directories at the same time.
pub const NTASKS: usize = 8;

/// Everything that is known about a scanned directory.
#[derive(Debug)]
pub struct DirectoryTreeData {
    pub entries: Vec<Entry>,
    pub file_types: FileTypes,
}

/// What is left to do for an entry that was put into the tree.
pub enum ScanAction {
    /// Nothing: it was a file.
    Done,
    /// The directory at `path`, now the entry with this index, is to be read.
    ReadDirectory { index: usize, path: PathBuf },
}

/// One answer got while reading a directory.
pub enum ListingEvent {
    /// Something with these metadata lies in the directory.
    Found { path: PathBuf, size: u64, is_dir: bool, is_file: bool },
    /// Something lies in the directory whose metadata could not be read.
    NoMetadata,
    /// The next item could not be read.
    Failed,
    /// The directory holds nothing more.
    End,
}

/// What to do about a [`ListingEvent`].
pub enum ListingAction {
    /// Hand this new entry to the workers.
    Queue(Entry),
    /// Go on with the next item.
    Skip,
    /// The directory has been read.
    Stop,
}

/// The list with `x` at its end, and listed as a child by its parent.
pub open spec fn linked(e: Seq<EntryModel>, x: EntryModel) -> Seq<EntryModel> {
    let longer = e.push(x);
    let p = x.parent as int;
    longer.update(
        p,
        EntryModel { children: longer[p].children.push(e.len() as usize), ..longer[p] },
    )
}

/// An entry that has got one more file, of `size` bytes, below it.
pub open spec fn grown(m: EntryModel, size: u64) -> EntryModel {
    EntryModel { size: (m.size + size) as u64, num_files: (m.num_files + 1) as u64, ..m }
}

/// The list after `x` was put into the tree: it is linked to its parent, and if
/// it is a file, everything above it has grown by it.
pub open spec fn inserted(e: Seq<EntryModel>, x: EntryModel) -> Seq<EntryModel> {
    let l = linked(e, x);
    if x.is_file {
        Seq::new(
            l.len(),
            |k: int|
                if is_above(parents(e.push(x)), x.parent as int, k) {
                    grown(l[k], x.size)
                } else {
                    l[k]
                },
        )
    } else {
        l
    }
}

/// `x` can be put into the list: its parent is there, and if it is a file, the
/// way up from its parent ends and nothing on it grows past a 64-bit number.
pub open spec fn can_insert(e: Seq<EntryModel>, x: EntryModel) -> bool {
    let longer = e.push(x);
    &&& x.parent < longer.len()
    &&& x.is_file ==> {
        &&& climb_ends(parents(longer), x.parent as int)
        &&& forall|k: int| #[trigger]
            is_above(parents(longer), x.parent as int, k) ==> longer[k].size + x.size <= u64::MAX
                && longer[k].num_files + 1 <= u64::MAX
    }
}

/// `x` can be counted in: the list can grow, `x` can be put into it, and if it is a
/// file, the row for its type does not grow past a 64-bit number.
pub open spec fn has_place(e: Seq<EntryModel>, rows: Seq<TypeRow>, x: EntryModel) -> bool {
    &&& e.len() < usize::MAX
    &&& can_insert(e, x)
    &&& x.is_file ==> has_room(rows, file_type_of(x.path), x.size)
}

/// What is left to do for the entry `x` that was put at `index` into the list.
pub open spec fn left_to_do(x: EntryModel, index: usize) -> ScanAction {
    if x.is_file {
        ScanAction::Done
    } else {
        ScanAction::ReadDirectory { index, path: x.path }
    }
}

/// What taking in `x` made of the data: if there was a place for it, the tree and
/// the file types have it, and what was sound stays sound; else nothing changed.
pub open spec fn took_in(
    before: DirectoryTreeData,
    after: DirectoryTreeData,
    x: EntryModel,
    action: Option<ScanAction>,
) -> bool {
    let old_list = model(before.entries@);
    let new_list = model(after.entries@);
    match action {
        Some(next) => {
            &&& next == left_to_do(x, old_list.len() as usize)
            &&& new_list == inserted(old_list, x)
            &&& after.file_types@ == types_with(before.file_types@, x)
            &&& is_tree(old_list) && x.parent < old_list.len() && x.children.len() == 0
                ==> is_tree(new_list)
            &&& is_consistent(old_list, before.file_types@) && x == found_model(
                x.parent,
                x.path,
                x.size,
                x.is_file,
            ) && x.parent < old_list.len() && !old_list[x.parent as int].is_file ==> is_consistent(
                new_list,
                after.file_types@,
            )
        },
        None => after == before,
    }
}

/// Something that happens during a scan and may change its progress.
pub enum ScanEvent {
    /// Reading a directory gave this answer.
    Listed(ListingEvent),
    /// This entry was taken from the queue and put into the tree.
    Accepted(EntryModel),
    /// A directory that was put into the tree has been read.
    DirectoryRead,
}

/// The progress after an event. What is found counts as work; a file is done when
/// it is in the tree, a directory when it has been read.
pub open spec fn progress_after(progress: ProgressState, event: ScanEvent) -> ProgressState {
    match event {
        ScanEvent::Listed(ListingEvent::Found { .. }) => ProgressState {
            count: progress.count.wrapping_add(1),
            ..progress
        },
        ScanEvent::Listed(_) => progress,
        ScanEvent::Accepted(x) => if x.is_file {
            ProgressState { done: progress.done.wrapping_add(1), ..progress }
        } else {
            progress
        },
        ScanEvent::DirectoryRead => ProgressState {
            done: progress.done.wrapping_add(1),
            ..progress
        },
    }
}

/// The file types after `x` was put into the tree.
pub open spec fn types_with(rows: Seq<TypeRow>, x: EntryModel) -> Seq<TypeRow> {
    if x.is_file {
        recorded(rows, file_type_of(x.path), x.size)
    } else {
        rows
    }
}

/// An empty list of entries.
pub fn empty_entry_list() -> (entries: Vec<Entry>)
    ensures
        model(entries@) == Seq::<EntryModel>::empty(),
        entries@.len() == 0,
{
    let entries: Vec<Entry> = Vec::new();
    assert(model(entries@) =~= Seq::<EntryModel>::empty());
    entries
}

/// The list that a scan of `path` starts from, given what the metadata of
/// `path` say of it.
pub fn directory_entry_list(path: PathBuf, is_file: bool, len: u64) -> (entries: Vec<Entry>)
    ensures
        model(entries@) == seq![root_model(path, is_file, len)],
        entries@.len() == 1,
        entries@[0].parent == usize::MAX,
        entries@[0].path == path,
        entries@[0].is_file == is_file,
        entries@[0].expanded,
        entries@[0].children@.len() == 0,
        entries@[0].size == if is_file {
            len
        } else {
            0
        },
        entries@[0].num_files == if is_file {
            1u64
        } else {
            0
        },
{
    let mut entries: Vec<Entry> = Vec::new();
    entries.push(root_entry(path, is_file, len));
    assert(model(entries@) =~= seq![root_model(path, is_file, len)]);
    entries
}

/// Replaces the list by the one that a scan of `path` starts from.
pub fn recreate_directory_entry_list(
    path: PathBuf,
    is_file: bool,
    len: u64,
    entries: &mut Vec<Entry>,
)
    ensures
        model(final(entries)@) == seq![root_model(path, is_file, len)],
        final(entries)@.len() == 1,
        final(entries)@[0].parent == usize::MAX,
        final(entries)@[0].path == path,
        final(entries)@[0].is_file == is_file,
        final(entries)@[0].expanded,
        final(entries)@[0].children@.len() == 0,
        final(entries)@[0].size == if is_file {
            len
        } else {
            0
        },
        final(entries)@[0].num_files == if is_file {
            1u64
        } else {
            0
        },
{
    entries.clear();
    entries.push(root_entry(path, is_file, len));
    assert(model(entries@) =~= seq![root_model(path, is_file, len)]);
}

impl DirectoryTreeData {
    /// Nothing was scanned yet.
    pub fn new() -> (data: DirectoryTreeData)
        ensures
            model(data.entries@) == Seq::<EntryModel>::empty(),
            data.file_types@ == Seq::<TypeRow>::empty(),
            data.entries@.len() == 0,
    {
        DirectoryTreeData { entries: empty_entry_list(), file_types: FileTypes::new() }
    }

    /// The start of a scan of `path`, given what its metadata say of it.
    pub fn from_root_path(path: PathBuf, is_file: bool, len: u64) -> (data: DirectoryTreeData)
        ensures
            model(data.entries@) == seq![root_model(path, is_file, len)],
            data.file_types@ == Seq::<TypeRow>::empty(),
            data.entries@.len() == 1,
            data.entries@[0].parent == usize::MAX,
            data.entries@[0].path == path,
            data.entries@[0].is_file == is_file,
            data.entries@[0].expanded,
            data.entries@[0].children@.len() == 0,
            data.entries@[0].size == if is_file {
                len
            } else {
                0
            },
            data.entries@[0].num_files == if is_file {
                1u64
            } else {
                0
            },
    {
        DirectoryTreeData {
            entries: directory_entry_list(path, is_file, len),
            file_types: FileTypes::new(),
        }
    }

    /// Starts over with a scan of `path`.
    pub fn recreate_from_root_path(&mut self, path: PathBuf, is_file: bool, len: u64)
        ensures
            model(final(self).entries@) == seq![root_model(path, is_file, len)],
            final(self).file_types@ == Seq::<TypeRow>::empty(),
            final(self).entries@.len() == 1,
            final(self).entries@[0].parent == usize::MAX,
            final(self).entries@[0].path == path,
            final(self).entries@[0].is_file == is_file,
            final(self).entries@[0].expanded,
            final(self).entries@[0].children@.len() == 0,
            final(self).entries@[0].size == if is_file {
                len
            } else {
                0
            },
            final(self).entries@[0].num_files == if is_file {
                1u64
            } else {
                0
            },
    {
        recreate_directory_entry_list(path, is_file, len, &mut self.entries);
        self.file_types.clear();
    }

    /// Tells whether a found entry can be put into the tree: its parent is there,
    /// and if it is a file, the way up from it ends and no number grows too large.
    pub fn can_accept(&self, entry: &Entry) -> (possible: bool)
        ensures
            possible == has_place(model(self.entries@), self.file_types@, entry@),
    {
        let n: usize = self.entries.len();
        if n == usize::MAX || entry.parent > n {
            return false;
        }
        if !entry.is_file {
            return true;
        }
        let ghost longer = model(self.entries@).push(entry@);
        let ghost ps = parents(longer);
        let start: usize = entry.parent;
        let mut j: usize = start;
        let mut steps: usize = 0;
        while j <= n
            invariant
                n == self.entries@.len(),
                n < usize::MAX,
                longer == model(self.entries@).push(entry@),
                ps == parents(longer),
                entry.is_file,
                entry.parent == start,
                steps <= n + 1,
                j == climb(ps, start as int, steps as nat),
                forall|k: int| #[trigger]
                    met_before(ps, start as int, steps as nat, k) ==> longer[k].size + entry.size
                        <= u64::MAX && longer[k].num_files + 1 <= u64::MAX,
            decreases n + 1 - steps,
        {
            if steps > n {
                proof {
                    if climb_ends(ps, start as int) {
                        lemma_climb_short(ps, start as int, steps as nat);
                    }
                }
                return false;
            }
            let here = if j == n {
                entry
            } else {
                &self.entries[j]
            };
            proof {
                assert(here@ == longer[j as int]);
                assert(is_above(ps, start as int, j as int));
                lemma_climb_next(ps, start as int, steps as nat);
                assert forall|k: int| #[trigger]
                    met_before(ps, start as int, (steps + 1) as nat, k) implies met_before(
                    ps,
                    start as int,
                    steps as nat,
                    k,
                ) || k == j by {
                    let s = choose|s: nat|
                        s < steps + 1 && #[trigger] climb(ps, start as int, s) == k;
                    assert(s < steps || s == steps);
                }
            }
            if here.size > u64::MAX - entry.size || here.num_files == u64::MAX {
                return false;
            }
            j = here.parent;
            steps = steps + 1;
        }
        proof {
            assert(climb_ends(ps, start as int));
            assert forall|k: int| #[trigger] is_above(ps, start as int, k) implies longer[k].size
                + entry.size <= u64::MAX && longer[k].num_files + 1 <= u64::MAX by {
                let d = choose|d: nat| #[trigger] climb(ps, start as int, d) == k;
                if d >= steps {
                    lemma_climb_stays_outside(ps, start as int, steps as nat, d);
                }
                assert(met_before(ps, start as int, steps as nat, k));
            }
        }
        self.file_types.can_record(&file_type(&entry.path), entry.size)
    }

    /// Puts a found entry into the tree and says what is left to do for it. A
    /// file is counted under its type and in every directory above it; a
    /// directory is to be read next.
    pub fn accept(&mut self, entry: Entry) -> (action: ScanAction)
        requires
            can_insert(model(old(self).entries@), entry@),
            entry.is_file ==> has_room(
                old(self).file_types@,
                file_type_of(entry.path),
                entry.size,
            ),
        ensures
            model(final(self).entries@) == inserted(model(old(self).entries@), entry@),
            final(self).file_types@ == types_with(old(self).file_types@, entry@),
            is_consistent(model(old(self).entries@), old(self).file_types@) && entry@
                == found_model(entry.parent, entry.path, entry.size, entry.is_file) && entry.parent
                < old(self).entries@.len() && !old(self).entries@[entry.parent as int].is_file
                ==> is_consistent(model(final(self).entries@), final(self).file_types@),
            action == left_to_do(entry@, old(self).entries@.len() as usize),
            entry.is_file <==> action is Done,
            !entry.is_file ==> action == (ScanAction::ReadDirectory {
                index: old(self).entries@.len() as usize,
                path: entry.path,
            }),
            final(self).entries@.len() == old(self).entries@.len() + 1,
            forall|k: int|
                0 <= k < old(self).entries@.len() ==> {
                    &&& (#[trigger] final(self).entries@[k]).path == old(self).entries@[k].path
                    &&& final(self).entries@[k].parent == old(self).entries@[k].parent
                    &&& final(self).entries@[k].is_file == old(self).entries@[k].is_file
                    &&& final(self).entries@[k].expanded == old(self).entries@[k].expanded
                    &&& final(self).entries@[k].children@ == if k == entry.parent {
                        old(self).entries@[k].children@.push(old(self).entries@.len() as usize)
                    } else {
                        old(self).entries@[k].children@
                    }
                },
            final(self).entries@[old(self).entries@.len() as int].path == entry.path,
            final(self).entries@[old(self).entries@.len() as int].parent == entry.parent,
            final(self).entries@[old(self).entries@.len() as int].is_file == entry.is_file,
            final(self).entries@[old(self).entries@.len() as int].expanded == entry.expanded,
    {
        proof {
            law_insert_entry_by_entry(model(self.entries@), entry@);
        }
        let ghost e = model(self.entries@);
        let ghost x = entry@;
        let ghost longer = e.push(x);
        let ghost ps = parents(longer);
        let parent: usize = entry.parent;
        let is_file: bool = entry.is_file;
        let size: u64 = entry.size;
        let path = path_clone(&entry.path);
        self.entries.push(entry);
        let n: usize = self.entries.len();
        let i: usize = n - 1;
        assert(model(self.entries@) =~= longer);
        proof {
            if is_consistent(e, self.file_types@) && x == found_model(x.parent, x.path, x.size, x.is_file)
                && parent < e.len() && !e[parent as int].is_file {
                law_insert_keeps_consistent(e, self.file_types@, parent, x.path, size, is_file);
            }
        }
        self.entries[parent].children.push(i);
        let ghost l = linked(e, x);
        assert(model(self.entries@) =~= l);
        if !is_file {
            return ScanAction::ReadDirectory { index: i, path };
        }
        self.file_types.record(file_type(&path), size);
        let mut j: usize = parent;
        let ghost mut t: nat = 0;
        let ghost end: nat = choose|d: nat| !(0 <= #[trigger] climb(ps, parent as int, d) < ps.len());
        while j < n
            invariant
                n == longer.len(),
                n == self.entries@.len(),
                ps == parents(longer),
                l == linked(e, x),
                longer == e.push(x),
                x.parent == parent,
                x.size == size,
                parent < n,
                climb_ends(ps, parent as int),
                !(0 <= climb(ps, parent as int, end) < n),
                j == climb(ps, parent as int, t),
                forall|k: int| #[trigger]
                    is_above(ps, parent as int, k) ==> longer[k].size + size <= u64::MAX
                        && longer[k].num_files + 1 <= u64::MAX,
                forall|k: int|
                    0 <= k < n ==> (#[trigger] self.entries@[k])@ == (if met_before(
                        ps,
                        parent as int,
                        t,
                        k,
                    ) {
                        grown(l[k], size)
                    } else {
                        l[k]
                    }),
                self.file_types@ == types_with(old(self).file_types@, x),
            decreases end - t,
        {
            proof {
                if t >= end {
                    lemma_climb_stays_outside(ps, parent as int, end, t);
                }
                assert(is_above(ps, parent as int, j as int));
                if met_before(ps, parent as int, t, j as int) {
                    let s = choose|s: nat| s < t && #[trigger] climb(ps, parent as int, s) == j;
                    lemma_climb_distinct(ps, parent as int, s, t);
                }
                lemma_climb_next(ps, parent as int, t);
                assert forall|k: int| met_before(ps, parent as int, t + 1, k) == (met_before(
                    ps,
                    parent as int,
                    t,
                    k,
                ) || k == j) by {
                    if met_before(ps, parent as int, t, k) {
                        let s = choose|s: nat| s < t && #[trigger] climb(ps, parent as int, s) == k;
                        assert(s < t + 1);
                    }
                }
            }
            let ghost before = self.entries@;
            assert(before[j as int]@ == l[j as int]);
            self.entries[j].size = self.entries[j].size + size;
            self.entries[j].num_files = self.entries[j].num_files + 1;
            j = self.entries[j].parent;
            proof {
                t = t + 1;
            }
        }
        proof {
            assert forall|k: int| 0 <= k < n implies met_before(ps, parent as int, t, k)
                == #[trigger] is_above(ps, parent as int, k) by {
                if is_above(ps, parent as int, k) {
                    let d = choose|d: nat| #[trigger] climb(ps, parent as int, d) == k;
                    if d >= t {
                        lemma_climb_stays_outside(ps, parent as int, t, d);
                    }
                }
            }
            assert(model(self.entries@) =~= inserted(e, x));
        }
        ScanAction::Done
    }

    /// Puts a found entry into the tree if there is a place for it. Otherwise
    /// nothing changes and nothing is returned.
    pub fn try_accept(&mut self, entry: Entry) -> (action: Option<ScanAction>)
        ensures
            action is Some <==> has_place(
                model(old(self).entries@),
                old(self).file_types@,
                entry@,
            ),
            took_in(*old(self), *final(self), entry@, action),
            action matches Some(next) ==> (entry.is_file <==> next is Done),
            action is Some && !entry.is_file ==> action == Some(
                ScanAction::ReadDirectory {
                    index: old(self).entries@.len() as usize,
                    path: entry.path,
                },
            ),
            action is None ==> *final(self) == *old(self),
    {
        if !self.can_accept(&entry) {
            return None;
        }
        proof {
            if is_tree(model(self.entries@)) && entry.parent < self.entries@.len()
                && entry.children@.len() == 0 {
                law_insert_keeps_tree(model(self.entries@), entry@);
            }
        }
        Some(self.accept(entry))
    }

    /// Handles an entry from the queue: it is put into the tree if there is a place
    /// for it, and if it was a file, it is done.
    pub fn handle_entry(&mut self, entry: Entry, progress: &mut ProgressState) -> (action: Option<
        ScanAction,
    >)
        ensures
            action is Some <==> has_place(
                model(old(self).entries@),
                old(self).file_types@,
                entry@,
            ),
            took_in(*old(self), *final(self), entry@, action),
            *final(progress) == if action is Some {
                progress_after(*old(progress), ScanEvent::Accepted(entry@))
            } else {
                *old(progress)
            },
            action matches Some(next) ==> (entry.is_file <==> next is Done),
            action is Some && !entry.is_file ==> action == Some(
                ScanAction::ReadDirectory {
                    index: old(self).entries@.len() as usize,
                    path: entry.path,
                },
            ),
            action is None ==> *final(self) == *old(self),
            final(progress).count == old(progress).count,
            final(progress).complete == old(progress).complete,
            final(progress).done == if action is Some && entry.is_file {
                old(progress).done.wrapping_add(1)
            } else {
                old(progress).done
            },
    {
        let is_file: bool = entry.is_file;
        let action = self.try_accept(entry);
        if action.is_some() && is_file {
            progress.finished_one();
        }
        action
    }
}

/// The directory of an entry that was handled has been read, or could not be: the
/// entry is done.
pub fn directory_read(progress: &mut ProgressState)
    ensures
        *final(progress) == progress_after(*old(progress), ScanEvent::DirectoryRead),
        final(progress).count == old(progress).count,
        final(progress).done == old(progress).done.wrapping_add(1),
        final(progress).complete == old(progress).complete,
{
    progress.finished_one();
}

/// Decides what to do about one answer got while reading the directory with
/// index `parent`. Whatever is found counts as work; directories and files
/// become entries, anything else is passed over. What cannot be read is passed
/// over uncounted.
pub fn listing_step(parent: usize, event: ListingEvent, progress: &mut ProgressState) -> (action:
    ListingAction)
    ensures
        *final(progress) == progress_after(*old(progress), ScanEvent::Listed(event)),
        final(progress).count == if event is Found {
            old(progress).count.wrapping_add(1)
        } else {
            old(progress).count
        },
        final(progress).done == old(progress).done,
        final(progress).complete == old(progress).complete,
        action matches ListingAction::Queue(entry) ==> event matches ListingEvent::Found {
            path,
            size,
            is_dir,
            is_file,
        } ==> {
            &&& entry.parent == parent
            &&& entry.path == path
            &&& entry.size == size
            &&& entry.is_file == !is_dir
            &&& entry.num_files == if is_dir {
                0u64
            } else {
                1
            }
            &&& entry.children@.len() == 0
            &&& !entry.expanded
        },
        match event {
            ListingEvent::Found { path, size, is_dir, is_file } => if is_dir || is_file {
                action matches ListingAction::Queue(entry) && entry@ == found_model(
                    parent,
                    path,
                    size,
                    !is_dir,
                )
            } else {
                action is Skip
            },
            ListingEvent::NoMetadata => action is Skip,
            ListingEvent::Failed => action is Skip,
            ListingEvent::End => action is Stop,
        },
{
    match event {
        ListingEvent::Found { path, size, is_dir, is_file } => {
            progress.found();
            if is_dir {
                ListingAction::Queue(found_entry(parent, path, size, false))
            } else if is_file {
                ListingAction::Queue(found_entry(parent, path, size, true))
            } else {
                ListingAction::Skip
            }
        },
        ListingEvent::NoMetadata => ListingAction::Skip,
        ListingEvent::Failed => ListingAction::Skip,
        ListingEvent::End => ListingAction::Stop,
    }
}

/// A scan is over when no entry waits to be handled and every worker is idle.
pub fn scan_finished(queue_empty: bool, waiting: usize) -> (finished: bool)
    ensures
        finished == (queue_empty && waiting == NTASKS),
{
    queue_empty && waiting == NTASKS
}

/// Nothing is left to do for a scan: no entry waits in the queue, none of those
/// queued is still pending, and every worker is idle. An entry is pending from
/// when it is queued until it is done: a file until it is in the tree, a directory
/// until it has been read.
pub fn nothing_left(queue_empty: bool, pending: usize, waiting: usize) -> (over: bool)
    ensures
        over == (queue_empty && pending == 0 && waiting == NTASKS),
{
    pending == 0 && scan_finished(queue_empty, waiting)
}

/// A directory that was put into the tree is to be read, wherever it lies, with the
/// index that it got and its own path; for a file, and only for a file, nothing is
/// left to do.
pub proof fn law_every_directory_is_read(x: EntryModel, index: usize)
    ensures
        x.is_file <==> left_to_do(x, index) is Done,
        !x.is_file ==> left_to_do(x, index) == (ScanAction::ReadDirectory { index, path: x.path }),
{
}

/// Putting `x` into the list adds it at the end, lists it with its parent, and adds
/// a file's bytes and one file to every entry on the way up from its parent; nothing
/// else changes.
pub proof fn law_insert_entry_by_entry(e: Seq<EntryModel>, x: EntryModel)
    requires
        can_insert(e, x),
    ensures
        inserted(e, x).len() == e.len() + 1,
        forall|k: int|
            0 <= k <= e.len() ==> {
                let was = if k < e.len() {
                    e[k]
                } else {
                    x
                };
                let grows = x.is_file && is_above(parents(e.push(x)), x.parent as int, k);
                &&& (#[trigger] inserted(e, x)[k]).path == was.path
                &&& inserted(e, x)[k].parent == was.parent
                &&& inserted(e, x)[k].is_file == was.is_file
                &&& inserted(e, x)[k].expanded == was.expanded
                &&& inserted(e, x)[k].children == if k == x.parent {
                    was.children.push(e.len() as usize)
                } else {
                    was.children
                }
                &&& inserted(e, x)[k].size == was.size + if grows {
                    x.size as int
                } else {
                    0
                }
                &&& inserted(e, x)[k].num_files == was.num_files + if grows {
                    1int
                } else {
                    0
                }
            },
{
    let longer = e.push(x);
    assert forall|k: int| 0 <= k <= e.len() && x.is_file && is_above(
        parents(longer),
        x.parent as int,
        k,
    ) implies longer[k].size + x.size <= u64::MAX && longer[k].num_files + 1 <= u64::MAX by {}
}

/// In a tree, a new file makes its directory grow by its bytes and by one file, and
/// what makes a directory grow makes the directory around it grow alike, up to the
/// entry with index 0. Nothing grows but by that, and a directory makes nothing grow.
pub proof fn law_growth_climbs(e: Seq<EntryModel>, x: EntryModel)
    requires
        is_tree(e),
        e.len() < usize::MAX,
        x.parent < e.len(),
        can_insert(e, x),
    ensures
        inserted(e, x)[e.len() as int].size == x.size,
        inserted(e, x)[e.len() as int].num_files == x.num_files,
        !x.is_file ==> forall|k: int|
            0 <= k < e.len() ==> (#[trigger] inserted(e, x)[k]).size == e[k].size && inserted(
                e,
                x,
            )[k].num_files == e[k].num_files,
        x.is_file ==> {
            let f = inserted(e, x);
            &&& f[x.parent as int].num_files == e[x.parent as int].num_files + 1
            &&& f[0].num_files == e[0].num_files + 1
            &&& forall|k: int|
                0 <= k < e.len() ==> {
                    ||| (#[trigger] f[k]).size == e[k].size && f[k].num_files == e[k].num_files
                    ||| f[k].size == e[k].size + x.size && f[k].num_files == e[k].num_files + 1
                }
            &&& forall|k: int|
                1 <= k < e.len() && (#[trigger] f[k]).num_files != e[k].num_files ==> f[e[k].parent as int].num_files
                    != e[e[k].parent as int].num_files
            &&& forall|k: int|
                0 <= k < e.len() && k != x.parent && (#[trigger] f[k]).num_files != e[k].num_files
                    ==> exists|c: int|
                    1 <= c < e.len() && (#[trigger] e[c]).parent == k && f[c].num_files
                        != e[c].num_files
        },
{
    let f = inserted(e, x);
    let ps = parents(e.push(x));
    let p = x.parent as int;
    law_insert_entry_by_entry(e, x);
    assert(climb(ps, p, 0) == p);
    assert(is_above(ps, p, p));
    // the way up only meets entries of the tree
    assert forall|d: nat| climb(ps, p, d) != e.len() by {
        lemma_climbs_in_tree(e, x, d);
    }
    assert forall|k: int| 1 <= k < e.len() && is_above(ps, p, k) implies #[trigger] is_above(
        ps,
        p,
        e[k].parent as int,
    ) by {
        let d = choose|d: nat| #[trigger] climb(ps, p, d) == k;
        lemma_climb_next(ps, p, d);
        assert(ps[k] == e[k].parent);
    }
    lemma_reaches_first(e, x, p);
    assert forall|k: int| 0 <= k < e.len() && k != p && is_above(ps, p, k) implies exists|c: int|
        1 <= c < e.len() && (#[trigger] e[c]).parent == k && is_above(ps, p, c) by {
        let d = choose|d: nat| #[trigger] climb(ps, p, d) == k;
        let c = climb(ps, p, (d - 1) as nat);
        if !(0 <= c < ps.len()) {
            lemma_climb_stays_outside(ps, p, (d - 1) as nat, d);
        }
        lemma_climb_next(ps, p, (d - 1) as nat);
        lemma_climbs_in_tree(e, x, (d - 1) as nat);
        assert(e[c].parent == k);
        assert(e[0].parent == usize::MAX);
        assert(is_above(ps, p, c));
    }
    if x.is_file {
        assert forall|k: int|
            1 <= k < e.len() && (#[trigger] f[k]).num_files != e[k].num_files implies f[e[k].parent as int].num_files
            != e[e[k].parent as int].num_files by {
            assert(e[k].parent < k);
            assert(is_above(ps, p, e[k].parent as int));
            assert(f[e[k].parent as int].num_files == e[e[k].parent as int].num_files + 1);
        }
        assert forall|k: int|
            0 <= k < e.len() && k != x.parent && (#[trigger] f[k]).num_files
                != e[k].num_files implies exists|c: int|
            1 <= c < e.len() && (#[trigger] e[c]).parent == k && f[c].num_files != e[c].num_files by {
            let c = choose|c: int|
                1 <= c < e.len() && (#[trigger] e[c]).parent == k && is_above(ps, p, c);
            assert(f[c].num_files == e[c].num_files + 1);
        }
        assert(f[0].num_files == e[0].num_files + 1);
        assert(f[p].num_files == e[p].num_files + 1);
    }
}

proof fn lemma_climbs_in_tree(e: Seq<EntryModel>, x: EntryModel, d: nat)
    requires
        is_tree(e),
        e.len() < usize::MAX,
        x.parent < e.len(),
    ensures
        climb(parents(e.push(x)), x.parent as int, d) != e.len(),
    decreases d,
{
    let ps = parents(e.push(x));
    let p = x.parent as int;
    if d > 0 {
        let b = (d - 1) as nat;
        lemma_climbs_in_tree(e, x, b);
        let c = climb(ps, p, b);
        if 0 <= c < ps.len() {
            lemma_climb_next(ps, p, b);
            assert(c < e.len());
            assert(ps[c] == e[c].parent);
            if c > 0 {
                assert(e[c].parent < c);
            }
        } else {
            lemma_climb_stays_outside(ps, p, b, d);
        }
    }
}

proof fn lemma_reaches_first(e: Seq<EntryModel>, x: EntryModel, j: int)
    requires
        is_tree(e),
        x.parent < e.len(),
        0 <= j < e.len(),
    ensures
        is_above(parents(e.push(x)), j, 0),
    decreases j,
{
    let ps = parents(e.push(x));
    if j == 0 {
        assert(climb(ps, 0, 0) == 0);
    } else {
        assert(e[j].parent < j);
        lemma_reaches_first(e, x, e[j].parent as int);
        let d = choose|d: nat| #[trigger] climb(ps, e[j].parent as int, d) == 0;
        assert(climb(ps, j, d + 1) == climb(ps, e[j].parent as int, d));
    }
}

/// In a tree there is a place for every directory whose parent is there, and for
/// every file whose parent is there as long as neither what is above it nor its type
/// grows past 64 bits.
pub proof fn law_place_in_tree(e: Seq<EntryModel>, rows: Seq<TypeRow>, x: EntryModel)
    requires
        is_tree(e),
        e.len() < usize::MAX,
        x.parent < e.len(),
        x.is_file ==> forall|k: int| #[trigger]
            is_above(parents(e), x.parent as int, k) ==> e[k].size + x.size <= u64::MAX
                && e[k].num_files + 1 <= u64::MAX,
        x.is_file ==> forall|i: int|
            0 <= i < rows.len() && (#[trigger] rows[i]).0 == file_type_of(x.path) ==> rows[i].1
                + x.size <= u64::MAX,
    ensures
        has_place(e, rows, x),
{
    law_room(rows, file_type_of(x.path), x.size);
    law_tree_can_insert(e, x);
}

/// There is no place for an entry whose parent is not there, nor for a file that
/// makes a number grow past 64 bits.
pub proof fn law_no_place(e: Seq<EntryModel>, rows: Seq<TypeRow>, x: EntryModel)
    requires
        has_place(e, rows, x),
    ensures
        x.parent <= e.len(),
        x.is_file && x.parent < e.len() ==> e[x.parent as int].size + x.size <= u64::MAX
            && e[x.parent as int].num_files + 1 <= u64::MAX,
        x.is_file ==> forall|i: int|
            0 <= i < rows.len() && (#[trigger] rows[i]).0 == file_type_of(x.path) ==> rows[i].1
                + x.size <= u64::MAX,
{
    law_room(rows, file_type_of(x.path), x.size);
    let ps = parents(e.push(x));
    assert(climb(ps, x.parent as int, 0) == x.parent);
    assert(is_above(ps, x.parent as int, x.parent as int));
}

/// Taking in an entry puts it at the end of the list, with everything about the
/// others but their numbers and their children as it was, and counts a file under
/// its type; where it is refused, nothing changes.
pub proof fn law_took_in(
    before: DirectoryTreeData,
    after: DirectoryTreeData,
    x: EntryModel,
    action: Option<ScanAction>,
)
    requires
        took_in(before, after, x, action),
        action is Some ==> has_place(model(before.entries@), before.file_types@, x),
    ensures
        action is None ==> after == before,
        action matches Some(next) ==> {
            &&& x.is_file <==> next is Done
            &&& !x.is_file ==> next == (ScanAction::ReadDirectory {
                index: before.entries@.len() as usize,
                path: x.path,
            })
            &&& !x.is_file ==> after.file_types@ == before.file_types@
            &&& x.is_file ==> after.file_types@ == recorded(
                before.file_types@,
                file_type_of(x.path),
                x.size,
            )
            &&& after.entries@.len() == before.entries@.len() + 1
            &&& after.entries@[before.entries@.len() as int].path == x.path
            &&& after.entries@[before.entries@.len() as int].parent == x.parent
            &&& after.entries@[before.entries@.len() as int].is_file == x.is_file
            &&& forall|k: int|
                0 <= k < before.entries@.len() ==> {
                    &&& (#[trigger] after.entries@[k]).path == before.entries@[k].path
                    &&& after.entries@[k].parent == before.entries@[k].parent
                    &&& after.entries@[k].is_file == before.entries@[k].is_file
                    &&& after.entries@[k].expanded == before.entries@[k].expanded
                    &&& after.entries@[k].children@ == if k == x.parent {
                        before.entries@[k].children@.push(before.entries@.len() as usize)
                    } else {
                        before.entries@[k].children@
                    }
                }
        },
{
    if action is Some {
        let e = model(before.entries@);
        law_insert_entry_by_entry(e, x);
        assert(model(after.entries@) == inserted(e, x));
        assert(model(after.entries@).len() == after.entries@.len());
        assert forall|k: int| 0 <= k < after.entries@.len() implies (#[trigger] after.entries@[k])@
            == inserted(e, x)[k] by {
            assert(model(after.entries@)[k] == after.entries@[k]@);
        }
        assert forall|k: int| 0 <= k < before.entries@.len() implies (#[trigger] before.entries@[k])@
            == e[k] by {}
    }
}

/// A file is counted under its own type with its own size; a directory is not counted
/// under any.
pub proof fn law_files_count_under_their_type(
    rows: Seq<TypeRow>,
    x: EntryModel,
    key: Option<Seq<char>>,
)
    requires
        x.is_file ==> has_room(rows, file_type_of(x.path), x.size),
    ensures
        !x.is_file ==> types_with(rows, x) == rows,
        bytes_of(types_with(rows, x), key) == bytes_of(rows, key) + if x.is_file && file_type_of(
            x.path,
        ) == key {
            x.size as int
        } else {
            0
        },
        bytes_in_all(types_with(rows, x)) == bytes_in_all(rows) + if x.is_file {
            x.size as int
        } else {
            0
        },
{
    if x.is_file {
        law_recorded_adds_up(rows, file_type_of(x.path), x.size, key);
    }
}

} // verus!
