//! One file or directory of the scanned tree.
use vstd::prelude::*;
use std::path::PathBuf;
use crate::paths::path_clone;

verus! {

/// A file or directory. Entries live in one list and refer to each other by
/// their index in it.
#[derive(Debug)]
pub struct Entry {
    /// Index of the directory that holds this entry; an index past the end of
    /// the list for an entry that has none.
    pub parent: usize,
    /// Bytes taken by the entry and, for a directory, by the files below it.
    pub size: u64,
    pub path: PathBuf,
    /// Indices of the entries directly below this one.
    pub children: Vec<usize>,
    /// Number of files at or below this entry.
    pub num_files: u64,
    pub is_file: bool,
    /// Whether the directory is shown unfolded.
    pub expanded: bool,
}

/// What an [`Entry`] holds, with its children as a sequence.
#[verifier::ext_equal]
pub struct EntryModel {
    pub parent: usize,
    pub size: u64,
    pub path: PathBuf,
    pub children: Seq<usize>,
    pub num_files: u64,
    pub is_file: bool,
    pub expanded: bool,
}

impl View for Entry {
    type V = EntryModel;

    open spec fn view(&self) -> EntryModel {
        EntryModel {
            parent: self.parent,
            size: self.size,
            path: self.path,
            children: self.children@,
            num_files: self.num_files,
            is_file: self.is_file,
            expanded: self.expanded,
        }
    }
}

/// What a list of entries holds.
pub open spec fn model(entries: Seq<Entry>) -> Seq<EntryModel> {
    entries.map_values(|e: Entry| e@)
}

/// The parent of each entry.
pub open spec fn parents(entries: Seq<EntryModel>) -> Seq<usize> {
    entries.map_values(|e: EntryModel| e.parent)
}

/// The children of each entry.
pub open spec fn kids(entries: Seq<EntryModel>) -> Seq<Seq<usize>> {
    entries.map_values(|e: EntryModel| e.children)
}

/// The sizes of the entries with these indices.
pub open spec fn sizes_of(entries: Seq<EntryModel>, indices: Seq<usize>) -> Seq<u64> {
    indices.map_values(|c: usize| entries[c as int].size)
}

/// The entry that a scan starts from.
pub open spec fn root_model(path: PathBuf, is_file: bool, len: u64) -> EntryModel {
    EntryModel {
        parent: usize::MAX,
        size: if is_file {
            len
        } else {
            0
        },
        path,
        children: Seq::empty(),
        num_files: if is_file {
            1
        } else {
            0
        },
        is_file,
        expanded: true,
    }
}

/// A newly found entry below the directory with index `parent`.
pub open spec fn found_model(parent: usize, path: PathBuf, size: u64, is_file: bool) -> EntryModel {
    EntryModel {
        parent,
        size,
        path,
        children: Seq::empty(),
        num_files: if is_file {
            1
        } else {
            0
        },
        is_file,
        expanded: false,
    }
}

impl Clone for Entry {
    fn clone(&self) -> (copy: Self)
        ensures
            copy@ == self@,
            copy.parent == self.parent,
            copy.size == self.size,
            copy.path == self.path,
            copy.children@ == self.children@,
            copy.num_files == self.num_files,
            copy.is_file == self.is_file,
            copy.expanded == self.expanded,
    {
        let children = self.children.clone();
        assert(children@ =~= self.children@);
        Entry {
            parent: self.parent,
            size: self.size,
            path: path_clone(&self.path),
            children,
            num_files: self.num_files,
            is_file: self.is_file,
            expanded: self.expanded,
        }
    }
}

/// The entry that a scan of `path` starts from. A file counts itself; a
/// directory counts nothing yet. It belongs to no directory and is unfolded.
pub fn root_entry(path: PathBuf, is_file: bool, len: u64) -> (entry: Entry)
    ensures
        entry@ == root_model(path, is_file, len),
        entry.parent == usize::MAX,
        entry.path == path,
        entry.is_file == is_file,
        entry.expanded,
        entry.children@.len() == 0,
        is_file ==> entry.size == len && entry.num_files == 1,
        !is_file ==> entry.size == 0 && entry.num_files == 0,
{
    Entry {
        parent: usize::MAX,
        size: if is_file {
            len
        } else {
            0
        },
        num_files: if is_file {
            1
        } else {
            0
        },
        children: Vec::new(),
        path,
        is_file,
        expanded: true,
    }
}

/// A newly found entry below the directory with index `parent`.
pub fn found_entry(parent: usize, path: PathBuf, size: u64, is_file: bool) -> (entry: Entry)
    ensures
        entry@ == found_model(parent, path, size, is_file),
        entry.parent == parent,
        entry.path == path,
        entry.size == size,
        entry.is_file == is_file,
        !entry.expanded,
        entry.children@.len() == 0,
        is_file ==> entry.num_files == 1,
        !is_file ==> entry.num_files == 0,
{
    Entry {
        parent,
        size,
        num_files: if is_file {
            1
        } else {
            0
        },
        path,
        children: Vec::new(),
        is_file,
        expanded: false,
    }
}

/// Everything that an entry holds is in its model, and nothing else.
pub proof fn law_model_holds_every_field(entries: Seq<Entry>)
    ensures
        model(entries).len() == entries.len(),
        forall|i: int|
            0 <= i < entries.len() ==> {
                &&& (#[trigger] model(entries)[i]).parent == entries[i].parent
                &&& model(entries)[i].size == entries[i].size
                &&& model(entries)[i].path == entries[i].path
                &&& model(entries)[i].children == entries[i].children@
                &&& model(entries)[i].num_files == entries[i].num_files
                &&& model(entries)[i].is_file == entries[i].is_file
                &&& model(entries)[i].expanded == entries[i].expanded
            },
{
}

/// Parents, children and sizes are listed entry by entry.
pub proof fn law_lists_go_entry_by_entry(e: Seq<EntryModel>, list: Seq<usize>)
    ensures
        parents(e).len() == e.len(),
        kids(e).len() == e.len(),
        forall|i: int| 0 <= i < e.len() ==> #[trigger] parents(e)[i] == e[i].parent,
        forall|i: int| 0 <= i < e.len() ==> #[trigger] kids(e)[i] == e[i].children,
        sizes_of(e, list).len() == list.len(),
        forall|i: int|
            0 <= i < list.len() ==> #[trigger] sizes_of(e, list)[i] == e[list[i] as int].size,
{
}

/// The entry that a scan starts from belongs to no directory and is unfolded; a file
/// counts itself, a directory nothing yet.
pub proof fn law_root_model(path: PathBuf, is_file: bool, len: u64)
    ensures
        root_model(path, is_file, len).parent == usize::MAX,
        root_model(path, is_file, len).path == path,
        root_model(path, is_file, len).is_file == is_file,
        root_model(path, is_file, len).expanded,
        root_model(path, is_file, len).children.len() == 0,
        is_file ==> root_model(path, is_file, len).size == len && root_model(
            path,
            is_file,
            len,
        ).num_files == 1,
        !is_file ==> root_model(path, is_file, len).size == 0 && root_model(
            path,
            is_file,
            len,
        ).num_files == 0,
{
}

/// What is found is folded, has its own size and nothing below it yet; a file counts
/// itself.
pub proof fn law_found_model(parent: usize, path: PathBuf, size: u64, is_file: bool)
    ensures
        found_model(parent, path, size, is_file).parent == parent,
        found_model(parent, path, size, is_file).path == path,
        found_model(parent, path, size, is_file).size == size,
        found_model(parent, path, size, is_file).is_file == is_file,
        !found_model(parent, path, size, is_file).expanded,
        found_model(parent, path, size, is_file).children.len() == 0,
        is_file ==> found_model(parent, path, size, is_file).num_files == 1,
        !is_file ==> found_model(parent, path, size, is_file).num_files == 0,
{
}

} // verus!
