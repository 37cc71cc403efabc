//! What the numbers in a scanned tree mean, and that every entry put into the
//! tree keeps it so.
use vstd::prelude::*;
use std::path::PathBuf;
use crate::entry::{found_model, parents, root_model, EntryModel};
use crate::file_types::{bytes_in_all, bytes_of, has_room, law_recorded_adds_up, one_row_each, TypeRow};
use crate::paths::file_type_of;
use crate::scan::{can_insert, has_place, inserted, linked, types_with};
use crate::shape::{climb, is_above, is_tree, law_tree_climbs_end, law_tree_hangs_from_root};
use crate::shape::{lemma_climb_next, lists_its_children};
use crate::sums::{lemma_total_same, lemma_total_zero, total};

verus! {

/// The number of files at or below the entry with index `i`.
pub open spec fn file_count(e: Seq<EntryModel>, i: int) -> nat {
    total(
        |k: int|
            if e[k].is_file && is_above(parents(e), k, i) {
                1nat
            } else {
                0nat
            },
        e.len(),
    )
}

/// The bytes of the files at or below the entry with index `i`.
pub open spec fn file_bytes(e: Seq<EntryModel>, i: int) -> nat {
    total(
        |k: int|
            if e[k].is_file && is_above(parents(e), k, i) {
                e[k].size as nat
            } else {
                0nat
            },
        e.len(),
    )
}

/// The bytes of the files found by the scan that are of this type.
pub open spec fn found_bytes_of(e: Seq<EntryModel>, key: Option<Seq<char>>) -> nat {
    total(
        |k: int|
            if k >= 1 && e[k].is_file && file_type_of(e[k].path) == key {
                e[k].size as nat
            } else {
                0nat
            },
        e.len(),
    )
}

/// The bytes of all the files found by the scan.
pub open spec fn found_bytes(e: Seq<EntryModel>) -> nat {
    total(
        |k: int|
            if k >= 1 && e[k].is_file {
                e[k].size as nat
            } else {
                0nat
            },
        e.len(),
    )
}

/// What an entry takes beyond the files at or below it: nothing for a file and
/// for the entry that the scan started from, the directory's own size otherwise.
pub open spec fn own_bytes(e: Seq<EntryModel>, i: int) -> int {
    e[i].size - file_bytes(e, i)
}

/// The state of a scan: the list is a tree whose files have nothing below them,
/// every entry counts the files at or below it and takes at least their bytes,
/// files and the entry that the scan started from take exactly their bytes, and
/// the file types account for every file found.
pub open spec fn is_consistent(e: Seq<EntryModel>, rows: Seq<TypeRow>) -> bool {
    &&& is_tree(e)
    &&& forall|i: int| 0 <= i < e.len() && (#[trigger] e[i]).is_file ==> e[i].children.len() == 0
    &&& forall|i: int| 0 <= i < e.len() ==> (#[trigger] e[i]).num_files == file_count(e, i)
    &&& forall|i: int| 0 <= i < e.len() ==> #[trigger] own_bytes(e, i) >= 0
    &&& forall|i: int| 0 <= i < e.len() && e[i].is_file ==> #[trigger] own_bytes(e, i) == 0
    &&& own_bytes(e, 0) == 0
    &&& one_row_each(rows)
    &&& forall|key: Option<Seq<char>>| #[trigger] bytes_of(rows, key) == found_bytes_of(e, key)
    &&& bytes_in_all(rows) == found_bytes(e)
}

/// The ways up in a tree do not change when an entry is added at its end.
proof fn lemma_climb_longer(e: Seq<EntryModel>, v: usize, j: int, d: nat)
    requires
        is_tree(e),
        e.len() < usize::MAX,
        0 <= j < e.len() || j == usize::MAX,
    ensures
        climb(parents(e).push(v), j, d) == climb(parents(e), j, d),
        0 <= climb(parents(e), j, d) < e.len() || climb(parents(e), j, d) == usize::MAX,
    decreases d,
{
    if d > 0 && j < e.len() {
        assert(j >= 1 ==> e[j].parent < j);
        lemma_climb_longer(e, v, e[j].parent as int, (d - 1) as nat);
    }
}

proof fn lemma_above_longer(e: Seq<EntryModel>, v: usize, k: int, i: int)
    requires
        is_tree(e),
        e.len() < usize::MAX,
        0 <= k < e.len(),
        0 <= i <= e.len(),
    ensures
        is_above(parents(e).push(v), k, i) == is_above(parents(e), k, i),
{
    let ps = parents(e);
    if is_above(ps.push(v), k, i) {
        let d = choose|d: nat| #[trigger] climb(ps.push(v), k, d) == i;
        lemma_climb_longer(e, v, k, d);
    }
    if is_above(ps, k, i) {
        let d = choose|d: nat| #[trigger] climb(ps, k, d) == i;
        lemma_climb_longer(e, v, k, d);
    }
}

/// What is above the new entry: itself, and what is above its parent.
proof fn lemma_above_new(e: Seq<EntryModel>, v: usize, i: int)
    requires
        is_tree(e),
        e.len() < usize::MAX,
        v < e.len(),
        0 <= i <= e.len(),
    ensures
        is_above(parents(e).push(v), e.len() as int, i) == (i == e.len() || is_above(
            parents(e),
            v as int,
            i,
        )),
{
    let longer = parents(e).push(v);
    let m = e.len() as int;
    lemma_above_longer(e, v, v as int, i);
    if is_above(longer, m, i) && i != m {
        let d = choose|d: nat| #[trigger] climb(longer, m, d) == i;
        assert(climb(longer, v as int, (d - 1) as nat) == i);
    }
    if i == m {
        assert(climb(longer, m, 0) == i);
    }
    if is_above(longer, v as int, i) {
        let d = choose|d: nat| #[trigger] climb(longer, v as int, d) == i;
        assert(climb(longer, m, d + 1) == i);
    }
}

/// An entry that is met on the way up from another one has children.
proof fn lemma_above_has_children(e: Seq<EntryModel>, j: int, k: int)
    requires
        is_tree(e),
        0 <= j < e.len(),
        is_above(parents(e), j, k),
        j != k,
    ensures
        e[k].children.len() > 0,
{
    let ps = parents(e);
    let d = choose|d: nat| #[trigger] climb(ps, j, d) == k;
    assert(d > 0);
    let c = climb(ps, j, (d - 1) as nat);
    if !(0 <= c < ps.len()) {
        crate::shape::lemma_climb_stays_outside(ps, j, (d - 1) as nat, d);
    }
    lemma_climb_next(ps, j, (d - 1) as nat);
    assert(e[c].parent == k);
    assert(lists_its_children(e, k));
    assert(c >= 1);
    assert(e[k].children.contains(c as usize));
}

/// Putting a found entry below a directory of a tree leaves a tree.
pub proof fn law_insert_keeps_tree(e: Seq<EntryModel>, x: EntryModel)
    requires
        is_tree(e),
        e.len() < usize::MAX,
        x.parent < e.len(),
        x.children.len() == 0,
    ensures
        is_tree(inserted(e, x)),
        parents(inserted(e, x)) == parents(e).push(x.parent),
{
    let f = inserted(e, x);
    let m = e.len() as int;
    let p = x.parent as int;
    assert(parents(f) =~= parents(e).push(x.parent));
    assert forall|i: int| 1 <= i < f.len() implies (#[trigger] f[i]).parent < i by {
        if i < m {
            assert(e[i].parent < i);
        }
    }
    assert forall|i: int| 0 <= i < f.len() implies #[trigger] lists_its_children(f, i) by {
        if i < m {
            assert(lists_its_children(e, i));
        }
        let before = if i < m {
            e[i].children
        } else {
            x.children
        };
        if i == p {
            assert(f[i].children == before.push(m as usize));
            assert(!before.contains(m as usize));
            assert forall|c: usize| f[i].children.contains(c) <==> before.contains(c) || c == m by {
                if before.contains(c) {
                    let k = choose|k: int| 0 <= k < before.len() && before[k] == c;
                    assert(f[i].children[k] == c);
                }
                if c == m {
                    assert(f[i].children[before.len() as int] == c);
                }
            }
        } else {
            assert(f[i].children == before);
        }
        assert forall|c: usize| #[trigger]
            f[i].children.contains(c) <==> 1 <= c < f.len() && f[c as int].parent == i by {
            assert(i < m ==> (before.contains(c) <==> 1 <= c < m && e[c as int].parent == i));
            assert(i == m ==> !before.contains(c));
            if c < m {
                assert(f[c as int].parent == e[c as int].parent);
                assert(c >= 1 ==> e[c as int].parent < c);
            } else if c == m {
                assert(f[c as int].parent == p);
            }
            if i != p {
                assert(f[i].children.contains(c) == before.contains(c));
            }
        }
    }
}

/// Putting a found entry below a directory leaves the own size of every other
/// entry alone: whatever a directory grows by are the bytes of the file.
pub proof fn law_insert_keeps_own_bytes(e: Seq<EntryModel>, x: EntryModel, i: int)
    requires
        is_tree(e),
        forall|k: int| 0 <= k < e.len() && (#[trigger] e[k]).is_file ==> e[k].children.len() == 0,
        e.len() < usize::MAX,
        can_insert(e, x),
        x.parent < e.len(),
        !e[x.parent as int].is_file,
        0 <= i <= e.len(),
    ensures
        own_bytes(inserted(e, x), i) == (if i < e.len() {
            own_bytes(e, i)
        } else if x.is_file {
            0
        } else {
            x.size as int
        }),
{
    let f = inserted(e, x);
    let m = e.len();
    let p = x.parent as int;
    let ps = parents(e);
    assert(parents(f) =~= ps.push(x.parent));
    assert(parents(e.push(x)) =~= ps.push(x.parent));
    let wf = |k: int|
        if f[k].is_file && is_above(parents(f), k, i) {
            f[k].size as nat
        } else {
            0nat
        };
    let we = |k: int|
        if e[k].is_file && is_above(parents(e), k, i) {
            e[k].size as nat
        } else {
            0nat
        };
    assert(total(wf, f.len()) == total(wf, m) + wf(m as int));
    assert forall|k: int| 0 <= k < m implies #[trigger] wf(k) == (if i < m {
        we(k)
    } else {
        0
    }) by {
        lemma_above_longer(e, x.parent, k, i);
        if e[k].is_file && is_above(ps.push(x.parent), p, k) {
            lemma_above_longer(e, x.parent, p, k);
            lemma_above_has_children(e, p, k);
        }
    }
    lemma_above_new(e, x.parent, i);
    lemma_above_longer(e, x.parent, p, m as int);
    if i < m {
        lemma_total_same(wf, we, m);
        lemma_above_longer(e, x.parent, p, i);
        assert(is_above(parents(e.push(x)), p, i) == is_above(ps, p, i));
        assert(e.push(x)[i] == e[i]);
    } else {
        lemma_total_zero(wf, m);
    }
    assert(file_bytes(f, i) == total(wf, f.len()));
    assert(file_bytes(e, i) == total(we, m));
}

proof fn lemma_insert_file_count(e: Seq<EntryModel>, x: EntryModel, i: int)
    requires
        is_tree(e),
        e.len() < usize::MAX,
        x.parent < e.len(),
        0 <= i <= e.len(),
    ensures
        file_count(inserted(e, x), i) == (if i < e.len() {
            file_count(e, i) + if x.is_file && is_above(parents(e), x.parent as int, i) {
                1nat
            } else {
                0nat
            }
        } else if x.is_file {
            1
        } else {
            0
        }),
{
    let f = inserted(e, x);
    let m = e.len();
    let ps = parents(e);
    assert(parents(f) =~= ps.push(x.parent));
    let wf = |k: int|
        if f[k].is_file && is_above(parents(f), k, i) {
            1nat
        } else {
            0nat
        };
    let we = |k: int|
        if e[k].is_file && is_above(parents(e), k, i) {
            1nat
        } else {
            0nat
        };
    assert(total(wf, f.len()) == total(wf, m) + wf(m as int));
    assert forall|k: int| 0 <= k < m implies #[trigger] wf(k) == (if i < m {
        we(k)
    } else {
        0
    }) by {
        lemma_above_longer(e, x.parent, k, i);
    }
    lemma_above_new(e, x.parent, i);
    if i < m {
        lemma_total_same(wf, we, m);
    } else {
        lemma_total_zero(wf, m);
    }
    assert(file_count(f, i) == total(wf, f.len()));
    assert(file_count(e, i) == total(we, m));
}

/// Putting a file below a directory leaves the files that were there before as
/// they were.
proof fn lemma_insert_keeps_files(e: Seq<EntryModel>, x: EntryModel, k: int)
    requires
        is_tree(e),
        forall|k: int| 0 <= k < e.len() && (#[trigger] e[k]).is_file ==> e[k].children.len() == 0,
        e.len() < usize::MAX,
        x.parent < e.len(),
        !e[x.parent as int].is_file,
        0 <= k < e.len(),
    ensures
        inserted(e, x)[k].is_file == e[k].is_file,
        inserted(e, x)[k].path == e[k].path,
        e[k].is_file ==> inserted(e, x)[k] == e[k],
{
    let p = x.parent as int;
    assert(parents(e.push(x)) =~= parents(e).push(x.parent));
    if e[k].is_file && is_above(parents(e).push(x.parent), p, k) {
        lemma_above_longer(e, x.parent, p, k);
        lemma_above_has_children(e, p, k);
    }
}

/// Putting a found entry below a directory keeps the state of a scan
/// consistent.
#[verifier::spinoff_prover]
pub proof fn law_insert_keeps_consistent(
    e: Seq<EntryModel>,
    rows: Seq<TypeRow>,
    parent: usize,
    path: PathBuf,
    size: u64,
    is_file: bool,
)
    requires
        is_consistent(e, rows),
        e.len() < usize::MAX,
        parent < e.len(),
        !e[parent as int].is_file,
        can_insert(e, found_model(parent, path, size, is_file)),
        is_file ==> has_room(rows, file_type_of(path), size),
    ensures
        is_consistent(
            inserted(e, found_model(parent, path, size, is_file)),
            types_with(rows, found_model(parent, path, size, is_file)),
        ),
{
    let x = found_model(parent, path, size, is_file);
    let f = inserted(e, x);
    let m = e.len();
    let p = parent as int;
    let ps = parents(e);
    law_insert_keeps_tree(e, x);
    assert(parents(e.push(x)) =~= ps.push(parent));
    assert forall|i: int| 0 <= i < f.len() && (#[trigger] f[i]).is_file implies f[i].children.len()
        == 0 by {
        if i < m {
            lemma_insert_keeps_files(e, x, i);
        }
    }
    lemma_above_longer(e, parent, p, m as int);
    assert forall|i: int| 0 <= i < f.len() implies (#[trigger] f[i]).num_files == file_count(
        f,
        i,
    ) by {
        lemma_insert_file_count(e, x, i);
        if i < m {
            lemma_above_longer(e, parent, p, i);
            assert(e.push(x)[i] == e[i]);
            assert(e[i].num_files == file_count(e, i));
        }
    }
    assert forall|i: int| 0 <= i < f.len() implies #[trigger] own_bytes(f, i) >= 0 by {
        law_insert_keeps_own_bytes(e, x, i);
        if i < m {
            assert(own_bytes(e, i) >= 0);
        }
    }
    assert forall|i: int| 0 <= i < f.len() && f[i].is_file implies #[trigger] own_bytes(f, i)
        == 0 by {
        law_insert_keeps_own_bytes(e, x, i);
        if i < m {
            lemma_insert_keeps_files(e, x, i);
            assert(own_bytes(e, i) == 0);
        } else {
            assert(f[i].is_file == x.is_file);
        }
    }
    law_insert_keeps_own_bytes(e, x, 0);
    lemma_types_after_insert(e, rows, x);
}

proof fn lemma_types_after_insert(e: Seq<EntryModel>, rows: Seq<TypeRow>, x: EntryModel)
    requires
        is_consistent(e, rows),
        e.len() < usize::MAX,
        x.parent < e.len(),
        !e[x.parent as int].is_file,
        x.is_file ==> has_room(rows, file_type_of(x.path), x.size),
    ensures
        one_row_each(types_with(rows, x)),
        forall|key: Option<Seq<char>>| #[trigger]
            bytes_of(types_with(rows, x), key) == found_bytes_of(inserted(e, x), key),
        bytes_in_all(types_with(rows, x)) == found_bytes(inserted(e, x)),
{
    let f = inserted(e, x);
    let rows2 = types_with(rows, x);
    let m = e.len();
    let p = x.parent as int;
    assert(f[m as int].is_file == x.is_file);
    assert(f[m as int].path == x.path);
    assert(x.is_file ==> f[m as int].size == x.size) by {
        assert(parents(e.push(x)) =~= parents(e).push(x.parent));
        lemma_above_longer(e, x.parent, p, m as int);
    }
    assert(one_row_each(rows2)) by {
        if x.is_file {
            let key = file_type_of(x.path);
            if exists|i: int| crate::file_types::is_row_of(rows, key, i) {
            } else {
                assert forall|j: int| 0 <= j < rows.len() implies (#[trigger] rows[j]).0 != key by {
                    assert(!crate::file_types::is_row_of(rows, key, j));
                }
            }
        }
    }
    assert forall|key: Option<Seq<char>>| #[trigger] bytes_of(rows2, key) == found_bytes_of(
        f,
        key,
    ) by {
        if x.is_file {
            law_recorded_adds_up(rows, file_type_of(x.path), x.size, key);
        }
        assert(bytes_of(rows, key) == found_bytes_of(e, key));
        let wf = |k: int|
            if k >= 1 && f[k].is_file && file_type_of(f[k].path) == key {
                f[k].size as nat
            } else {
                0nat
            };
        let we = |k: int|
            if k >= 1 && e[k].is_file && file_type_of(e[k].path) == key {
                e[k].size as nat
            } else {
                0nat
            };
        assert forall|k: int| 0 <= k < m implies #[trigger] wf(k) == we(k) by {
            lemma_insert_keeps_files(e, x, k);
        }
        lemma_total_same(wf, we, m);
        assert(found_bytes_of(f, key) == total(wf, f.len()));
        assert(found_bytes_of(e, key) == total(we, m));
        assert(total(wf, f.len()) == total(wf, m) + wf(m as int));
    }
    if x.is_file {
        law_recorded_adds_up(rows, file_type_of(x.path), x.size, None);
    }
    let wf = |k: int|
        if k >= 1 && f[k].is_file {
            f[k].size as nat
        } else {
            0nat
        };
    let we = |k: int|
        if k >= 1 && e[k].is_file {
            e[k].size as nat
        } else {
            0nat
        };
    assert forall|k: int| 0 <= k < m implies #[trigger] wf(k) == we(k) by {
        lemma_insert_keeps_files(e, x, k);
    }
    lemma_total_same(wf, we, m);
    assert(found_bytes(f) == total(wf, f.len()));
    assert(found_bytes(e) == total(we, m));
    assert(total(wf, f.len()) == total(wf, m) + wf(m as int));
}

/// A scan starts in a consistent state.
pub proof fn law_start_is_consistent(path: PathBuf, is_file: bool, len: u64)
    ensures
        is_consistent(seq![root_model(path, is_file, len)], Seq::<TypeRow>::empty()),
{
    let e = seq![root_model(path, is_file, len)];
    let rows = Seq::<TypeRow>::empty();
    assert(lists_its_children(e, 0));
    assert(is_tree(e));
    assert(climb(parents(e), 0, 0) == 0);
    assert(is_above(parents(e), 0, 0));
    reveal_with_fuel(total, 2);
    assert(file_count(e, 0) == e[0].num_files);
    assert(file_bytes(e, 0) == e[0].size);
    assert forall|key: Option<Seq<char>>| #[trigger] bytes_of(rows, key) == found_bytes_of(
        e,
        key,
    ) by {}
    assert(found_bytes(e) == 0);
}

/// The directory that a scan started from takes exactly the bytes of the files
/// found, which is what the file types add up to, and counts every one of them.
pub proof fn law_root_accounts_for_everything(e: Seq<EntryModel>, rows: Seq<TypeRow>)
    requires
        is_consistent(e, rows),
        !e[0].is_file,
    ensures
        e[0].size == found_bytes(e),
        e[0].size == bytes_in_all(rows),
        e[0].num_files == total(
            |k: int|
                if e[k].is_file {
                    1nat
                } else {
                    0nat
                },
            e.len(),
        ),
{
    let ps = parents(e);
    let w0 = |k: int|
        if e[k].is_file && is_above(ps, k, 0) {
            e[k].size as nat
        } else {
            0nat
        };
    let w1 = |k: int|
        if k >= 1 && e[k].is_file {
            e[k].size as nat
        } else {
            0nat
        };
    let c0 = |k: int|
        if e[k].is_file && is_above(ps, k, 0) {
            1nat
        } else {
            0nat
        };
    let c1 = |k: int|
        if e[k].is_file {
            1nat
        } else {
            0nat
        };
    assert forall|k: int| 0 <= k < e.len() implies #[trigger] w0(k) == w1(k) by {
        law_tree_hangs_from_root(e, k);
    }
    assert forall|k: int| 0 <= k < e.len() implies #[trigger] c0(k) == c1(k) by {
        law_tree_hangs_from_root(e, k);
    }
    lemma_total_same(w0, w1, e.len());
    lemma_total_same(c0, c1, e.len());
    assert(own_bytes(e, 0) == 0);
    assert(file_bytes(e, 0) == total(w0, e.len()));
    assert(found_bytes(e) == total(w1, e.len()));
    assert(e[0].num_files == file_count(e, 0));
    assert(file_count(e, 0) == total(c0, e.len()));
}

/// In a tree, a found entry whose parent is there can be put into it as long as
/// no number grows too large.
pub proof fn law_tree_can_insert(e: Seq<EntryModel>, x: EntryModel)
    requires
        is_tree(e),
        e.len() < usize::MAX,
        x.parent < e.len(),
        x.is_file ==> forall|k: int| #[trigger]
            is_above(parents(e), x.parent as int, k) ==> e[k].size + x.size <= u64::MAX
                && e[k].num_files + 1 <= u64::MAX,
    ensures
        can_insert(e, x),
{
    let ps = parents(e);
    let p = x.parent as int;
    assert(parents(e.push(x)) =~= ps.push(x.parent));
    law_tree_climbs_end(e, p);
    let d = choose|d: nat| !(0 <= #[trigger] climb(ps, p, d) < ps.len());
    lemma_climb_longer(e, x.parent, p, d);
    assert(!(0 <= climb(ps.push(x.parent), p, d) < e.len() + 1));
    assert forall|k: int| #[trigger] is_above(parents(e.push(x)), p, k) && x.is_file implies e.push(
        x,
    )[k].size + x.size <= u64::MAX && e.push(x)[k].num_files + 1 <= u64::MAX by {
        lemma_above_longer(e, x.parent, p, k);
    }
}

/// The list after these entries were put into the tree one after the other.
pub open spec fn all_inserted(e: Seq<EntryModel>, found: Seq<EntryModel>) -> Seq<EntryModel>
    decreases found.len(),
{
    if found.len() == 0 {
        e
    } else {
        inserted(all_inserted(e, found.drop_last()), found.last())
    }
}

/// The file types after these entries were put into the tree.
pub open spec fn all_types(rows: Seq<TypeRow>, found: Seq<EntryModel>) -> Seq<TypeRow>
    decreases found.len(),
{
    if found.len() == 0 {
        rows
    } else {
        types_with(all_types(rows, found.drop_last()), found.last())
    }
}

/// Each of these entries is as it was found, in a directory that is in the list
/// by then, and there is a place for it.
pub open spec fn all_have_place(
    e: Seq<EntryModel>,
    rows: Seq<TypeRow>,
    found: Seq<EntryModel>,
) -> bool
    decreases found.len(),
{
    found.len() > 0 ==> {
        let so_far = found.drop_last();
        let x = found.last();
        let list = all_inserted(e, so_far);
        &&& all_have_place(e, rows, so_far)
        &&& x == found_model(x.parent, x.path, x.size, x.is_file)
        &&& x.parent < list.len()
        &&& !list[x.parent as int].is_file
        &&& has_place(list, all_types(rows, so_far), x)
    }
}

/// The bytes of the files among these entries.
pub open spec fn bytes_among(found: Seq<EntryModel>) -> nat
    decreases found.len(),
{
    if found.len() == 0 {
        0
    } else {
        bytes_among(found.drop_last()) + if found.last().is_file {
            found.last().size as nat
        } else {
            0
        }
    }
}

/// The bytes of the files of one type among these entries.
pub open spec fn typed_bytes_among(found: Seq<EntryModel>, key: Option<Seq<char>>) -> nat
    decreases found.len(),
{
    if found.len() == 0 {
        0
    } else {
        typed_bytes_among(found.drop_last(), key) + if found.last().is_file && file_type_of(
            found.last().path,
        ) == key {
            found.last().size as nat
        } else {
            0
        }
    }
}

/// The number of files among these entries.
pub open spec fn files_among(found: Seq<EntryModel>) -> nat
    decreases found.len(),
{
    if found.len() == 0 {
        0
    } else {
        files_among(found.drop_last()) + if found.last().is_file {
            1nat
        } else {
            0nat
        }
    }
}

/// Whatever a scan finds, and in whatever order, the directory that it started
/// from ends up with the bytes and the number of the files found, each file type
/// with the bytes of its files, and the tree consistent.
pub proof fn law_scan_counts_what_was_found(
    path: PathBuf,
    len: u64,
    found: Seq<EntryModel>,
    key: Option<Seq<char>>,
)
    requires
        all_have_place(seq![root_model(path, false, len)], Seq::empty(), found),
    ensures
        ({
            let list = all_inserted(seq![root_model(path, false, len)], found);
            let rows = all_types(Seq::empty(), found);
            &&& is_consistent(list, rows)
            &&& list.len() == found.len() + 1
            &&& !list[0].is_file
            &&& list[0].size == bytes_among(found)
            &&& list[0].num_files == files_among(found)
            &&& bytes_of(rows, key) == typed_bytes_among(found, key)
            &&& bytes_in_all(rows) == bytes_among(found)
        }),
    decreases found.len(),
{
    let start = seq![root_model(path, false, len)];
    if found.len() == 0 {
        law_start_is_consistent(path, false, len);
    } else {
        let so_far = found.drop_last();
        let x = found.last();
        law_scan_counts_what_was_found(path, len, so_far, key);
        let list = all_inserted(start, so_far);
        let rows = all_types(Seq::empty(), so_far);
        law_insert_keeps_consistent(list, rows, x.parent, x.path, x.size, x.is_file);
        if x.is_file {
            law_recorded_adds_up(rows, file_type_of(x.path), x.size, key);
            law_tree_hangs_from_root(list, x.parent as int);
            lemma_above_longer(list, x.parent, x.parent as int, 0);
            assert(parents(list.push(x)) =~= parents(list).push(x.parent));
        }
        let after = inserted(list, x);
        assert(linked(list, x)[0].is_file == list[0].is_file);
        law_root_accounts_for_everything(after, types_with(rows, x));
    }
}

/// The two lists agree on everything that the totals speak of.
pub open spec fn same_numbers(e: Seq<EntryModel>, f: Seq<EntryModel>) -> bool {
    &&& e.len() == f.len()
    &&& forall|k: int|
        0 <= k < e.len() ==> (#[trigger] f[k]) == (EntryModel {
            children: f[k].children,
            expanded: f[k].expanded,
            ..e[k]
        })
}

/// Lists whose entries have the same parents, and whose files agree, have the same
/// sums over files.
pub proof fn lemma_same_files_sums(e: Seq<EntryModel>, f: Seq<EntryModel>)
    requires
        e.len() == f.len(),
        forall|k: int|
            0 <= k < e.len() ==> (#[trigger] f[k]).parent == e[k].parent && f[k].is_file
                == e[k].is_file && f[k].path == e[k].path && (f[k].is_file ==> f[k].size
                == e[k].size),
    ensures
        parents(f) == parents(e),
        forall|i: int| file_count(f, i) == #[trigger] file_count(e, i),
        forall|i: int| file_bytes(f, i) == #[trigger] file_bytes(e, i),
        forall|key: Option<Seq<char>>|
            found_bytes_of(f, key) == #[trigger] found_bytes_of(e, key),
        found_bytes(f) == found_bytes(e),
{
    assert(parents(f) =~= parents(e));
    assert forall|i: int| file_count(f, i) == #[trigger] file_count(e, i) by {
        lemma_total_same(
            |k: int|
                if f[k].is_file && is_above(parents(f), k, i) {
                    1nat
                } else {
                    0nat
                },
            |k: int|
                if e[k].is_file && is_above(parents(e), k, i) {
                    1nat
                } else {
                    0nat
                },
            e.len(),
        );
    }
    assert forall|i: int| file_bytes(f, i) == #[trigger] file_bytes(e, i) by {
        lemma_total_same(
            |k: int|
                if f[k].is_file && is_above(parents(f), k, i) {
                    f[k].size as nat
                } else {
                    0nat
                },
            |k: int|
                if e[k].is_file && is_above(parents(e), k, i) {
                    e[k].size as nat
                } else {
                    0nat
                },
            e.len(),
        );
    }
    assert forall|key: Option<Seq<char>>| found_bytes_of(f, key) == #[trigger] found_bytes_of(
        e,
        key,
    ) by {
        lemma_total_same(
            |k: int|
                if k >= 1 && f[k].is_file && file_type_of(f[k].path) == key {
                    f[k].size as nat
                } else {
                    0nat
                },
            |k: int|
                if k >= 1 && e[k].is_file && file_type_of(e[k].path) == key {
                    e[k].size as nat
                } else {
                    0nat
                },
            e.len(),
        );
    }
    lemma_total_same(
        |k: int|
            if k >= 1 && f[k].is_file {
                f[k].size as nat
            } else {
                0nat
            },
        |k: int|
            if k >= 1 && e[k].is_file {
                e[k].size as nat
            } else {
                0nat
            },
        e.len(),
    );
}

/// Folding, unfolding and reordering the children keep a consistent tree
/// consistent.
pub proof fn law_same_numbers_stay_consistent(
    e: Seq<EntryModel>,
    f: Seq<EntryModel>,
    rows: Seq<TypeRow>,
)
    requires
        is_consistent(e, rows),
        same_numbers(e, f),
        is_tree(f),
        forall|k: int|
            0 <= k < f.len() ==> (#[trigger] f[k]).children.len() == e[k].children.len(),
    ensures
        is_consistent(f, rows),
{
    assert forall|k: int| 0 <= k < e.len() implies (#[trigger] f[k]).size == e[k].size
        && f[k].is_file == e[k].is_file && f[k].path == e[k].path && f[k].num_files
        == e[k].num_files && f[k].parent == e[k].parent by {}
    lemma_same_files_sums(e, f);
    assert forall|i: int| 0 <= i < f.len() implies (#[trigger] f[i]).num_files == file_count(
        f,
        i,
    ) by {
        assert(file_count(f, i) == file_count(e, i));
        assert(e[i].num_files == file_count(e, i));
    }
    assert forall|i: int| 0 <= i < f.len() implies #[trigger] own_bytes(f, i) == own_bytes(
        e,
        i,
    ) by {
        assert(file_bytes(f, i) == file_bytes(e, i));
    }
    assert forall|key: Option<Seq<char>>| #[trigger] bytes_of(rows, key) == found_bytes_of(
        f,
        key,
    ) by {
        assert(found_bytes_of(f, key) == found_bytes_of(e, key));
    }
}

} // verus!
