//! Rebuilding a list of entries after a change.
use vstd::prelude::*;
use crate::entry::{model, parents, Entry, EntryModel};
use crate::file_types::{bytes_of, TypeRow};
use crate::order::{lemma_filter_increasing, lemma_filter_no_duplicates, positions};
use crate::shape::{climb, climb_ends, is_above, is_tree, lemma_climb_next, lemma_climb_short};
use crate::shape::{law_tree_climbs_end, lemma_climb_outside};
use crate::shape::{has_parent, law_tree_hangs_from_root, linked_children, lists_its_children};
use crate::sums::{are_children, below_first, beneath, beneath_all, lemma_below_splits};
use crate::sums::{lemma_beneath_all_grows, lemma_beneath_grows, lemma_beneath_splits};
use crate::sums::{lemma_total_one, lemma_total_same, total};
use crate::totals::{file_bytes, file_count, found_bytes_of, is_consistent, lemma_same_files_sums};
use crate::totals::own_bytes;

verus! {

/// The parents, with the entry with index 0 cut off from whatever its parent is:
/// ways up end there.
pub open spec fn cut(parents: Seq<usize>) -> Seq<usize> {
    parents.update(0, usize::MAX)
}

/// The bytes of each file, and nothing for a directory.
pub open spec fn file_sizes(e: Seq<EntryModel>) -> spec_fn(int) -> nat {
    |k: int|
        if 0 <= k < e.len() && e[k].is_file {
            e[k].size as nat
        } else {
            0nat
        }
}

/// The number of files that each file counts as, and nothing for a directory.
pub open spec fn file_numbers(e: Seq<EntryModel>) -> spec_fn(int) -> nat {
    |k: int|
        if 0 <= k < e.len() && e[k].is_file {
            e[k].num_files as nat
        } else {
            0nat
        }
}

/// The bytes of the files at or below the entry with index `k`.
pub open spec fn bytes_beneath(e: Seq<EntryModel>, k: int) -> nat {
    beneath(cut(parents(e)), file_sizes(e), k)
}

/// The number of the files at or below the entry with index `k`.
pub open spec fn files_beneath(e: Seq<EntryModel>, k: int) -> nat {
    beneath(cut(parents(e)), file_numbers(e), k)
}

/// The numbers of a directory are 64-bit numbers: those of the entry with index 0
/// are the largest.
pub open spec fn sums_fit(e: Seq<EntryModel>) -> bool {
    bytes_beneath(e, 0) <= u64::MAX && files_beneath(e, 0) <= u64::MAX
}

/// The entry with the numbers that it ought to have: a file has its own, a
/// directory those of the files below it.
pub open spec fn summed(e: Seq<EntryModel>, k: int) -> EntryModel {
    if e[k].is_file {
        e[k]
    } else {
        EntryModel {
            size: bytes_beneath(e, k) as u64,
            num_files: files_beneath(e, k) as u64,
            ..e[k]
        }
    }
}

/// The entry without numbers if it is a directory.
pub open spec fn cleared(m: EntryModel) -> EntryModel {
    if m.is_file {
        m
    } else {
        EntryModel { size: 0, num_files: 0, ..m }
    }
}

/// The list with the children linked anew from the parents. Files keep their
/// numbers; directories that hang from the entry with index 0 have those of the
/// files below them; other directories have none.
pub open spec fn recalculated(e: Seq<EntryModel>) -> Seq<EntryModel> {
    Seq::new(
        e.len(),
        |k: int|
            {
                let numbered = if is_above(parents(e), k, 0) {
                    summed(e, k)
                } else {
                    cleared(e[k])
                };
                EntryModel { children: linked_children(parents(e), k), ..numbered }
            },
    )
}

/// There is an entry with index 0, and every other entry has its parent in the
/// list.
pub open spec fn has_parents(e: Seq<EntryModel>) -> bool {
    &&& e.len() > 0
    &&& forall|i: int| 1 <= i < e.len() ==> (#[trigger] e[i]).parent < e.len()
}

/// Tells of an entry whether it stays when `subtree` is deleted.
pub open spec fn stays(parents: Seq<usize>, subtree: usize) -> spec_fn(usize) -> bool {
    |i: usize| i != subtree && parents[i as int] != subtree
}

/// The indices of the entries that stay when `subtree` is deleted: all but
/// `subtree` itself and the entries directly below it.
pub open spec fn staying(parents: Seq<usize>, subtree: usize) -> Seq<usize> {
    positions(0, parents.len() as int).filter(stays(parents, subtree))
}

/// The entries that stay when `subtree` is deleted, in order, as they were.
pub open spec fn without(e: Seq<EntryModel>, subtree: usize) -> Seq<EntryModel> {
    staying(parents(e), subtree).map_values(|i: usize| e[i as int])
}

/// The entries before `hi` whose parent is `p`.
spec fn linked_before(parents: Seq<usize>, p: int, hi: int) -> Seq<usize> {
    positions(1, hi).filter(has_parent(parents, p))
}

proof fn lemma_linked_before_next(parents: Seq<usize>, p: int, hi: int)
    requires
        1 <= hi <= usize::MAX,
    ensures
        linked_before(parents, p, hi + 1) == (if parents[hi] == p {
            linked_before(parents, p, hi).push(hi as usize)
        } else {
            linked_before(parents, p, hi)
        }),
{
    let pred = has_parent(parents, p);
    assert(positions(1, hi + 1) =~= positions(1, hi).push(hi as usize));
    positions(1, hi).lemma_filter_push(hi as usize, pred);
}

/// The linked children of an entry are in the list, are not the entry with index
/// 0, and have that entry as their parent; and they are all that do.
pub proof fn lemma_linked_children(parents: Seq<usize>, p: int)
    requires
        parents.len() <= usize::MAX,
    ensures
        linked_children(parents, p).no_duplicates(),
        forall|c: usize| #[trigger]
            linked_children(parents, p).contains(c) <==> 1 <= c < parents.len() && parents[c as int]
                == p,
        forall|k: int|
            0 <= k < linked_children(parents, p).len() ==> 1 <= (#[trigger] linked_children(
                parents,
                p,
            )[k]) < parents.len() && parents[linked_children(parents, p)[k] as int] == p,
{
    let all = positions(1, parents.len() as int);
    let pred = has_parent(parents, p);
    let list = all.filter(pred);
    assert(all.no_duplicates());
    lemma_filter_no_duplicates(all, pred);
    assert forall|c: usize| #[trigger] list.contains(c) <==> 1 <= c < parents.len()
        && parents[c as int] == p by {
        if 1 <= c < parents.len() && parents[c as int] == p {
            assert(all[c - 1] == c);
            all.lemma_filter_contains(pred, c - 1);
        }
        if list.contains(c) {
            let k = choose|k: int| 0 <= k < list.len() && list[k] == c;
            all.lemma_filter_pred(pred, k);
            all.lemma_filter_contains_rev(pred, c);
            let q = choose|q: int| 0 <= q < all.len() && all[q] == c;
        }
    }
    assert forall|k: int| 0 <= k < list.len() implies 1 <= (#[trigger] list[k]) < parents.len()
        && parents[list[k] as int] == p by {
        assert(list.contains(list[k]));
    }
}

/// Cutting off the entry with index 0 does not change what hangs from it.
proof fn lemma_cut_same(ps: Seq<usize>, k: int)
    requires
        ps.len() > 0,
    ensures
        is_above(ps, k, 0) == is_above(cut(ps), k, 0),
{
    if is_above(ps, k, 0) {
        let d = choose|d: nat| #[trigger] climb(ps, k, d) == 0;
        let c = lemma_cut_reaches(ps, k, d);
        assert(climb(cut(ps), k, c) == 0);
    }
    if is_above(cut(ps), k, 0) {
        let d = choose|d: nat| #[trigger] climb(cut(ps), k, d) == 0;
        let c = lemma_uncut_reaches(ps, k, d);
        assert(climb(ps, k, c) == 0);
    }
}

proof fn lemma_cut_reaches(ps: Seq<usize>, k: int, d: nat) -> (c: nat)
    requires
        ps.len() > 0,
        climb(ps, k, d) == 0,
    ensures
        climb(cut(ps), k, c) == 0,
    decreases d,
{
    if k == 0 {
        0
    } else {
        let c = lemma_cut_reaches(ps, ps[k] as int, (d - 1) as nat);
        c + 1
    }
}

proof fn lemma_uncut_reaches(ps: Seq<usize>, k: int, d: nat) -> (c: nat)
    requires
        ps.len() > 0,
        climb(cut(ps), k, d) == 0,
    ensures
        climb(ps, k, c) == 0,
    decreases d,
{
    if k == 0 {
        0
    } else {
        let c = lemma_uncut_reaches(ps, ps[k] as int, (d - 1) as nat);
        c + 1
    }
}

/// The linked children of an entry are its children in the sense of the sums.
proof fn lemma_linked_are_children(ps: Seq<usize>, i: int)
    requires
        0 < ps.len() <= usize::MAX,
        0 <= i < ps.len(),
    ensures
        are_children(cut(ps), i, linked_children(ps, i)),
{
    lemma_linked_children(ps, i);
    assert forall|c: usize| #[trigger] linked_children(ps, i).contains(c) <==> c < ps.len() && cut(
        ps,
    )[c as int] == i by {
        assert(linked_children(ps, i).contains(c) <==> 1 <= c < ps.len() && ps[c as int] == i);
    }
}

/// Lists whose files agree have the same sums.
proof fn lemma_same_files(a: Seq<EntryModel>, b: Seq<EntryModel>)
    requires
        a.len() == b.len(),
        forall|k: int|
            0 <= k < a.len() ==> (#[trigger] a[k]).is_file == b[k].is_file && a[k].parent
                == b[k].parent && (a[k].is_file ==> a[k].size == b[k].size && a[k].num_files
                == b[k].num_files),
    ensures
        parents(a) == parents(b),
        file_sizes(a) == file_sizes(b),
        file_numbers(a) == file_numbers(b),
{
    assert forall|k: int| 0 <= k < a.len() implies parents(a)[k] == parents(b)[k] by {
        assert(a[k].parent == b[k].parent);
    }
    assert(parents(a) =~= parents(b));
    let (sa, sb) = (file_sizes(a), file_sizes(b));
    let (na, nb) = (file_numbers(a), file_numbers(b));
    assert forall|k: int| #[trigger] sa(k) == sb(k) by {
        if 0 <= k < a.len() {
            assert(a[k].is_file == b[k].is_file);
        }
    }
    assert forall|k: int| #[trigger] na(k) == nb(k) by {
        if 0 <= k < a.len() {
            assert(a[k].is_file == b[k].is_file);
        }
    }
    assert(sa =~= sb);
    assert(na =~= nb);
}

/// Adds up the numbers of the files at or below the entry with index `i`, which is
/// `d` steps below the entry with index 0, and writes the sums into every
/// directory on the way. A file brings its own numbers and keeps them.
fn sum_up(entries: &mut [Entry], i: usize, Ghost(d): Ghost<nat>) -> (sums: (u64, u64))
    requires
        i < old(entries)@.len(),
        forall|k: int|
            0 <= k < old(entries)@.len() ==> (#[trigger] old(entries)@[k])@.children
                == linked_children(parents(model(old(entries)@)), k),
        climb(cut(parents(model(old(entries)@))), i as int, d) == 0,
        bytes_beneath(model(old(entries)@), i as int) <= u64::MAX,
        files_beneath(model(old(entries)@), i as int) <= u64::MAX,
    ensures
        sums.0 == bytes_beneath(model(old(entries)@), i as int),
        sums.1 == files_beneath(model(old(entries)@), i as int),
        final(entries)@.len() == old(entries)@.len(),
        forall|k: int|
            0 <= k < old(entries)@.len() ==> (#[trigger] final(entries)@[k])@ == (if is_above(
                cut(parents(model(old(entries)@))),
                k,
                i as int,
            ) {
                summed(model(old(entries)@), k)
            } else {
                old(entries)@[k]@
            }),
    decreases old(entries)@.len() - d,
{
    let ghost e = model(entries@);
    let ghost ps = parents(e);
    let ghost cs = cut(ps);
    let ghost n = e.len();
    let ghost bytes = file_sizes(e);
    let ghost counts = file_numbers(e);
    proof {
        assert(entries@.len() == entries.len());
        lemma_climb_next(cs, i as int, d);
        assert(!(0 <= climb(cs, i as int, d + 1) < cs.len()));
        lemma_climb_short(cs, i as int, d);
        lemma_linked_children(ps, i as int);
        lemma_linked_are_children(ps, i as int);
        assert(entries@[i as int]@.children == linked_children(ps, i as int));
        lemma_beneath_splits(cs, bytes, i as int, linked_children(ps, i as int));
        lemma_beneath_splits(cs, counts, i as int, linked_children(ps, i as int));
        assert(e[i as int] == entries@[i as int]@);
    }
    let list = entries[i].children.clone();
    assert(list@ =~= linked_children(ps, i as int));
    let is_file: bool = entries[i].is_file;
    let mut size: u64 = if is_file {
        entries[i].size
    } else {
        0
    };
    let mut files: u64 = if is_file {
        entries[i].num_files
    } else {
        0
    };
    let mut m: usize = 0;
    assert(list@.take(0) =~= Seq::<usize>::empty());
    while m < list.len()
        invariant
            e == model(old(entries)@),
            ps == parents(e),
            cs == cut(ps),
            n == e.len(),
            n <= usize::MAX,
            n > 0,
            bytes == file_sizes(e),
            counts == file_numbers(e),
            entries@.len() == n,
            d < n,
            climb(cs, i as int, d) == 0,
            climb_ends(cs, i as int),
            i < n,
            list@ == linked_children(ps, i as int),
            are_children(cs, i as int, list@),
            forall|k: int|
                0 <= k < list@.len() ==> 1 <= (#[trigger] list@[k]) < n && ps[list@[k] as int] == i,
            forall|k: int| 0 <= k < n ==> (#[trigger] e[k]).children == linked_children(ps, k),
            m <= list@.len(),
            bytes(i as int) + beneath_all(cs, bytes, list@) <= u64::MAX,
            counts(i as int) + beneath_all(cs, counts, list@) <= u64::MAX,
            size == bytes(i as int) + beneath_all(cs, bytes, list@.take(m as int)),
            files == counts(i as int) + beneath_all(cs, counts, list@.take(m as int)),
            forall|k: int|
                0 <= k < n ==> (#[trigger] entries@[k])@ == (if below_first(cs, list@, m as int, k) {
                    summed(e, k)
                } else {
                    e[k]
                }),
        decreases list@.len() - m,
    {
        let c: usize = list[m];
        let ghost before = model(entries@);
        proof {
            assert(cs[c as int] == i);
            assert(climb(cs, c as int, d + 1) == climb(cs, i as int, d));
            assert forall|k: int| 0 <= k < n implies (#[trigger] before[k]).is_file == e[k].is_file
                && before[k].parent == e[k].parent && before[k].children == e[k].children && (
            before[k].is_file ==> before[k].size == e[k].size && before[k].num_files
                == e[k].num_files) by {
                assert(before[k] == entries@[k]@);
            }
            lemma_same_files(before, e);
            let more = list@.take(m + 1);
            assert(more.drop_last() =~= list@.take(m as int));
            assert(more.last() == c);
            lemma_beneath_all_grows(cs, bytes, list@, m + 1);
            lemma_beneath_all_grows(cs, counts, list@, m + 1);
            assert forall|k: int| 0 <= k < n implies (#[trigger] entries@[k])@.children
                == linked_children(ps, k) by {
                assert(before[k].children == e[k].children);
            }
        }
        let (s, f) = sum_up(entries, c, Ghost(d + 1));
        size = size + s;
        files = files + f;
        proof {
            assert forall|k: int| 0 <= k < n implies (#[trigger] entries@[k])@ == (if below_first(
                cs,
                list@,
                m + 1,
                k,
            ) {
                summed(e, k)
            } else {
                e[k]
            }) by {
                assert(before[k].is_file == e[k].is_file);
                if below_first(cs, list@, m as int, k) {
                    let j = choose|j: int|
                        0 <= j < m && is_above(cs, k, (#[trigger] list@[j]) as int);
                    assert(is_above(cs, k, list@[j] as int));
                }
                if is_above(cs, k, c as int) {
                    assert(is_above(cs, k, list@[m as int] as int));
                    assert(summed(before, k) =~= summed(e, k));
                }
            }
        }
        m = m + 1;
    }
    assert(list@.take(m as int) =~= list@);
    if !is_file {
        proof {
            assert(entries@[i as int]@.is_file == e[i as int].is_file);
        }
        entries[i].size = size;
        entries[i].num_files = files;
    }
    proof {
        assert forall|k: int| 0 <= k < n implies (#[trigger] entries@[k])@ == (if is_above(
            cs,
            k,
            i as int,
        ) {
            summed(e, k)
        } else {
            e[k]
        }) by {
            lemma_below_splits(cs, i as int, list@, k);
            if k == i {
                assert(climb(cs, k, 0) == i);
            }
        }
    }
    (size, files)
}

/// Links every entry to its parent anew and calculates the numbers of the
/// directories: each that hangs from the entry with index 0 gets the bytes and the
/// number of the files below it, the others get none. Files keep their numbers.
pub fn recalculate_data(entries: &mut [Entry])
    requires
        has_parents(model(old(entries)@)),
        sums_fit(model(old(entries)@)),
    ensures
        model(final(entries)@) == recalculated(model(old(entries)@)),
        forall|k: int|
            0 <= k < old(entries)@.len() && !old(entries)@[k].is_file && is_above(
                parents(model(old(entries)@)),
                k,
                0,
            ) ==> (#[trigger] model(final(entries)@)[k]).size == bytes_beneath(
                model(old(entries)@),
                k,
            ) && model(final(entries)@)[k].num_files == files_beneath(model(old(entries)@), k),
        final(entries)@.len() == old(entries)@.len(),
        forall|k: int|
            0 <= k < old(entries)@.len() ==> {
                &&& (#[trigger] final(entries)@[k]).parent == old(entries)@[k].parent
                &&& final(entries)@[k].path == old(entries)@[k].path
                &&& final(entries)@[k].is_file == old(entries)@[k].is_file
                &&& final(entries)@[k].expanded == old(entries)@[k].expanded
                &&& old(entries)@[k].is_file ==> final(entries)@[k].size == old(entries)@[k].size
                    && final(entries)@[k].num_files == old(entries)@[k].num_files
            },
{
    let ghost e = model(entries@);
    let ghost ps = parents(e);
    let n: usize = entries.len();
    let mut i: usize = 0;
    while i < n
        invariant
            e == model(old(entries)@),
            n == e.len(),
            entries@.len() == n,
            i <= n,
            forall|k: int|
                0 <= k < n ==> (#[trigger] entries@[k])@ == (if k < i {
                    (EntryModel { children: Seq::empty(), ..cleared(e[k]) })
                } else {
                    e[k]
                }),
        decreases n - i,
    {
        assert(entries@[i as int]@ == e[i as int]);
        if !entries[i].is_file {
            entries[i].size = 0;
            entries[i].num_files = 0;
        }
        entries[i].children.clear();
        assert(entries@[i as int]@ =~= (EntryModel {
            children: Seq::empty(),
            ..cleared(e[i as int])
        }));
        i = i + 1;
    }
    proof {
        assert forall|k: int| 0 <= k < n implies (#[trigger] entries@[k])@ == (EntryModel {
            children: linked_before(ps, k, 1),
            ..cleared(e[k])
        }) by {
            assert(positions(1, 1) =~= Seq::<usize>::empty());
            reveal(Seq::filter);
            assert(linked_before(ps, k, 1) =~= Seq::<usize>::empty());
        }
    }
    let mut c: usize = 1;
    while c < n
        invariant
            e == model(old(entries)@),
            has_parents(e),
            ps == parents(e),
            n == e.len(),
            entries@.len() == n,
            1 <= c <= n,
            forall|k: int|
                0 <= k < n ==> (#[trigger] entries@[k])@ == (EntryModel {
                    children: linked_before(ps, k, c as int),
                    ..cleared(e[k])
                }),
        decreases n - c,
    {
        assert(entries@[c as int]@.parent == e[c as int].parent);
        let p: usize = entries[c].parent;
        let ghost before = entries@;
        entries[p].children.push(c);
        proof {
            assert forall|k: int| 0 <= k < n implies (#[trigger] entries@[k])@ == (EntryModel {
                children: linked_before(ps, k, c + 1),
                ..cleared(e[k])
            }) by {
                lemma_linked_before_next(ps, k, c as int);
                assert(before[k]@.children == linked_before(ps, k, c as int));
            }
        }
        c = c + 1;
    }
    let ghost linked = model(entries@);
    proof {
        assert forall|k: int| 0 <= k < n implies (#[trigger] linked[k]).is_file == e[k].is_file
            && linked[k].parent == e[k].parent && (linked[k].is_file ==> linked[k].size
            == e[k].size && linked[k].num_files == e[k].num_files) by {
            assert(linked[k] == entries@[k]@);
        }
        lemma_same_files(linked, e);
        assert(climb(cut(ps), 0, 0) == 0);
    }
    let _ = sum_up(entries, 0, Ghost(0nat));
    proof {
        assert forall|k: int| 0 <= k < n implies model(entries@)[k] == recalculated(e)[k] by {
            lemma_cut_same(ps, k);
            assert(entries@[k]@ == model(entries@)[k]);
            assert(linked[k].is_file == e[k].is_file);
        }
        assert(model(entries@) =~= recalculated(e));
        assert forall|k: int| 0 <= k < n && !old(entries)@[k].is_file && is_above(ps, k, 0) implies (
        #[trigger] model(entries@)[k]).size == bytes_beneath(e, k) && model(entries@)[k].num_files
            == files_beneath(e, k) by {
            law_recalculated_sums(e, k);
            assert(e[k] == old(entries)@[k]@);
        }
        assert(model(entries@).len() == entries@.len());
        assert forall|k: int| 0 <= k < n implies (#[trigger] entries@[k])@ == recalculated(e)[k]
            && old(entries)@[k]@ == e[k] by {
            assert(model(entries@)[k] == entries@[k]@);
        }
    }
}

/// Deletes the entry with index `subtree` and the entries directly below it, and
/// recalculates the list. The other entries close up and keep their parents as
/// they were.
pub fn delete_subtree(entries: &mut Vec<Entry>, subtree: usize)
    requires
        has_parents(without(model(old(entries)@), subtree)),
        sums_fit(without(model(old(entries)@), subtree)),
    ensures
        model(final(entries)@) == recalculated(without(model(old(entries)@), subtree)),
        final(entries)@.len() == staying(parents(model(old(entries)@)), subtree).len(),
        forall|k: int|
            0 <= k < final(entries)@.len() ==> {
                let was = old(entries)@[staying(parents(model(old(entries)@)), subtree)[k] as int];
                &&& (#[trigger] final(entries)@[k]).parent == was.parent
                &&& final(entries)@[k].path == was.path
                &&& final(entries)@[k].is_file == was.is_file
                &&& final(entries)@[k].expanded == was.expanded
                &&& was.is_file ==> final(entries)@[k].size == was.size
                    && final(entries)@[k].num_files == was.num_files
            },
{
    let ghost e = model(entries@);
    let ghost ps = parents(e);
    let ghost pred = stays(ps, subtree);
    let ghost pick = |i: usize| e[i as int];
    let mut kept: Vec<Entry> = Vec::new();
    let mut i: usize = 0;
    proof {
        reveal(Seq::filter);
        assert(positions(0, 0) =~= Seq::<usize>::empty());
    }
    while i < entries.len()
        invariant
            e == model(entries@),
            ps == parents(e),
            pred == stays(ps, subtree),
            pick == (|i: usize| e[i as int]),
            i <= entries@.len(),
            model(kept@) =~= positions(0, i as int).filter(pred).map_values(pick),
        decreases entries@.len() - i,
    {
        let parent: usize = entries[i].parent;
        proof {
            assert(e[i as int] == entries@[i as int]@);
            assert(positions(0, i + 1) =~= positions(0, i as int).push(i));
            positions(0, i as int).lemma_filter_push(i, pred);
        }
        let ghost listed = positions(0, i as int).filter(pred);
        if parent != subtree && i != subtree {
            let ghost before = kept@;
            kept.push(entries[i].clone());
            proof {
                assert(model(kept@) =~= model(before).push(e[i as int]));
                assert(listed.push(i).map_values(pick) =~= listed.map_values(pick).push(pick(i)));
            }
        }
        i = i + 1;
    }
    assert(model(kept@) =~= without(e, subtree));
    *entries = kept;
    recalculate_data(entries);
    proof {
        assert(old(entries)@.len() == e.len());
        assert(entries@.len() == model(entries@).len());
        assert forall|k: int| 0 <= k < entries@.len() implies (#[trigger] entries@[k])@
            == recalculated(without(e, subtree))[k] by {
            assert(model(entries@)[k] == entries@[k]@);
        }
        law_delete_keeps_the_others(e, subtree);
        assert forall|k: int| 0 <= k < entries@.len() implies staying(ps, subtree)[k] < e.len()
            && e[(#[trigger] staying(ps, subtree)[k]) as int] == old(entries)@[staying(
            ps,
            subtree,
        )[k] as int]@ by {
            assert(staying(ps, subtree).contains(staying(ps, subtree)[k]));
        }
        assert forall|k: int| 0 <= k < entries@.len() implies {
            let was = old(entries)@[staying(ps, subtree)[k] as int];
            &&& (#[trigger] entries@[k]).parent == was.parent
            &&& entries@[k].path == was.path
            &&& entries@[k].is_file == was.is_file
            &&& entries@[k].expanded == was.expanded
            &&& was.is_file ==> entries@[k].size == was.size && entries@[k].num_files
                == was.num_files
        } by {
            assert(without(e, subtree)[k] == e[staying(ps, subtree)[k] as int]);
        }
    }
}

/// A file keeps its numbers, and a directory that hangs from the entry with index 0
/// gets exactly the sums over the files below it.
pub proof fn law_recalculated_sums(e: Seq<EntryModel>, k: int)
    requires
        sums_fit(e),
        0 <= k < e.len(),
    ensures
        e[k].is_file ==> recalculated(e)[k].size == e[k].size && recalculated(e)[k].num_files
            == e[k].num_files,
        !e[k].is_file && is_above(parents(e), k, 0) ==> recalculated(e)[k].size == bytes_beneath(
            e,
            k,
        ) && recalculated(e)[k].num_files == files_beneath(e, k),
{
    let ps = parents(e);
    if is_above(ps, k, 0) {
        lemma_cut_same(ps, k);
        lemma_beneath_grows(cut(ps), file_sizes(e), k, 0);
        lemma_beneath_grows(cut(ps), file_numbers(e), k, 0);
    }
}

/// Recalculating a second time changes nothing.
pub proof fn law_recalculate_twice(e: Seq<EntryModel>)
    ensures
        recalculated(recalculated(e)) == recalculated(e),
{
    let f = recalculated(e);
    lemma_same_files(f, e);
    assert forall|k: int| 0 <= k < e.len() implies #[trigger] recalculated(f)[k] == f[k] by {}
    assert(recalculated(f) =~= f);
}

/// Recalculating a tree leaves a tree in which every entry lists its children in
/// increasing order, every file has the numbers it had, and every directory has
/// those of the files below it; nothing else about the entries changes.
pub proof fn law_recalculate_tree(e: Seq<EntryModel>)
    requires
        is_tree(e),
    ensures
        has_parents(e),
        is_tree(recalculated(e)),
        forall|k: int|
            0 <= k < e.len() ==> (#[trigger] recalculated(e)[k]) == (EntryModel {
                children: linked_children(parents(e), k),
                ..summed(e, k)
            }),
        forall|k: int| 0 <= k < e.len() ==> #[trigger] bytes_beneath(e, k) == file_bytes(e, k),
{
    let f = recalculated(e);
    let ps = parents(e);
    assert forall|k: int| 0 <= k < e.len() implies (#[trigger] f[k]) == (EntryModel {
        children: linked_children(ps, k),
        ..summed(e, k)
    }) by {
        law_tree_hangs_from_root(e, k);
    }
    assert forall|i: int| 1 <= i < f.len() implies (#[trigger] f[i]).parent < i by {
        assert(e[i].parent < i);
    }
    assert forall|i: int| 1 <= i < e.len() implies (#[trigger] e[i]).parent < e.len() by {
        assert(e[i].parent < i);
    }
    assert forall|i: int| 0 <= i < f.len() implies #[trigger] lists_its_children(f, i) by {
        lemma_linked_children(ps, i);
        assert forall|c: usize| #[trigger]
            f[i].children.contains(c) <==> 1 <= c < f.len() && f[c as int].parent == i by {
            assert(linked_children(ps, i).contains(c) <==> 1 <= c < ps.len() && ps[c as int] == i);
        }
    }
    assert forall|k: int| 0 <= k < e.len() implies #[trigger] bytes_beneath(e, k) == file_bytes(
        e,
        k,
    ) by {
        law_sums_are_over_files_below(e, k);
    }
}

proof fn lemma_cut_keeps_way(ps: Seq<usize>, j: int, k: int, d: nat) -> (c: nat)
    requires
        ps.len() > 0,
        ps[0] == 0 || ps[0] >= ps.len(),
        0 <= k < ps.len(),
        climb(ps, j, d) == k,
    ensures
        climb(cut(ps), j, c) == k,
    decreases d,
{
    if j == k {
        0
    } else if j == 0 {
        lemma_from_first(ps, d);
        0
    } else {
        lemma_cut_keeps_way(ps, ps[j] as int, k, (d - 1) as nat) + 1
    }
}

/// From the entry with index 0 there is no way up to another entry.
proof fn lemma_from_first(ps: Seq<usize>, d: nat)
    requires
        ps.len() > 0,
        ps[0] == 0 || ps[0] >= ps.len(),
    ensures
        climb(ps, 0, d) == 0 || climb(ps, 0, d) >= ps.len(),
    decreases d,
{
    if d > 0 {
        if ps[0] == 0 {
            lemma_from_first(ps, (d - 1) as nat);
        } else {
            lemma_climb_outside(ps, ps[0] as int, (d - 1) as nat);
        }
    }
}

proof fn lemma_uncut_keeps_way(ps: Seq<usize>, j: int, k: int, d: nat)
    requires
        0 < ps.len() <= usize::MAX,
        0 <= k < ps.len(),
        climb(cut(ps), j, d) == k,
    ensures
        climb(ps, j, d) == k,
    decreases d,
{
    if d > 0 && j == 0 {
        lemma_climb_outside(cut(ps), usize::MAX as int, (d - 1) as nat);
    } else if d > 0 && 0 <= j < ps.len() {
        lemma_uncut_keeps_way(ps, ps[j] as int, k, (d - 1) as nat);
    }
}

/// Where the entry with index 0 has no other entry as its parent, the sums that a
/// directory gets are those over the files from which a way up leads to it.
pub proof fn law_sums_are_over_files_below(e: Seq<EntryModel>, k: int)
    requires
        0 <= k < e.len() <= usize::MAX,
        e[0].parent == 0 || e[0].parent >= e.len(),
    ensures
        bytes_beneath(e, k) == file_bytes(e, k),
        files_beneath(e, k) == total(
            |j: int|
                if e[j].is_file && is_above(parents(e), j, k) {
                    e[j].num_files as nat
                } else {
                    0nat
                },
            e.len(),
        ),
{
    let ps = parents(e);
    assert forall|j: int| is_above(cut(ps), j, k) == #[trigger] is_above(ps, j, k) by {
        if is_above(ps, j, k) {
            let d = choose|d: nat| #[trigger] climb(ps, j, d) == k;
            let c = lemma_cut_keeps_way(ps, j, k, d);
            assert(climb(cut(ps), j, c) == k);
        }
        if is_above(cut(ps), j, k) {
            let d = choose|d: nat| #[trigger] climb(cut(ps), j, d) == k;
            lemma_uncut_keeps_way(ps, j, k, d);
            assert(climb(ps, j, d) == k);
        }
    }
    lemma_total_same(
        |j: int|
            if is_above(cut(ps), j, k) {
                file_sizes(e)(j)
            } else {
                0nat
            },
        |j: int|
            if e[j].is_file && is_above(ps, j, k) {
                e[j].size as nat
            } else {
                0nat
            },
        e.len(),
    );
    lemma_total_same(
        |j: int|
            if is_above(cut(ps), j, k) {
                file_numbers(e)(j)
            } else {
                0nat
            },
        |j: int|
            if e[j].is_file && is_above(ps, j, k) {
                e[j].num_files as nat
            } else {
                0nat
            },
        e.len(),
    );
}

/// In a consistent tree every file counts as one file.
proof fn lemma_file_counts_one(e: Seq<EntryModel>, rows: Seq<TypeRow>, j: int)
    requires
        is_consistent(e, rows),
        0 <= j < e.len(),
        e[j].is_file,
    ensures
        e[j].num_files == 1,
{
    let ps = parents(e);
    let ones = |k: int|
        if e[k].is_file && is_above(ps, k, j) {
            1nat
        } else {
            0nat
        };
    assert(lists_its_children(e, j));
    assert(e[j].children.len() == 0);
    assert forall|c: usize| #[trigger] Seq::<usize>::empty().contains(c) <==> c < ps.len()
        && ps[c as int] == j by {
        assert(e[j].children.contains(c) <==> 1 <= c < e.len() && e[c as int].parent == j);
        if c == 0 && ps[0] == j {
            assert(e[0].parent == usize::MAX);
        }
    }
    assert(are_children(ps, j, Seq::empty()));
    assert forall|k: int| 0 <= k < e.len() && k != j implies #[trigger] ones(k) == 0 by {
        lemma_below_splits(ps, j, Seq::empty(), k);
    }
    assert(climb(ps, j, 0) == j);
    lemma_total_one(ones, j, e.len());
    assert(file_count(e, j) == 1);
}

/// Recalculating a consistent tree can be done and keeps it consistent. Every
/// directory then takes exactly the bytes of the files below it, and what
/// directories took on their own account is no longer counted.
pub proof fn law_recalculate_keeps_consistent(e: Seq<EntryModel>, rows: Seq<TypeRow>)
    requires
        is_consistent(e, rows),
    ensures
        sums_fit(e),
        is_consistent(recalculated(e), rows),
        forall|i: int| 0 <= i < e.len() ==> #[trigger] own_bytes(recalculated(e), i) == 0,
        forall|i: int|
            0 <= i < e.len() ==> (#[trigger] recalculated(e)[i]).num_files == e[i].num_files,
{
    let f = recalculated(e);
    let ps = parents(e);
    law_recalculate_tree(e);
    lemma_same_files(f, e);
    assert forall|i: int| 0 <= i < e.len() implies bytes_beneath(e, i) <= e[i].size && #[trigger] files_beneath(
        e,
        i,
    ) == e[i].num_files by {
        law_sums_are_over_files_below(e, i);
        assert(own_bytes(e, i) >= 0);
        let numbers = |j: int|
            if e[j].is_file && is_above(ps, j, i) {
                e[j].num_files as nat
            } else {
                0nat
            };
        let ones = |j: int|
            if e[j].is_file && is_above(ps, j, i) {
                1nat
            } else {
                0nat
            };
        assert forall|j: int| 0 <= j < e.len() implies #[trigger] numbers(j) == ones(j) by {
            if e[j].is_file {
                lemma_file_counts_one(e, rows, j);
            }
        }
        lemma_total_same(numbers, ones, e.len());
        assert(e[i].num_files == file_count(e, i));
    }
    assert(files_beneath(e, 0) == e[0].num_files);
    assert forall|i: int| 0 <= i < f.len() implies (#[trigger] f[i]).num_files == e[i].num_files by {
        assert(files_beneath(e, i) == e[i].num_files);
    }
    assert forall|i: int| 0 <= i < f.len() && (#[trigger] f[i]).is_file implies f[i].children.len()
        == 0 by {
        assert(e[i].children.len() == 0);
        assert(lists_its_children(e, i));
        lemma_linked_children(ps, i);
        if f[i].children.len() > 0 {
            let c = linked_children(ps, i)[0];
            assert(e[i].children.contains(c));
        }
    }
    assert forall|k: int| 0 <= k < e.len() implies (#[trigger] f[k]).is_file == e[k].is_file
        && f[k].parent == e[k].parent && f[k].path == e[k].path && (f[k].is_file ==> f[k].size
        == e[k].size) by {}
    lemma_same_files_sums(e, f);
    assert forall|i: int| 0 <= i < f.len() implies (#[trigger] f[i]).num_files == file_count(
        f,
        i,
    ) by {
        assert(file_count(f, i) == file_count(e, i));
        assert(e[i].num_files == file_count(e, i));
    }
    assert forall|key: Option<Seq<char>>| #[trigger] bytes_of(rows, key) == found_bytes_of(
        f,
        key,
    ) by {
        assert(found_bytes_of(f, key) == found_bytes_of(e, key));
    }
    assert forall|i: int| 0 <= i < e.len() implies #[trigger] own_bytes(f, i) == 0 by {
        assert(file_bytes(f, i) == file_bytes(e, i));
        assert(files_beneath(e, i) == e[i].num_files);
        law_sums_are_over_files_below(e, i);
        if e[i].is_file {
            assert(own_bytes(e, i) == 0);
        }
    }
}

/// Deleting `subtree` keeps exactly the entries that are neither it nor directly
/// below it, each once and in their order.
pub proof fn law_delete_keeps_the_others(e: Seq<EntryModel>, subtree: usize)
    requires
        e.len() <= usize::MAX,
    ensures
        without(e, subtree).len() == staying(parents(e), subtree).len(),
        forall|i: usize| #[trigger]
            staying(parents(e), subtree).contains(i) <==> i < e.len() && i != subtree
                && e[i as int].parent != subtree,
        forall|k: int, l: int|
            0 <= k < l < staying(parents(e), subtree).len() ==> (#[trigger] staying(
                parents(e),
                subtree,
            )[k]) < (#[trigger] staying(parents(e), subtree)[l]),
        forall|k: int|
            0 <= k < without(e, subtree).len() ==> (#[trigger] without(e, subtree)[k]).parent
                != subtree,
{
    let ps = parents(e);
    let all = positions(0, ps.len() as int);
    let pred = stays(ps, subtree);
    let list = staying(ps, subtree);
    assert forall|i: usize| #[trigger] list.contains(i) <==> i < e.len() && i != subtree
        && e[i as int].parent != subtree by {
        if i < e.len() && i != subtree && e[i as int].parent != subtree {
            assert(all[i as int] == i);
            all.lemma_filter_contains(pred, i as int);
        }
        if list.contains(i) {
            let k = choose|k: int| 0 <= k < list.len() && list[k] == i;
            all.lemma_filter_pred(pred, k);
            all.lemma_filter_contains_rev(pred, i);
            let q = choose|q: int| 0 <= q < all.len() && all[q] == i;
        }
    }
    assert forall|k: int| 0 <= k < without(e, subtree).len() implies (#[trigger] without(
        e,
        subtree,
    )[k]).parent != subtree by {
        assert(list.contains(list[k]));
    }
    lemma_filter_increasing(ps.len() as int, pred);
}

/// Recalculating changes no entry's parent, path or kind, and lists as children of an
/// entry, in increasing order, exactly the entries whose parent it is.
pub proof fn law_recalculate_entry_by_entry(e: Seq<EntryModel>, k: int)
    requires
        0 <= k < e.len() <= usize::MAX,
    ensures
        recalculated(e).len() == e.len(),
        recalculated(e)[k].parent == e[k].parent,
        recalculated(e)[k].path == e[k].path,
        recalculated(e)[k].is_file == e[k].is_file,
        recalculated(e)[k].expanded == e[k].expanded,
        e[k].is_file ==> recalculated(e)[k].size == e[k].size && recalculated(e)[k].num_files
            == e[k].num_files,
        !e[k].is_file && !is_above(parents(e), k, 0) ==> recalculated(e)[k].size == 0
            && recalculated(e)[k].num_files == 0,
        forall|c: usize| #[trigger]
            recalculated(e)[k].children.contains(c) <==> 1 <= c < e.len() && e[c as int].parent == k,
        forall|a: int, b: int|
            0 <= a < b < recalculated(e)[k].children.len() ==> (#[trigger] recalculated(
                e,
            )[k].children[a]) < (#[trigger] recalculated(e)[k].children[b]),
{
    let ps = parents(e);
    lemma_linked_children(ps, k);
    assert forall|c: usize| #[trigger] recalculated(e)[k].children.contains(c) <==> 1 <= c < e.len()
        && e[c as int].parent == k by {
        assert(linked_children(ps, k).contains(c) <==> 1 <= c < ps.len() && ps[c as int] == k);
    }
    lemma_linked_increasing(ps, k, ps.len() as int);
    assert(recalculated(e)[k].children == linked_before(ps, k, ps.len() as int));
}

proof fn lemma_linked_increasing(ps: Seq<usize>, p: int, hi: int)
    requires
        hi <= ps.len() <= usize::MAX,
    ensures
        forall|a: int, b: int|
            0 <= a < b < linked_before(ps, p, hi).len() ==> (#[trigger] linked_before(ps, p, hi)[a]) < (
            #[trigger] linked_before(ps, p, hi)[b]),
        forall|a: int|
            0 <= a < linked_before(ps, p, hi).len() ==> (#[trigger] linked_before(ps, p, hi)[a]) < hi,
    decreases hi,
{
    if hi <= 1 {
        assert(positions(1, hi) =~= Seq::<usize>::empty());
        reveal(Seq::filter);
    } else {
        lemma_linked_increasing(ps, p, hi - 1);
        lemma_linked_before_next(ps, p, hi - 1);
    }
}

/// The size that each entry of the list has.
spec fn size_at(f: Seq<EntryModel>) -> spec_fn(usize) -> int {
    |c: usize| f[c as int].size as int
}

/// The number of files that each entry of the list has.
spec fn number_at(f: Seq<EntryModel>) -> spec_fn(usize) -> int {
    |c: usize| f[c as int].num_files as int
}

proof fn lemma_sums_of_children(
    ps: Seq<usize>,
    weight: spec_fn(int) -> nat,
    list: Seq<usize>,
    value: spec_fn(usize) -> int,
)
    requires
        forall|k: int|
            0 <= k < list.len() ==> beneath(ps, weight, (#[trigger] list[k]) as int) == value(list[k]),
    ensures
        list.map_values(value).fold_left(0int, |a: int, b: int| a + b) == beneath_all(
            ps,
            weight,
            list,
        ),
    decreases list.len(),
{
    let values = list.map_values(value);
    if list.len() > 0 {
        let rest = list.drop_last();
        assert(values.drop_last() =~= rest.map_values(value));
        assert forall|k: int| 0 <= k < rest.len() implies beneath(
            ps,
            weight,
            (#[trigger] rest[k]) as int,
        ) == value(rest[k]) by {
            assert(rest[k] == list[k]);
        }
        lemma_sums_of_children(ps, weight, rest, value);
        assert(values.last() == value(list[list.len() - 1]));
    }
}

/// After recalculating a tree in which nothing is below a file, the bytes and the
/// number of files of every directory are those of its children, added up.
pub proof fn law_directory_is_the_sum_of_its_children(e: Seq<EntryModel>, k: int)
    requires
        is_tree(e),
        sums_fit(e),
        forall|i: int| 1 <= i < e.len() ==> !e[(#[trigger] e[i]).parent as int].is_file,
        0 <= k < e.len(),
        !e[k].is_file,
    ensures
        recalculated(e)[k].size == recalculated(e)[k].children.map_values(
            |c: usize| recalculated(e)[c as int].size as int,
        ).fold_left(0int, |a: int, b: int| a + b),
        recalculated(e)[k].num_files == recalculated(e)[k].children.map_values(
            |c: usize| recalculated(e)[c as int].num_files as int,
        ).fold_left(0int, |a: int, b: int| a + b),
{
    let f = recalculated(e);
    let ps = parents(e);
    let cs = cut(ps);
    let list = linked_children(ps, k);
    assert(cs =~= ps);
    law_recalculate_tree(e);
    law_tree_hangs_from_root(e, k);
    law_tree_climbs_end(e, k);
    law_recalculated_sums(e, k);
    lemma_linked_are_children(ps, k);
    lemma_linked_children(ps, k);
    lemma_beneath_splits(cs, file_sizes(e), k, list);
    lemma_beneath_splits(cs, file_numbers(e), k, list);
    assert forall|q: int| 0 <= q < list.len() implies beneath(
        cs,
        file_sizes(e),
        (#[trigger] list[q]) as int,
    ) == size_at(f)(list[q]) && beneath(cs, file_numbers(e), list[q] as int) == number_at(f)(
        list[q],
    ) by {
        let c = list[q] as int;
        law_recalculated_sums(e, c);
        law_tree_hangs_from_root(e, c);
        if e[c].is_file {
            law_tree_climbs_end(e, c);
            assert forall|d: usize| #[trigger] Seq::<usize>::empty().contains(d) <==> d < cs.len()
                && cs[d as int] == c by {
                if d < cs.len() && cs[d as int] == c {
                    if d >= 1 {
                        assert(!e[e[d as int].parent as int].is_file);
                    }
                }
            }
            assert(are_children(cs, c, Seq::empty()));
            lemma_beneath_splits(cs, file_sizes(e), c, Seq::empty());
            lemma_beneath_splits(cs, file_numbers(e), c, Seq::empty());
        }
    }
    lemma_sums_of_children(cs, file_sizes(e), list, size_at(f));
    lemma_sums_of_children(cs, file_numbers(e), list, number_at(f));
    assert(list.map_values(size_at(f)) =~= list.map_values(|c: usize| f[c as int].size as int));
    assert(list.map_values(number_at(f)) =~= list.map_values(
        |c: usize| f[c as int].num_files as int,
    ));
}

/// A list can be recalculated when it is not empty and everything but the entry with
/// index 0 has its parent in it.
pub proof fn law_can_be_recalculated(e: Seq<EntryModel>)
    ensures
        has_parents(e) <==> e.len() > 0 && forall|i: int|
            1 <= i < e.len() ==> (#[trigger] e[i]).parent < e.len(),
{
}

/// Every entry that stays when another is deleted is kept as it was: before the
/// numbers are calculated anew the list holds it with all its fields, and in the
/// result its parent, path and kind, and a file's numbers, are the old ones.
pub proof fn law_delete_keeps_every_field(e: Seq<EntryModel>, subtree: usize, k: int)
    requires
        e.len() <= usize::MAX,
        0 <= k < staying(parents(e), subtree).len(),
    ensures
        ({
            let i = staying(parents(e), subtree)[k] as int;
            let kept = without(e, subtree);
            let result = recalculated(without(e, subtree));
            &&& 0 <= i < e.len() && i != subtree && e[i].parent != subtree
            &&& kept.len() == staying(parents(e), subtree).len()
            &&& kept[k].parent == e[i].parent
            &&& kept[k].size == e[i].size
            &&& kept[k].path == e[i].path
            &&& kept[k].children == e[i].children
            &&& kept[k].num_files == e[i].num_files
            &&& kept[k].is_file == e[i].is_file
            &&& kept[k].expanded == e[i].expanded
            &&& result.len() == kept.len()
            &&& result[k].parent == e[i].parent
            &&& result[k].path == e[i].path
            &&& result[k].is_file == e[i].is_file
            &&& result[k].expanded == e[i].expanded
            &&& e[i].is_file ==> result[k].size == e[i].size && result[k].num_files
                == e[i].num_files
        }),
{
    law_delete_keeps_the_others(e, subtree);
    let list = staying(parents(e), subtree);
    assert(list.contains(list[k]));
}

} // verus!
