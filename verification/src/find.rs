//! Finding an entry by its path.
use vstd::prelude::*;
use std::path::PathBuf;
use crate::entry::{model, parents, Entry, EntryModel};
use crate::paths::{path_components, path_eq, path_starts_with, same_path, starts_with};
use crate::scan::inserted;
use crate::shape::{climb, is_above, is_tree, law_tree_hangs_from_root, lists_its_children};
use crate::shape::{lemma_climb_next, lemma_climb_stays_outside};

verus! {

/// Child `k` of the list is the first one that `path` lies at or below.
pub open spec fn is_first_on_way(
    e: Seq<EntryModel>,
    path: PathBuf,
    list: Seq<usize>,
    k: int,
) -> bool {
    &&& 0 <= k < list.len()
    &&& starts_with(path, e[list[k] as int].path)
    &&& forall|j: int|
        0 <= j < k ==> !starts_with(path, e[(#[trigger] list[j]) as int].path)
}

/// The search for `path` below the entry with index `i`: it goes down to the
/// first child that `path` lies at or below, until it meets `path` itself. At
/// most `h` steps are taken.
pub open spec fn lookup(e: Seq<EntryModel>, path: PathBuf, i: int, h: nat) -> Option<usize>
    decreases h,
{
    let list = e[i].children;
    if exists|k: int| is_first_on_way(e, path, list, k) {
        let c = list[choose|k: int| is_first_on_way(e, path, list, k)];
        if same_path(path, e[c as int].path) {
            Some(c)
        } else if h > 0 {
            lookup(e, path, c as int, (h - 1) as nat)
        } else {
            None
        }
    } else {
        None
    }
}

/// The search for `path` below the entry with index `i` looks at no index past
/// the end of the list and ends within `h` steps.
pub open spec fn lookup_ends(e: Seq<EntryModel>, path: PathBuf, i: int, h: nat) -> bool
    decreases h,
{
    &&& 0 <= i < e.len()
    &&& forall|k: int|
        0 <= k < e[i].children.len() && (forall|j: int|
            0 <= j < k ==> !starts_with(path, e[(#[trigger] e[i].children[j]) as int].path))
            ==> (#[trigger] e[i].children[k]) < e.len()
    &&& forall|k: int| #[trigger]
        is_first_on_way(e, path, e[i].children, k) && !same_path(
            path,
            e[e[i].children[k] as int].path,
        ) ==> h > 0 && lookup_ends(e, path, e[i].children[k] as int, (h - 1) as nat)
}

/// Every entry but the one with index 0 lies directly below its parent, and no
/// two entries of a directory have the same path.
pub open spec fn paths_nest(e: Seq<EntryModel>) -> bool {
    &&& forall|i: int|
        1 <= i < e.len() ==> {
            &&& starts_with((#[trigger] e[i]).path, e[e[i].parent as int].path)
            &&& path_components(e[i].path).len() == path_components(
                e[e[i].parent as int].path,
            ).len() + 1
        }
    &&& forall|i: int, j: int|
        1 <= i < j < e.len() && (#[trigger] e[i]).parent == (#[trigger] e[j]).parent
            ==> !same_path(e[i].path, e[j].path)
}

/// There is at most one first child on the way.
proof fn lemma_first_unique(e: Seq<EntryModel>, path: PathBuf, list: Seq<usize>, k: int)
    requires
        is_first_on_way(e, path, list, k),
    ensures
        k == (choose|k: int| is_first_on_way(e, path, list, k)),
{
    let l = choose|k: int| is_first_on_way(e, path, list, k);
    assert(is_first_on_way(e, path, list, l));
    if k < l {
        assert(!starts_with(path, e[list[k] as int].path));
    }
    if l < k {
        assert(!starts_with(path, e[list[l] as int].path));
    }
}

/// The number of steps allowed does not matter once the search ends.
proof fn lemma_lookup_same(e: Seq<EntryModel>, path: PathBuf, i: int, g: nat, h: nat)
    requires
        lookup_ends(e, path, i, g),
        lookup_ends(e, path, i, h),
    ensures
        lookup(e, path, i, g) == lookup(e, path, i, h),
    decreases g,
{
    let list = e[i].children;
    if exists|k: int| is_first_on_way(e, path, list, k) {
        let k = choose|k: int| is_first_on_way(e, path, list, k);
        assert(is_first_on_way(e, path, list, k));
        let c = list[k];
        if !same_path(path, e[c as int].path) {
            lemma_lookup_same(e, path, c as int, (g - 1) as nat, (h - 1) as nat);
        }
    }
}

/// Finds the entry with this path, going down from the entry with index 0, which
/// is not itself looked at. Only the first child that `path` lies at or below is
/// followed.
pub fn find_path_index(path: PathBuf, entries: &[Entry]) -> (found: Option<usize>)
    requires
        exists|h: nat| lookup_ends(model(entries@), path, 0, h),
    ensures
        forall|h: nat| #[trigger]
            lookup_ends(model(entries@), path, 0, h) ==> found == lookup(
                model(entries@),
                path,
                0,
                h,
            ),
        found matches Some(c) ==> c < entries@.len() && path_components(path) == path_components(
            entries@[c as int].path,
        ),
{
    let ghost e = model(entries@);
    let ghost all: nat = choose|h: nat| lookup_ends(e, path, 0, h);
    let ghost mut h: nat = all;
    let mut i: usize = 0;
    loop
        invariant
            e == model(entries@),
            lookup_ends(e, path, 0, all),
            lookup_ends(e, path, i as int, h),
            lookup(e, path, 0, all) == lookup(e, path, i as int, h),
        decreases h,
    {
        let count: usize = entries[i].children.len();
        let ghost list = e[i as int].children;
        let mut next: Option<usize> = None;
        let mut k: usize = 0;
        while k < count && next.is_none()
            invariant
                e == model(entries@),
                i < e.len(),
                list == e[i as int].children,
                count == list.len(),
                k <= count,
                lookup_ends(e, path, 0, all),
                lookup_ends(e, path, i as int, h),
                lookup(e, path, 0, all) == lookup(e, path, i as int, h),
                match next {
                    None => forall|j: int|
                        0 <= j < k ==> !starts_with(path, e[(#[trigger] list[j]) as int].path),
                    Some(c) => exists|q: int| #[trigger]
                        is_first_on_way(e, path, list, q) && list[q] == c && !same_path(
                            path,
                            e[c as int].path,
                        ),
                },
            decreases count - k,
        {
            let c: usize = entries[i].children[k];
            assert(c == list[k as int]);
            assert(e[c as int] == entries@[c as int]@);
            if path_eq(&path, &entries[c].path) {
                proof {
                    assert(is_first_on_way(e, path, list, k as int));
                    lemma_first_unique(e, path, list, k as int);
                    assert forall|g: nat| #[trigger] lookup_ends(e, path, 0, g) implies Some(c)
                        == lookup(e, path, 0, g) by {
                        lemma_lookup_same(e, path, 0, all, g);
                    }
                }
                return Some(c);
            }
            if path_starts_with(&path, &entries[c].path) {
                assert(is_first_on_way(e, path, list, k as int));
                next = Some(c);
            }
            k = k + 1;
        }
        match next {
            None => {
                proof {
                    assert forall|q: int| !is_first_on_way(e, path, list, q) by {
                        if is_first_on_way(e, path, list, q) {
                            assert(!starts_with(path, e[list[q] as int].path));
                        }
                    }
                    assert forall|g: nat| #[trigger] lookup_ends(e, path, 0, g) implies None::<usize>
                        == lookup(e, path, 0, g) by {
                        lemma_lookup_same(e, path, 0, all, g);
                    }
                }
                return None;
            },
            Some(c) => {
                proof {
                    let q = choose|q: int| #[trigger]
                        is_first_on_way(e, path, list, q) && list[q] == c && !same_path(
                            path,
                            e[c as int].path,
                        );
                    lemma_first_unique(e, path, list, q);
                    h = (h - 1) as nat;
                }
                i = c;
            },
        }
    }
}

/// In a tree every search ends.
pub proof fn law_tree_search_ends(e: Seq<EntryModel>, path: PathBuf, i: int)
    requires
        is_tree(e),
        0 <= i < e.len(),
    ensures
        exists|h: nat| lookup_ends(e, path, i, h),
{
    lemma_tree_lookup_ends(e, path, i, (e.len() - i) as nat);
}

proof fn lemma_tree_lookup_ends(e: Seq<EntryModel>, path: PathBuf, i: int, h: nat)
    requires
        is_tree(e),
        0 <= i < e.len(),
        h >= e.len() - i,
    ensures
        lookup_ends(e, path, i, h),
    decreases h,
{
    let list = e[i].children;
    assert(lists_its_children(e, i));
    assert forall|k: int| 0 <= k < list.len() implies i < (#[trigger] list[k]) < e.len() by {
        assert(list.contains(list[k]));
        assert(e[list[k] as int].parent < list[k]);
    }
    assert forall|k: int| #[trigger]
        is_first_on_way(e, path, list, k) && !same_path(path, e[list[k] as int].path) implies h > 0
        && lookup_ends(e, path, list[k] as int, (h - 1) as nat) by {
        lemma_tree_lookup_ends(e, path, list[k] as int, (h - 1) as nat);
    }
}

/// What is above an entry has the first components of its path, one less for
/// each step.
proof fn lemma_above_is_prefix(e: Seq<EntryModel>, k: int, d: nat)
    requires
        is_tree(e),
        paths_nest(e),
        0 <= k < e.len(),
        0 <= climb(parents(e), k, d) < e.len(),
    ensures
        starts_with(e[k].path, e[climb(parents(e), k, d)].path),
        path_components(e[k].path).len() == path_components(
            e[climb(parents(e), k, d)].path,
        ).len() + d,
    decreases d,
{
    if d > 0 {
        let ps = parents(e);
        let b = (d - 1) as nat;
        let c = climb(ps, k, b);
        if !(0 <= c < ps.len()) {
            lemma_climb_stays_outside(ps, k, b, d);
        }
        lemma_climb_next(ps, k, b);
        lemma_above_is_prefix(e, k, b);
        assert(c >= 1);
        assert(starts_with(e[c].path, e[e[c].parent as int].path));
    }
}

/// In a tree whose paths nest, the search from an entry finds everything that
/// lies below it.
proof fn lemma_lookup_finds(e: Seq<EntryModel>, path: PathBuf, i: int, k: int, h: nat)
    requires
        is_tree(e),
        paths_nest(e),
        0 <= i < e.len(),
        0 <= k < e.len(),
        same_path(path, e[k].path),
        is_above(parents(e), k, i),
        k != i,
        h >= e.len() - i,
    ensures
        lookup(e, path, i, h) == Some(k as usize),
    decreases h,
{
    let ps = parents(e);
    let list = e[i].children;
    let d = choose|d: nat| #[trigger] climb(ps, k, d) == i;
    let b = (d - 1) as nat;
    let c = climb(ps, k, b);
    if !(0 <= c < ps.len()) {
        lemma_climb_stays_outside(ps, k, b, d);
    }
    lemma_climb_next(ps, k, b);
    lemma_above_is_prefix(e, k, b);
    lemma_above_is_prefix(e, k, d);
    assert(c >= 1 && e[c].parent == i);
    assert(lists_its_children(e, i));
    assert(list.contains(c as usize));
    let q = choose|q: int| 0 <= q < list.len() && list[q] == c as usize;
    assert forall|j: int| 0 <= j < list.len() && starts_with(
        path,
        e[(#[trigger] list[j]) as int].path,
    ) implies list[j] == c by {
        let o = list[j] as int;
        assert(list.contains(list[j]));
        assert(e[o].parent == i);
        assert(path_components(e[o].path).len() == path_components(e[i].path).len() + 1);
        assert(path_components(e[c].path).len() == path_components(e[i].path).len() + 1);
        assert(path_components(e[o].path) =~= path_components(e[c].path));
        if o < c {
            assert(!same_path(e[o].path, e[c].path));
        } else if c < o {
            assert(!same_path(e[c].path, e[o].path));
        }
    }
    assert(is_first_on_way(e, path, list, q));
    lemma_first_unique(e, path, list, q);
    if c == k {
        assert(same_path(path, e[c].path));
    } else {
        assert(b > 0);
        assert(!same_path(path, e[c].path));
        assert(e[c].parent < c);
        assert(is_above(ps, k, c));
        lemma_lookup_finds(e, path, c, k, (h - 1) as nat);
    }
}

/// What a search finds has the path that was asked for, and is the child of
/// some entry.
proof fn lemma_lookup_sound(e: Seq<EntryModel>, path: PathBuf, i: int, h: nat)
    requires
        is_tree(e),
        0 <= i < e.len(),
    ensures
        lookup(e, path, i, h) matches Some(c) ==> 1 <= c < e.len() && same_path(
            path,
            e[c as int].path,
        ),
    decreases h,
{
    let list = e[i].children;
    if exists|k: int| is_first_on_way(e, path, list, k) {
        let k = choose|k: int| is_first_on_way(e, path, list, k);
        let c = list[k];
        assert(lists_its_children(e, i));
        assert(list.contains(c));
        if !same_path(path, e[c as int].path) && h > 0 {
            lemma_lookup_sound(e, path, c as int, (h - 1) as nat);
        }
    }
}

/// In a tree whose paths nest, searching for the path of any entry but the one
/// with index 0 finds that entry, and searching for a path that no such entry
/// has finds nothing.
pub proof fn law_search_finds_exactly(e: Seq<EntryModel>, path: PathBuf, h: nat, k: usize)
    requires
        is_tree(e),
        paths_nest(e),
        lookup_ends(e, path, 0, h),
    ensures
        lookup(e, path, 0, h) == Some(k) <==> 1 <= k < e.len() && same_path(
            path,
            e[k as int].path,
        ),
        lookup(e, path, 0, h) is None <==> forall|j: int|
            1 <= j < e.len() ==> !same_path(path, (#[trigger] e[j]).path),
{
    let most = e.len();
    lemma_tree_lookup_ends(e, path, 0, most);
    lemma_lookup_same(e, path, 0, h, most);
    lemma_lookup_sound(e, path, 0, most);
    assert forall|j: int| 1 <= j < e.len() && same_path(path, (#[trigger] e[j]).path) implies lookup(
        e,
        path,
        0,
        most,
    ) == Some(j as usize) by {
        law_tree_hangs_from_root(e, j);
        lemma_lookup_finds(e, path, 0, j, most);
    }
    if 1 <= k < e.len() && same_path(path, e[k as int].path) {
        assert(lookup(e, path, 0, most) == Some(k));
    }
}

/// What is found in a directory nests in it: a new entry directly below its parent,
/// with a path that no other entry there has, keeps the paths nested.
pub proof fn law_insert_keeps_paths_nested(e: Seq<EntryModel>, x: EntryModel)
    requires
        is_tree(e),
        paths_nest(e),
        e.len() < usize::MAX,
        x.parent < e.len(),
        starts_with(x.path, e[x.parent as int].path),
        path_components(x.path).len() == path_components(e[x.parent as int].path).len() + 1,
        forall|j: int|
            1 <= j < e.len() && (#[trigger] e[j]).parent == x.parent ==> !same_path(e[j].path, x.path),
    ensures
        paths_nest(inserted(e, x)),
{
    let after = inserted(e, x);
    let longer = e.push(x);
    assert forall|k: int| 0 <= k < after.len() implies (#[trigger] after[k]).path == longer[k].path
        && after[k].parent == longer[k].parent by {}
    assert forall|i: int| 1 <= i < after.len() implies {
        &&& starts_with((#[trigger] after[i]).path, after[after[i].parent as int].path)
        &&& path_components(after[i].path).len() == path_components(
            after[after[i].parent as int].path,
        ).len() + 1
    } by {
        if i < e.len() {
            assert(e[i].parent < i);
            assert(longer[i] == e[i]);
            assert(longer[e[i].parent as int] == e[e[i].parent as int]);
        }
    }
    assert forall|i: int, j: int|
        1 <= i < j < after.len() && (#[trigger] after[i]).parent == (
        #[trigger] after[j]).parent implies !same_path(after[i].path, after[j].path) by {
        assert(longer[i] == e[i]);
        if j < e.len() {
            assert(longer[j] == e[j]);
        }
    }
}

/// In a tree in which every entry lies directly below its parent and no two entries of
/// a directory have the same path, the search finds the one entry with this path,
/// other than the one with index 0, and nothing if there is none.
pub proof fn law_search_by_components(e: Seq<EntryModel>, path: PathBuf, h: nat, k: usize)
    requires
        is_tree(e),
        forall|i: int|
            1 <= i < e.len() ==> path_components((#[trigger] e[i]).path).drop_last()
                == path_components(e[e[i].parent as int].path) && path_components(e[i].path).len()
                >= 1,
        forall|i: int, j: int|
            1 <= i < j < e.len() && (#[trigger] e[i]).parent == (#[trigger] e[j]).parent
                ==> path_components(e[i].path) != path_components(e[j].path),
        lookup_ends(e, path, 0, h),
    ensures
        lookup(e, path, 0, h) == Some(k) <==> 1 <= k < e.len() && path_components(path)
            == path_components(e[k as int].path),
        lookup(e, path, 0, h) is None <==> forall|j: int|
            1 <= j < e.len() ==> path_components(path) != path_components((#[trigger] e[j]).path),
{
    assert forall|i: int| 1 <= i < e.len() implies {
        &&& starts_with((#[trigger] e[i]).path, e[e[i].parent as int].path)
        &&& path_components(e[i].path).len() == path_components(
            e[e[i].parent as int].path,
        ).len() + 1
    } by {
        let own = path_components(e[i].path);
        let around = path_components(e[e[i].parent as int].path);
        assert(around =~= own.subrange(0, around.len() as int));
    }
    assert(paths_nest(e));
    law_search_finds_exactly(e, path, h, k);
}

/// A search looks at the children of an entry in order and goes by the first that the
/// path lies at or below: it is found there if the paths are the same, and looked for
/// further down if not. Where there is no such child, nothing is found.
pub proof fn law_search_step(e: Seq<EntryModel>, path: PathBuf, i: int, h: nat, k: int)
    requires
        0 <= i < e.len(),
        h > 0,
        0 <= k <= e[i].children.len(),
        forall|j: int|
            0 <= j < k ==> !path_components(e[(#[trigger] e[i].children[j]) as int].path).is_prefix_of(
                path_components(path),
            ),
        k < e[i].children.len() ==> path_components(
            e[e[i].children[k] as int].path,
        ).is_prefix_of(path_components(path)),
    ensures
        k == e[i].children.len() ==> lookup(e, path, i, h) is None,
        k < e[i].children.len() && path_components(path) == path_components(
            e[e[i].children[k] as int].path,
        ) ==> lookup(e, path, i, h) == Some(e[i].children[k]),
        k < e[i].children.len() && path_components(path) != path_components(
            e[e[i].children[k] as int].path,
        ) ==> lookup(e, path, i, h) == lookup(
            e,
            path,
            e[i].children[k] as int,
            (h - 1) as nat,
        ),
{
    let list = e[i].children;
    assert forall|j: int| 0 <= j < k implies !starts_with(
        path,
        e[(#[trigger] list[j]) as int].path,
    ) by {}
    if k < list.len() {
        assert(is_first_on_way(e, path, list, k));
        lemma_first_unique(e, path, list, k);
    } else {
        assert forall|q: int| !is_first_on_way(e, path, list, q) by {
            if is_first_on_way(e, path, list, q) {
                assert(!starts_with(path, e[list[q] as int].path));
            }
        }
    }
}

} // verus!
