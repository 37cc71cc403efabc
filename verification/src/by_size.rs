//! Ordering the children of entries by size.
use vstd::prelude::*;
use crate::entry::{kids, model, parents, sizes_of, Entry, EntryModel};
use crate::file_types::TypeRow;
use crate::order::{arrange, arranged, law_arranged_same_items, law_sorted_keys_stay};
use crate::order::{law_arranged_by_key, law_stable_order, stable_order};
use crate::shape::{climb, climb_ends, ends_below, ends_within, is_above, is_below, is_tree};
use crate::shape::{law_tree_climbs_end, law_tree_ends_below, lemma_distinct_bounded};
use crate::shape::lists_its_children;
use crate::shape::{lemma_climb_add, lemma_climb_next, lemma_climb_stays_outside, met_before};
use crate::totals::{is_consistent, law_same_numbers_stay_consistent};

verus! {

/// These indices, smallest entry first; entries of the same size in the
/// order they had.
pub open spec fn by_size(e: Seq<EntryModel>, list: Seq<usize>) -> Seq<usize> {
    arranged(list, sizes_of(e, list))
}

/// The entry with its children ordered by size.
pub open spec fn with_sorted_children(e: Seq<EntryModel>, m: EntryModel) -> EntryModel {
    EntryModel { children: by_size(e, m.children), ..m }
}

/// Every index is one of an entry of the list.
pub open spec fn in_list(e: Seq<EntryModel>, list: Seq<usize>) -> bool {
    forall|k: int| 0 <= k < list.len() ==> (#[trigger] list[k]) < e.len()
}

/// These indices can be ordered: a single one is not looked at, several are all
/// ones of entries of the list.
pub open spec fn can_order(e: Seq<EntryModel>, list: Seq<usize>) -> bool {
    list.len() >= 2 ==> in_list(e, list)
}

/// The way up from `t` ends, and the children of the entries on it that have a
/// parent can be ordered.
pub open spec fn can_sort_upwards(e: Seq<EntryModel>, t: int) -> bool {
    &&& climb_ends(parents(e), t)
    &&& forall|j: int| #[trigger]
        is_above(parents(e), t, j) && e[j].parent < e.len() ==> can_order(e, e[j].children)
}

/// The children of `j` are ordered when the subtree of `i` is: `j` has a parent,
/// and it is at or above an entry that is at or below `i`.
pub open spec fn is_sorted_for(e: Seq<EntryModel>, i: int, j: int) -> bool {
    &&& e[j].parent < e.len()
    &&& exists|t: int, d: nat| #[trigger]
        is_below(kids(e), i, t, d) && #[trigger] is_above(parents(e), t, j)
}

/// The list after the subtree of `i` was ordered by size.
pub open spec fn subtree_sorted(e: Seq<EntryModel>, i: int) -> Seq<EntryModel> {
    Seq::new(
        e.len(),
        |j: int|
            if is_sorted_for(e, i, j) {
                with_sorted_children(e, e[j])
            } else {
                e[j]
            },
    )
}

/// The two lists agree but for the order in which entries list their children.
pub open spec fn same_links(a: Seq<EntryModel>, b: Seq<EntryModel>) -> bool {
    &&& a.len() == b.len()
    &&& forall|k: int|
        0 <= k < a.len() ==> (#[trigger] a[k]) == (EntryModel {
            children: a[k].children,
            ..b[k]
        })
    &&& forall|k: int|
        0 <= k < a.len() ==> (#[trigger] a[k]).children.len() == b[k].children.len()
    &&& forall|k: int, c: usize|
        0 <= k < a.len() ==> ((#[trigger] a[k].children.contains(c)) <==> b[k].children.contains(c))
}

proof fn lemma_same_links_below(
    a: Seq<EntryModel>,
    b: Seq<EntryModel>,
    i: int,
    t: int,
    d: nat,
)
    requires
        same_links(a, b),
        is_below(kids(a), i, t, d),
    ensures
        is_below(kids(b), i, t, d),
    decreases d,
{
    if d > 0 {
        let k = choose|k: int|
            0 <= k < kids(a)[i].len() && is_below(
                kids(a),
                (#[trigger] kids(a)[i][k]) as int,
                t,
                (d - 1) as nat,
            );
        let c = kids(a)[i][k];
        assert(a[i].children.contains(c));
        assert(b[i].children.contains(c));
        let l = choose|l: int| 0 <= l < b[i].children.len() && b[i].children[l] == c;
        lemma_same_links_below(a, b, c as int, t, (d - 1) as nat);
        assert(kids(b)[i][l] == c);
    }
}

proof fn lemma_same_links_symmetric(a: Seq<EntryModel>, b: Seq<EntryModel>)
    requires
        same_links(a, b),
    ensures
        same_links(b, a),
        parents(a) == parents(b),
{
    assert forall|k: int| 0 <= k < b.len() implies (#[trigger] b[k]) == (EntryModel {
        children: b[k].children,
        ..a[k]
    }) by {
        assert(a[k] == (EntryModel { children: a[k].children, ..b[k] }));
    }
    assert forall|k: int| 0 <= k < b.len() implies (#[trigger] b[k]).children.len()
        == a[k].children.len() by {
        assert(a[k].children.len() == b[k].children.len());
    }
    assert forall|k: int, c: usize| 0 <= k < b.len() implies ((
    #[trigger] b[k].children.contains(c)) <==> a[k].children.contains(c)) by {
        assert(a[k].children.contains(c) <==> b[k].children.contains(c));
    }
    assert forall|k: int| 0 <= k < a.len() implies parents(a)[k] == parents(b)[k] by {
        assert(a[k] == (EntryModel { children: a[k].children, ..b[k] }));
    }
    assert(parents(a) =~= parents(b));
}

proof fn lemma_same_links_ends(a: Seq<EntryModel>, b: Seq<EntryModel>, i: int, h: nat)
    requires
        same_links(a, b),
        ends_within(kids(a), i, h),
    ensures
        ends_within(kids(b), i, h),
{
    let ka = kids(a);
    let kb = kids(b);
    assert forall|k: int, c: usize| 0 <= k < kb.len() && (#[trigger] kb[k].contains(c)) implies
        ka[k].contains(c) by {
        assert(a[k].children.contains(c) <==> b[k].children.contains(c));
    }
    lemma_fewer_kids_end(ka, kb, i, h);
}

/// Every way down ends that only uses children listed where every way ends.
pub proof fn lemma_fewer_kids_end(ka: Seq<Seq<usize>>, kb: Seq<Seq<usize>>, i: int, h: nat)
    requires
        ka.len() == kb.len(),
        forall|k: int, c: usize|
            0 <= k < kb.len() && (#[trigger] kb[k].contains(c)) ==> ka[k].contains(c),
        ends_within(ka, i, h),
    ensures
        ends_within(kb, i, h),
    decreases h,
{
    assert forall|k: int| 0 <= k < kb[i].len() implies h > 0 && ends_within(
        kb,
        (#[trigger] kb[i][k]) as int,
        (h - 1) as nat,
    ) by {
        let c = kb[i][k];
        assert(kb[i].contains(c));
        let l = choose|l: int| 0 <= l < ka[i].len() && ka[i][l] == c;
        assert(ka[i][l] == c);
        lemma_fewer_kids_end(ka, kb, c as int, (h - 1) as nat);
    }
    assert(0 <= i < kb.len());
    assert(h == 0 ==> kb[i].len() == 0) by {
        if kb[i].len() > 0 {
            assert(kb[i].contains(kb[i][0]));
        }
    }
    assert(ends_within(kb, i, h));
}

proof fn lemma_same_links_sorted_for(
    a: Seq<EntryModel>,
    b: Seq<EntryModel>,
    i: int,
    j: int,
)
    requires
        same_links(a, b),
        0 <= j < a.len(),
    ensures
        is_sorted_for(a, i, j) == is_sorted_for(b, i, j),
{
    lemma_same_links_symmetric(a, b);
    assert(a[j] == (EntryModel { children: a[j].children, ..b[j] }));
    if is_sorted_for(a, i, j) {
        let (t, d) = choose|t: int, d: nat| #[trigger]
            is_below(kids(a), i, t, d) && #[trigger] is_above(parents(a), t, j);
        lemma_same_links_below(a, b, i, t, d);
        assert(is_below(kids(b), i, t, d) && is_above(parents(b), t, j));
    }
    if is_sorted_for(b, i, j) {
        let (t, d) = choose|t: int, d: nat| #[trigger]
            is_below(kids(b), i, t, d) && #[trigger] is_above(parents(b), t, j);
        lemma_same_links_below(b, a, i, t, d);
        assert(is_below(kids(a), i, t, d) && is_above(parents(a), t, j));
    }
}

proof fn lemma_same_links_upwards(a: Seq<EntryModel>, b: Seq<EntryModel>, t: int)
    requires
        same_links(a, b),
        can_sort_upwards(a, t),
    ensures
        can_sort_upwards(b, t),
{
    lemma_same_links_symmetric(a, b);
    assert forall|j: int| #[trigger]
        is_above(parents(b), t, j) && b[j].parent < b.len() implies can_order(
        b,
        b[j].children,
    ) by {
        assert(is_above(parents(a), t, j));
        assert(a[j] == (EntryModel { children: a[j].children, ..b[j] }));
        assert(a[j].children.len() == b[j].children.len());
        lemma_same_links_order(a, b, j);
    }
}

/// Lists of children that hold the same can be ordered alike.
proof fn lemma_same_links_order(a: Seq<EntryModel>, b: Seq<EntryModel>, j: int)
    requires
        same_links(a, b),
        0 <= j < a.len(),
        can_order(a, a[j].children),
    ensures
        can_order(b, b[j].children),
{
    assert(a[j].children.len() == b[j].children.len());
    assert forall|k: int| 0 <= k < b[j].children.len() && b[j].children.len() >= 2 implies (
    #[trigger] b[j].children[k]) < b.len() by {
        let c = b[j].children[k];
        assert(b[j].children.contains(c));
        assert(a[j].children.contains(c));
        let l = choose|l: int| 0 <= l < a[j].children.len() && a[j].children[l] == c;
    }
}

/// Ordering by size keeps the indices that were there, puts smaller entries
/// first, and leaves a listing that is ordered already as it is.
pub proof fn law_by_size(e: Seq<EntryModel>, list: Seq<usize>)
    requires
        list.len() <= usize::MAX,
    ensures
        by_size(e, list).len() == list.len(),
        by_size(e, list).to_multiset() == list.to_multiset(),
        forall|c: usize| #[trigger] by_size(e, list).contains(c) <==> list.contains(c),
        forall|a: int, b: int|
            0 <= a < b < list.len() ==> e[(#[trigger] by_size(e, list)[a]) as int].size <= e[(
            #[trigger] by_size(e, list)[b]) as int].size,
        by_size(e, by_size(e, list)) == by_size(e, list),
{
    let keys = sizes_of(e, list);
    let sorted = by_size(e, list);
    law_stable_order(keys);
    law_arranged_same_items(list, keys);
    assert forall|a: int, b: int| 0 <= a < b < list.len() implies e[(#[trigger] sorted[a]) as int].size
        <= e[(#[trigger] sorted[b]) as int].size by {
        let p = stable_order(keys)[a];
        let q = stable_order(keys)[b];
        assert(keys[p as int] <= keys[q as int]);
    }
    let again = sizes_of(e, sorted);
    law_sorted_keys_stay(again);
    assert(by_size(e, sorted) =~= sorted);
}

/// There is only one way to order a single index.
proof fn lemma_one_stays(e: Seq<EntryModel>, list: Seq<usize>)
    requires
        list.len() < 2,
    ensures
        by_size(e, list) == list,
{
    law_by_size(e, list);
    if list.len() == 1 {
        assert(list.contains(list[0]));
        assert(by_size(e, list).contains(list[0]));
    }
    assert(by_size(e, list) =~= list);
}

/// The sizes decide the order; lists that agree on them order alike.
proof fn lemma_by_size_same(a: Seq<EntryModel>, b: Seq<EntryModel>, list: Seq<usize>)
    requires
        same_links(a, b),
        can_order(a, list),
    ensures
        by_size(a, list) == by_size(b, list),
{
    if list.len() < 2 {
        lemma_one_stays(a, list);
        lemma_one_stays(b, list);
    } else {
        assert forall|k: int| 0 <= k < list.len() implies sizes_of(a, list)[k] == sizes_of(
            b,
            list,
        )[k] by {
            let c = list[k] as int;
            assert(a[c] == (EntryModel { children: a[c].children, ..b[c] }));
        }
        assert(sizes_of(a, list) =~= sizes_of(b, list));
    }
}

/// These indices ordered by the size of their entries.
pub fn sort_by_size(entries: &[Entry], list: &Vec<usize>) -> (sorted: Vec<usize>)
    requires
        can_order(model(entries@), list@),
    ensures
        sorted@ == by_size(model(entries@), list@),
        sorted@.len() == list@.len(),
        sorted@.to_multiset() == list@.to_multiset(),
        forall|a: int, b: int|
            0 <= a < b < sorted@.len() ==> entries@[(#[trigger] sorted@[a]) as int].size <= entries@[(
            #[trigger] sorted@[b]) as int].size,
{
    let ghost e = model(entries@);
    proof {
        assert(list@.len() == list.len());
        law_by_size(e, list@);
        let sorted = by_size(e, list@);
        assert forall|a: int, b: int| 0 <= a < b < sorted.len() implies entries@[(
        #[trigger] sorted[a]) as int].size <= entries@[(#[trigger] sorted[b]) as int].size by {
            assert(list@.contains(sorted[a]) && list@.contains(sorted[b])) by {
                assert(sorted.contains(sorted[a]) && sorted.contains(sorted[b]));
            }
            let p = choose|p: int| 0 <= p < list@.len() && list@[p] == sorted[a];
            let q = choose|q: int| 0 <= q < list@.len() && list@[q] == sorted[b];
            assert(e[list@[p] as int].size <= e[list@[q] as int].size);
        }
    }
    if list.len() < 2 {
        proof {
            lemma_one_stays(e, list@);
        }
        let same = list.clone();
        assert(same@ =~= list@);
        return same;
    }
    let mut keys: Vec<u64> = Vec::new();
    let mut k: usize = 0;
    while k < list.len()
        invariant
            e == model(entries@),
            in_list(e, list@),
            k <= list@.len(),
            keys@ =~= sizes_of(e, list@).take(k as int),
        decreases list@.len() - k,
    {
        keys.push(entries[list[k]].size);
        k = k + 1;
    }
    assert(keys@ =~= sizes_of(e, list@));
    arrange(list, &keys)
}

/// One of the first `m` entries of `list` asks for the children of `j` to be
/// ordered.
spec fn asked_by_first(e: Seq<EntryModel>, list: Seq<usize>, m: int, j: int) -> bool {
    exists|q: int| 0 <= q < m && is_sorted_for(e, (#[trigger] list[q]) as int, j)
}

/// The list in which the entries that `asked` picks have their children ordered.
spec fn sorted_where(e: Seq<EntryModel>, asked: spec_fn(int) -> bool) -> Seq<EntryModel> {
    Seq::new(
        e.len(),
        |j: int|
            if asked(j) {
                with_sorted_children(e, e[j])
            } else {
                e[j]
            },
    )
}

proof fn lemma_sorted_where_links(e: Seq<EntryModel>, asked: spec_fn(int) -> bool)
    requires
        forall|j: int| 0 <= j < e.len() ==> (#[trigger] e[j]).children.len() <= usize::MAX,
    ensures
        same_links(e, sorted_where(e, asked)),
{
    let f = sorted_where(e, asked);
    assert forall|k: int| 0 <= k < e.len() implies (#[trigger] e[k]) == (EntryModel {
        children: e[k].children,
        ..f[k]
    }) by {}
    assert forall|k: int| 0 <= k < e.len() implies (#[trigger] e[k]).children.len()
        == f[k].children.len() by {
        law_by_size(e, e[k].children);
    }
    assert forall|k: int, c: usize| 0 <= k < e.len() implies ((
    #[trigger] e[k].children.contains(c)) <==> f[k].children.contains(c)) by {
        law_by_size(e, e[k].children);
        assert(by_size(e, e[k].children).contains(c) <==> e[k].children.contains(c));
    }
}

/// What is asked for the subtree of `i` is asked for by the subtrees of its
/// children, or lies on the way up from `i`.
proof fn lemma_sorted_for_splits(e: Seq<EntryModel>, i: int, j: int)
    requires
        0 <= i < e.len(),
        0 <= j < e.len(),
    ensures
        is_sorted_for(e, i, j) == (asked_by_first(
            e,
            e[i].children,
            e[i].children.len() as int,
            j,
        ) || (is_above(parents(e), i, j) && e[j].parent < e.len())),
{
    let list = e[i].children;
    let ks = kids(e);
    if is_sorted_for(e, i, j) {
        let (t, d) = choose|t: int, d: nat| #[trigger]
            is_below(ks, i, t, d) && #[trigger] is_above(parents(e), t, j);
        if d > 0 {
            let k = choose|k: int|
                0 <= k < ks[i].len() && is_below(ks, (#[trigger] ks[i][k]) as int, t, (d - 1) as nat);
            assert(list[k] == ks[i][k]);
            assert(is_below(ks, list[k] as int, t, (d - 1) as nat) && is_above(parents(e), t, j));
            assert(is_sorted_for(e, list[k] as int, j));
        }
    }
    if asked_by_first(e, list, list.len() as int, j) {
        let q = choose|q: int|
            0 <= q < list.len() && is_sorted_for(e, (#[trigger] list[q]) as int, j);
        let (t, d) = choose|t: int, d: nat| #[trigger]
            is_below(ks, list[q] as int, t, d) && #[trigger] is_above(parents(e), t, j);
        assert(ks[i][q] == list[q]);
        assert(is_below(ks, i, t, d + 1));
        assert(is_below(ks, i, t, d + 1) && is_above(parents(e), t, j));
    }
    if is_above(parents(e), i, j) && e[j].parent < e.len() {
        assert(is_below(ks, i, i, 0) && is_above(parents(e), i, j));
    }
}

fn sort_below(i: usize, entries: &mut [Entry], Ghost(h): Ghost<nat>)
    requires
        ends_within(kids(model(old(entries)@)), i as int, h),
        forall|t: int, d: nat| #[trigger]
            is_below(kids(model(old(entries)@)), i as int, t, d) ==> can_sort_upwards(
                model(old(entries)@),
                t,
            ),
    ensures
        model(final(entries)@) == subtree_sorted(model(old(entries)@), i as int),
    decreases h,
{
    let ghost e = model(entries@);
    let ghost ps = parents(e);
    let ghost ks = kids(e);
    let n: usize = entries.len();
    proof {
        assert forall|j: int| 0 <= j < e.len() implies (#[trigger] e[j]).children.len()
            <= usize::MAX by {
            assert(entries@[j].children.len() == entries@[j].children@.len());
        }
    }
    let list = entries[i].children.clone();
    assert(list@ =~= e[i as int].children);
    let mut m: usize = 0;
    let ghost asked = |j: int| asked_by_first(e, list@, 0, j);
    assert(model(entries@) =~= sorted_where(e, asked));
    while m < list.len()
        invariant
            e == model(old(entries)@),
            ks == kids(e),
            n == e.len(),
            i < n,
            list@ == e[i as int].children,
            m <= list@.len(),
            ends_within(ks, i as int, h),
            forall|t: int, d: nat| #[trigger]
                is_below(ks, i as int, t, d) ==> can_sort_upwards(e, t),
            forall|j: int| 0 <= j < e.len() ==> (#[trigger] e[j]).children.len() <= usize::MAX,
            asked == (|j: int| asked_by_first(e, list@, m as int, j)),
            model(entries@) == sorted_where(e, asked),
        decreases list@.len() - m,
    {
        let c: usize = list[m];
        let ghost cur = model(entries@);
        proof {
            assert(c == ks[i as int][m as int]);
            assert(h > 0 && ends_within(ks, c as int, (h - 1) as nat));
            lemma_sorted_where_links(e, asked);
            lemma_same_links_ends(e, cur, c as int, (h - 1) as nat);
            lemma_same_links_symmetric(e, cur);
            assert forall|t: int, d: nat| #[trigger]
                is_below(kids(cur), c as int, t, d) implies can_sort_upwards(cur, t) by {
                lemma_same_links_below(cur, e, c as int, t, d);
                assert(ks[i as int][m as int] == c);
                assert(is_below(ks, i as int, t, d + 1));
                lemma_same_links_upwards(e, cur, t);
            }
        }
        sort_below(c, entries, Ghost((h - 1) as nat));
        proof {
            let next = |j: int| asked_by_first(e, list@, m + 1, j);
            assert forall|j: int| 0 <= j < n implies model(entries@)[j] == sorted_where(
                e,
                next,
            )[j] by {
                lemma_same_links_sorted_for(e, cur, c as int, j);
                assert(next(j) == (asked(j) || is_sorted_for(e, c as int, j))) by {
                    if asked(j) {
                        let q = choose|q: int|
                            0 <= q < m && is_sorted_for(e, (#[trigger] list@[q]) as int, j);
                        assert(is_sorted_for(e, list@[q] as int, j));
                    }
                    if is_sorted_for(e, c as int, j) {
                        assert(is_sorted_for(e, list@[m as int] as int, j));
                    }
                }
                if is_sorted_for(e, c as int, j) {
                    let (t, d) = choose|t: int, d: nat| #[trigger]
                        is_below(ks, c as int, t, d) && #[trigger] is_above(parents(e), t, j);
                    assert(ks[i as int][m as int] == c);
                    assert(is_below(ks, i as int, t, d + 1));
                    assert(can_sort_upwards(e, t));
                    assert(can_order(e, e[j].children));
                    law_by_size(e, e[j].children);
                    assert(cur[j].children.len() == e[j].children.len());
                    lemma_same_links_order(e, cur, j);
                    lemma_by_size_same(cur, e, cur[j].children);
                }
            }
            assert(model(entries@) =~= sorted_where(e, next));
            asked = next;
        }
        m = m + 1;
    }
    let mut j: usize = i;
    let ghost mut t: nat = 0;
    let ghost end: nat = choose|d: nat| !(0 <= #[trigger] climb(ps, i as int, d) < ps.len());
    proof {
        assert(is_below(ks, i as int, i as int, 0));
        assert(can_sort_upwards(e, i as int));
        let next = |k: int|
            asked_by_first(e, list@, list@.len() as int, k) || met_before(ps, i as int, 0, k);
        assert(model(entries@) =~= sorted_where(e, next));
        asked = next;
        assert(entries@[i as int]@ == model(entries@)[i as int]);
    }
    while entries[j].parent < n
        invariant
            e == model(old(entries)@),
            ps == parents(e),
            n == e.len(),
            entries@.len() == n,
            i < n,
            j < n,
            j == climb(ps, i as int, t),
            can_sort_upwards(e, i as int),
            !(0 <= climb(ps, i as int, end) < n),
            forall|j: int| 0 <= j < e.len() ==> (#[trigger] e[j]).children.len() <= usize::MAX,
            asked == (|k: int|
                asked_by_first(e, list@, list@.len() as int, k) || met_before(ps, i as int, t, k)),
            model(entries@) == sorted_where(e, asked),
        decreases end - t,
    {
        let ghost cur = model(entries@);
        proof {
            if t >= end {
                lemma_climb_stays_outside(ps, i as int, end, t);
            }
            assert(entries@[j as int]@ == cur[j as int]);
            assert(is_above(ps, i as int, j as int));
            lemma_sorted_where_links(e, asked);
            lemma_same_links_symmetric(e, cur);
            lemma_same_links_upwards(e, cur, i as int);
            assert(e[j as int].parent < n);
            lemma_climb_next(ps, i as int, t);
        }
        let children = sort_by_size(entries, &entries[j].children);
        let ghost before = entries@;
        entries[j].children = children;
        proof {
            let next = |k: int|
                asked_by_first(e, list@, list@.len() as int, k) || met_before(
                    ps,
                    i as int,
                    t + 1,
                    k,
                );
            law_by_size(e, e[j as int].children);
            lemma_same_links_order(e, cur, j as int);
            lemma_by_size_same(cur, e, cur[j as int].children);
            assert forall|k: int| 0 <= k < n implies model(entries@)[k] == sorted_where(
                e,
                next,
            )[k] by {
                assert(next(k) == (asked(k) || k == j)) by {
                    if met_before(ps, i as int, t, k) {
                        let s = choose|s: nat| s < t && #[trigger] climb(ps, i as int, s) == k;
                        assert(s < t + 1);
                    }
                    if met_before(ps, i as int, t + 1, k) {
                        let s = choose|s: nat| s < t + 1 && #[trigger] climb(ps, i as int, s) == k;
                        assert(s < t || s == t);
                    }
                }
                if k == j {
                    assert(model(entries@)[k].children == by_size(e, e[j as int].children));
                } else {
                    assert(model(entries@)[k] == cur[k]);
                }
            }
            assert(model(entries@) =~= sorted_where(e, next));
            asked = next;
            t = t + 1;
        }
        j = entries[j].parent;
    }
    proof {
        let cur = model(entries@);
        lemma_sorted_where_links(e, asked);
        lemma_same_links_symmetric(e, cur);
        assert(entries@[j as int]@ == cur[j as int]);
        assert(e[j as int].parent >= n) by {
            assert(e[j as int] == (EntryModel { children: e[j as int].children, ..cur[j as int] }));
        }
        lemma_climb_next(ps, i as int, t);
        assert forall|k: int| 0 <= k < n implies cur[k] == subtree_sorted(e, i as int)[k] by {
            lemma_sorted_for_splits(e, i as int, k);
            assert(met_before(ps, i as int, t, k) == (is_above(ps, i as int, k) && e[k].parent < n))
                by {
                if met_before(ps, i as int, t, k) {
                    let s = choose|s: nat| s < t && #[trigger] climb(ps, i as int, s) == k;
                    if !(0 <= climb(ps, i as int, s + 1) < n) {
                        lemma_climb_stays_outside(ps, i as int, s + 1, t);
                    }
                    lemma_climb_next(ps, i as int, s);
                }
                if is_above(ps, i as int, k) && e[k].parent < n {
                    let d = choose|d: nat| #[trigger] climb(ps, i as int, d) == k;
                    if d > t {
                        lemma_climb_stays_outside(ps, i as int, t + 1, d);
                    }
                }
            }
        }
        assert(cur =~= subtree_sorted(e, i as int));
    }
}

/// Orders by size the children of every entry at or below the entry with index
/// `i` and of every entry above it, except where an entry has no parent: there
/// the children stay as they are.
pub fn sort_subtree_by_size(i: usize, entries: &mut [Entry])
    requires
        ends_below(kids(model(old(entries)@)), i as int),
        forall|t: int, d: nat| #[trigger]
            is_below(kids(model(old(entries)@)), i as int, t, d) ==> can_sort_upwards(
                model(old(entries)@),
                t,
            ),
    ensures
        model(final(entries)@) == subtree_sorted(model(old(entries)@), i as int),
        final(entries)@.len() == old(entries)@.len(),
        forall|k: int|
            0 <= k < old(entries)@.len() ==> {
                &&& (#[trigger] final(entries)@[k]).parent == old(entries)@[k].parent
                &&& final(entries)@[k].size == old(entries)@[k].size
                &&& final(entries)@[k].path == old(entries)@[k].path
                &&& final(entries)@[k].num_files == old(entries)@[k].num_files
                &&& final(entries)@[k].is_file == old(entries)@[k].is_file
                &&& final(entries)@[k].expanded == old(entries)@[k].expanded
                &&& final(entries)@[k].children@.to_multiset()
                    == old(entries)@[k].children@.to_multiset()
            },
{
    let ghost h = choose|h: nat| ends_within(kids(model(entries@)), i as int, h);
    let ghost e = model(entries@);
    proof {
        assert forall|k: int| 0 <= k < e.len() implies (#[trigger] e[k]).children.len()
            <= usize::MAX by {
            assert(entries@[k].children.len() == entries@[k].children@.len());
        }
    }
    sort_below(i, entries, Ghost(h));
    proof {
        assert(entries@.len() == model(entries@).len());
        assert forall|k: int| 0 <= k < e.len() implies (#[trigger] entries@[k])@ == subtree_sorted(
            e,
            i as int,
        )[k] && old(entries)@[k]@ == e[k] && entries@[k].children@.to_multiset()
            == e[k].children.to_multiset() by {
            assert(model(entries@)[k] == entries@[k]@);
            law_by_size(e, e[k].children);
        }
    }
}

/// In a tree the subtree of every entry can be ordered.
pub proof fn law_tree_can_be_sorted(e: Seq<EntryModel>, i: int)
    requires
        is_tree(e),
        0 <= i < e.len(),
    ensures
        ends_below(kids(e), i),
        forall|t: int, d: nat| #[trigger] is_below(kids(e), i, t, d) ==> can_sort_upwards(e, t),
{
    law_tree_ends_below(e, kids(e), i);
    assert forall|t: int, d: nat| #[trigger] is_below(kids(e), i, t, d) implies can_sort_upwards(
        e,
        t,
    ) by {
        law_tree_climbs_end(e, t);
        assert forall|j: int| #[trigger] is_above(parents(e), t, j) && e[j].parent < e.len() implies
            can_order(e, e[j].children) by {
            assert(lists_its_children(e, j));
            assert forall|k: int| 0 <= k < e[j].children.len() implies (#[trigger] e[j].children[k])
                < e.len() by {
                assert(e[j].children.contains(e[j].children[k]));
            }
        }
    }
}

/// Entries of a tree have fewer children than the list has entries.
pub proof fn lemma_tree_few_children(e: Seq<EntryModel>, i: int)
    requires
        is_tree(e),
        0 <= i < e.len(),
    ensures
        e[i].children.len() <= e.len(),
        in_list(e, e[i].children),
{
    assert(lists_its_children(e, i));
    let list = e[i].children.map_values(|c: usize| c as int);
    assert forall|k: int| 0 <= k < list.len() implies 0 <= #[trigger] list[k] < e.len() by {
        assert(e[i].children.contains(e[i].children[k]));
    }
    assert forall|k: int| 0 <= k < e[i].children.len() implies (#[trigger] e[i].children[k])
        < e.len() by {
        assert(e[i].children.contains(e[i].children[k]));
    }
    lemma_distinct_bounded(list, e.len());
}

/// Ordering a subtree of a tree leaves a tree, with nothing changed but the order
/// in which entries list their children.
pub proof fn law_sorting_keeps_tree(e: Seq<EntryModel>, i: int)
    requires
        is_tree(e),
    ensures
        is_tree(subtree_sorted(e, i)),
        same_links(e, subtree_sorted(e, i)),
{
    let f = subtree_sorted(e, i);
    let asked = |j: int| is_sorted_for(e, i, j);
    assert forall|j: int| 0 <= j < e.len() implies (#[trigger] e[j]).children.len()
        <= usize::MAX by {
        lemma_tree_few_children(e, j);
    }
    assert(f =~= sorted_where(e, asked));
    lemma_sorted_where_links(e, asked);
    lemma_same_links_symmetric(e, f);
    assert forall|k: int| 1 <= k < f.len() implies (#[trigger] f[k]).parent < k by {
        assert(e[k].parent < k);
    }
    assert forall|k: int| 0 <= k < f.len() implies #[trigger] lists_its_children(f, k) by {
        assert(lists_its_children(e, k));
        law_by_size(e, e[k].children);
        e[k].children.lemma_multiset_has_no_duplicates();
        by_size(e, e[k].children).lemma_multiset_has_no_duplicates_conv();
        assert forall|c: usize| #[trigger]
            f[k].children.contains(c) <==> 1 <= c < f.len() && f[c as int].parent == k by {
            assert(e[k].children.contains(c) <==> f[k].children.contains(c));
            assert(e[k].children.contains(c) <==> 1 <= c < e.len() && e[c as int].parent == k);
        }
    }
}

/// In a tree, what is met on the way up from `j` has `j` below it.
proof fn lemma_tree_below(e: Seq<EntryModel>, j: int, d: nat)
    requires
        is_tree(e),
        0 <= j < e.len(),
        0 <= climb(parents(e), j, d) < e.len(),
    ensures
        is_below(kids(e), climb(parents(e), j, d), j, d),
    decreases d,
{
    if d > 0 {
        let ps = parents(e);
        let b = (d - 1) as nat;
        let c = climb(ps, j, b);
        if !(0 <= c < ps.len()) {
            lemma_climb_stays_outside(ps, j, b, d);
        }
        lemma_climb_next(ps, j, b);
        lemma_tree_below(e, j, b);
        let i = ps[c] as int;
        assert(c >= 1);
        assert(lists_its_children(e, i));
        assert(e[i].children.contains(c as usize));
        let k = choose|k: int| 0 <= k < e[i].children.len() && e[i].children[k] == c as usize;
        assert(kids(e)[i][k] == c);
    }
}

/// After the subtree of `i` in a tree was ordered, every entry at or below `i`,
/// except the one with index 0, lists its children smallest first.
pub proof fn law_subtree_is_sorted(e: Seq<EntryModel>, i: int, j: int)
    requires
        is_tree(e),
        0 <= i < e.len(),
        1 <= j < e.len(),
        is_above(parents(e), j, i),
    ensures
        subtree_sorted(e, i)[j].children == by_size(e, e[j].children),
        forall|a: int, b: int|
            0 <= a < b < e[j].children.len() ==> e[(#[trigger] subtree_sorted(
                e,
                i,
            )[j].children[a]) as int].size <= e[(#[trigger] subtree_sorted(
                e,
                i,
            )[j].children[b]) as int].size,
{
    let ps = parents(e);
    let d = choose|d: nat| #[trigger] climb(ps, j, d) == i;
    lemma_tree_below(e, j, d);
    assert(climb(ps, j, 0) == j);
    assert(is_above(ps, j, j));
    assert(e[j].parent < j);
    assert(is_below(kids(e), i, j, d) && is_above(ps, j, j));
    lemma_tree_few_children(e, j);
    law_by_size(e, e[j].children);
}

/// Ordering a subtree of a consistent tree keeps it consistent.
pub proof fn law_sorting_keeps_consistent(e: Seq<EntryModel>, rows: Seq<TypeRow>, i: int)
    requires
        is_consistent(e, rows),
        0 <= i < e.len(),
    ensures
        is_consistent(subtree_sorted(e, i), rows),
{
    law_sorting_keeps_tree(e, i);
    let f = subtree_sorted(e, i);
    assert forall|k: int| 0 <= k < f.len() implies (#[trigger] f[k]).children.len()
        == e[k].children.len() by {
        lemma_tree_few_children(e, k);
        law_by_size(e, e[k].children);
    }
    law_same_numbers_stay_consistent(e, f, rows);
}

/// Ordering a subtree a second time changes nothing more.
pub proof fn law_sorting_twice(e: Seq<EntryModel>, i: int)
    requires
        forall|j: int| 0 <= j < e.len() ==> (#[trigger] e[j]).children.len() <= usize::MAX,
        forall|t: int, d: nat| #[trigger] is_below(kids(e), i, t, d) ==> can_sort_upwards(e, t),
    ensures
        subtree_sorted(subtree_sorted(e, i), i) == subtree_sorted(e, i),
{
    let f = subtree_sorted(e, i);
    let asked = |j: int| is_sorted_for(e, i, j);
    assert(f =~= sorted_where(e, asked));
    lemma_sorted_where_links(e, asked);
    lemma_same_links_symmetric(e, f);
    assert forall|j: int| 0 <= j < e.len() implies #[trigger] subtree_sorted(f, i)[j] == f[j] by {
        lemma_same_links_sorted_for(e, f, i, j);
        if is_sorted_for(e, i, j) {
            let (t, d) = choose|t: int, d: nat| #[trigger]
                is_below(kids(e), i, t, d) && #[trigger] is_above(parents(e), t, j);
            assert(can_sort_upwards(e, t));
            assert(can_order(e, e[j].children));
            lemma_same_links_order(e, f, j);
            lemma_by_size_same(f, e, f[j].children);
            law_by_size(e, e[j].children);
        }
    }
    assert(subtree_sorted(f, i) =~= f);
}

/// Of entries of the same size the one that came first stays first.
pub proof fn law_by_size_ties_stay(e: Seq<EntryModel>, list: Seq<usize>, a: int, b: int)
    requires
        list.len() <= usize::MAX,
        0 <= a < b < list.len(),
    ensures
        exists|p: int, q: int|
            0 <= p < list.len() && 0 <= q < list.len() && p != q && #[trigger] list[p] == by_size(
                e,
                list,
            )[a] && #[trigger] list[q] == by_size(e, list)[b] && (e[list[p] as int].size
                < e[list[q] as int].size || (e[list[p] as int].size == e[list[q] as int].size && p
                < q)),
{
    let keys = sizes_of(e, list);
    law_arranged_by_key(list, keys, a, b);
    let (p, q) = choose|p: int, q: int|
        0 <= p < list.len() && 0 <= q < list.len() && p != q && #[trigger] list[p] == by_size(
            e,
            list,
        )[a] && #[trigger] list[q] == by_size(e, list)[b] && (keys[p] < keys[q] || (keys[p]
            == keys[q] && p < q));
    assert(list[p] == by_size(e, list)[a] && list[q] == by_size(e, list)[b]);
}

/// In a tree, what is reached by going down from an entry has that entry above it.
proof fn lemma_tree_above(e: Seq<EntryModel>, i: int, t: int, d: nat)
    requires
        is_tree(e),
        0 <= i < e.len(),
        is_below(kids(e), i, t, d),
    ensures
        0 <= t < e.len(),
        is_above(parents(e), t, i),
    decreases d,
{
    let ps = parents(e);
    if d == 0 {
        assert(climb(ps, i, 0) == i);
    } else {
        let ks = kids(e);
        let k = choose|k: int|
            0 <= k < ks[i].len() && is_below(ks, (#[trigger] ks[i][k]) as int, t, (d - 1) as nat);
        let c = ks[i][k];
        assert(lists_its_children(e, i));
        assert(e[i].children.contains(c));
        lemma_tree_above(e, c as int, t, (d - 1) as nat);
        let a = choose|a: nat| #[trigger] climb(ps, t, a) == c;
        lemma_climb_next(ps, t, a);
        assert(climb(ps, t, a + 1) == i);
    }
}

/// Ordering the subtree of `i` in a tree changes nothing but the order of children:
/// those of every entry at or below `i`, and of every entry above it, stand smallest
/// first, except for the entry with index 0; all other entries list theirs as before.
pub proof fn law_sorting_entry_by_entry(e: Seq<EntryModel>, i: int, j: int)
    requires
        is_tree(e),
        0 <= i < e.len(),
        0 <= j < e.len(),
    ensures
        subtree_sorted(e, i).len() == e.len(),
        subtree_sorted(e, i)[j].parent == e[j].parent,
        subtree_sorted(e, i)[j].size == e[j].size,
        subtree_sorted(e, i)[j].path == e[j].path,
        subtree_sorted(e, i)[j].num_files == e[j].num_files,
        subtree_sorted(e, i)[j].is_file == e[j].is_file,
        subtree_sorted(e, i)[j].expanded == e[j].expanded,
        subtree_sorted(e, i)[j].children.to_multiset() == e[j].children.to_multiset(),
        j == 0 || !(is_above(parents(e), j, i) || is_above(parents(e), i, j)) ==> subtree_sorted(
            e,
            i,
        )[j].children == e[j].children,
        j >= 1 && (is_above(parents(e), j, i) || is_above(parents(e), i, j)) ==> forall|
            a: int,
            b: int,
        |
            0 <= a < b < subtree_sorted(e, i)[j].children.len() ==> e[(#[trigger] subtree_sorted(
                e,
                i,
            )[j].children[a]) as int].size <= e[(#[trigger] subtree_sorted(
                e,
                i,
            )[j].children[b]) as int].size,
{
    let ps = parents(e);
    let ks = kids(e);
    lemma_tree_few_children(e, j);
    law_by_size(e, e[j].children);
    if is_sorted_for(e, i, j) {
        let (t, d) = choose|t: int, d: nat| #[trigger]
            is_below(ks, i, t, d) && #[trigger] is_above(ps, t, j);
        lemma_tree_above(e, i, t, d);
        let a = choose|a: nat| #[trigger] climb(ps, t, a) == i;
        let b = choose|b: nat| #[trigger] climb(ps, t, b) == j;
        if a <= b {
            lemma_climb_add(ps, t, a, (b - a) as nat);
            assert(climb(ps, i, (b - a) as nat) == j);
        } else {
            lemma_climb_add(ps, t, b, (a - b) as nat);
            assert(climb(ps, j, (a - b) as nat) == i);
        }
        assert(e[0].parent == usize::MAX);
    }
    if j >= 1 {
        assert(e[j].parent < j);
        if is_above(ps, j, i) {
            let d = choose|d: nat| #[trigger] climb(ps, j, d) == i;
            lemma_tree_below(e, j, d);
            assert(climb(ps, j, 0) == j);
            assert(is_below(ks, i, j, d) && is_above(ps, j, j));
        }
        if is_above(ps, i, j) {
            assert(is_below(ks, i, i, 0) && is_above(ps, i, j));
        }
    }
}

/// One index, or none, can always be ordered; several if they are all in the list.
pub proof fn law_can_order(e: Seq<EntryModel>, list: Seq<usize>)
    ensures
        list.len() < 2 ==> can_order(e, list),
        list.len() >= 2 ==> (can_order(e, list) <==> forall|k: int|
            0 <= k < list.len() ==> (#[trigger] list[k]) < e.len()),
{
}

} // verus!
