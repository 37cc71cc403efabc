//! What of the tree is shown, and what a viewer does to it.
//!
//! The display list holds the entries that are shown, row by row from the top:
//! first the entry with index 0, then, for each shown directory that is
//! unfolded, its children with the largest first. In the display list the
//! `parent` of an entry is its index in the list of all entries, and the
//! children of an unfolded entry are indices into the display list.
use vstd::prelude::*;
use vstd::utf8::{decode_utf8, valid_utf8};
use crate::by_size::{in_list, lemma_fewer_kids_end, lemma_tree_few_children};
use crate::descent::all_ways_end;
use crate::entry::{kids, model, parents, Entry, EntryModel};
use crate::file_types::TypeRow;
use crate::order::{arrange, arranged, law_arranged_by_key, law_arranged_same_items};
use crate::order::{law_stable_order, positions, stable_order};
use crate::paths::{component_texts, law_unicode_text, path_bytes, path_text, text_of, unicode_text};
use crate::paths::written_components;
use crate::shape::{ends_below, ends_within, is_tree, law_tree_ends_below, lists_its_children};
use crate::totals::{is_consistent, law_same_numbers_stay_consistent};

verus! {

/// The keys by which entries are ordered for display: the largest entry has the
/// smallest key.
pub open spec fn display_keys(e: Seq<EntryModel>, list: Seq<usize>) -> Seq<u64> {
    list.map_values(|c: usize| (u64::MAX - e[c as int].size) as u64)
}

/// These indices, largest entry first; entries of the same size in the
/// order they had.
pub open spec fn largest_first(e: Seq<EntryModel>, list: Seq<usize>) -> Seq<usize> {
    arranged(list, display_keys(e, list))
}

/// The children that are shown below each entry: those of unfolded entries.
pub open spec fn shown_kids(e: Seq<EntryModel>) -> Seq<Seq<usize>> {
    e.map_values(
        |m: EntryModel|
            if m.expanded {
                m.children
            } else {
                Seq::empty()
            },
    )
}

/// The index in the display list `d` of the first child of the entry shown at
/// `x`: the children of the entries shown before it come first.
pub open spec fn first_below(d: Seq<EntryModel>, x: int) -> nat
    decreases x,
{
    if x <= 0 {
        1
    } else {
        first_below(d, x - 1) + if d[x - 1].expanded {
            d[x - 1].children.len()
        } else {
            0
        }
    }
}

/// What is shown at `x` is an entry of the list as it is, except that its
/// `parent` is its own index there. If it is unfolded, its children are the
/// indices of their rows, which come further down and show its children with the
/// largest first.
pub open spec fn row_shows(e: Seq<EntryModel>, d: Seq<EntryModel>, x: int) -> bool {
    let source = d[x].parent as int;
    let first = first_below(d, x) as int;
    &&& 0 <= source < e.len()
    &&& x < first
    &&& d[x] == (EntryModel { parent: d[x].parent, children: d[x].children, ..e[source] })
    &&& if e[source].expanded {
        &&& d[x].children == positions(first, first + e[source].children.len())
        &&& forall|k: int|
            0 <= k < e[source].children.len() ==> d[first + k].parent == #[trigger] largest_first(
                e,
                e[source].children,
            )[k]
    } else {
        d[x].children == e[source].children
    }
}

/// `d` is the display list of the entries.
pub open spec fn is_display_of(e: Seq<EntryModel>, d: Seq<EntryModel>) -> bool {
    if e.len() == 0 {
        d.len() == 0
    } else {
        &&& d.len() == first_below(d, d.len() as int)
        &&& d[0].parent == 0
        &&& forall|x: int| 0 <= x < d.len() ==> #[trigger] row_shows(e, d, x)
    }
}

/// The flag that the last row for the entry with index `k` has, or `before` if
/// there is no such row.
pub open spec fn flag_shown(d: Seq<EntryModel>, k: int, before: bool) -> bool
    decreases d.len(),
{
    if d.len() == 0 {
        before
    } else if d.last().parent == k {
        d.last().expanded
    } else {
        flag_shown(d.drop_last(), k, before)
    }
}

/// The entries with the flags of their rows.
pub open spec fn with_flags(e: Seq<EntryModel>, d: Seq<EntryModel>) -> Seq<EntryModel> {
    Seq::new(
        e.len(),
        |k: int| EntryModel { expanded: flag_shown(d, k, e[k].expanded), ..e[k] },
    )
}

/// The children shown below each entry, in the order in which they are shown.
spec fn ordered_kids(e: Seq<EntryModel>) -> Seq<Seq<usize>> {
    e.map_values(
        |m: EntryModel|
            if m.expanded {
                largest_first(e, m.children)
            } else {
                Seq::empty()
            },
    )
}

/// The number of rows that showing `i` and what is below it takes.
spec fn rows_for(ks: Seq<Seq<usize>>, i: int, h: nat) -> nat
    decreases h, 0nat,
{
    if h > 0 {
        1 + rows_for_all(ks, ks[i], (h - 1) as nat)
    } else {
        1
    }
}

spec fn rows_for_all(ks: Seq<Seq<usize>>, list: Seq<usize>, h: nat) -> nat
    decreases h, list.len(),
{
    if list.len() == 0 {
        0
    } else {
        rows_for_all(ks, list.drop_last(), h) + rows_for(ks, list.last() as int, h)
    }
}

/// The number of rows still to come for the entries that wait to be looked at,
/// each with the steps that its ways down may take.
spec fn rows_to_come(ks: Seq<Seq<usize>>, waiting: Seq<(usize, nat)>) -> nat
    decreases waiting.len(),
{
    if waiting.len() == 0 {
        0
    } else {
        rows_to_come(ks, waiting.drop_last()) + rows_for(
            ks,
            waiting.last().0 as int,
            waiting.last().1,
        )
    }
}

/// The entries of `list`, each with `h` steps.
spec fn with_steps(list: Seq<usize>, h: nat) -> Seq<(usize, nat)> {
    list.map_values(|c: usize| (c, h))
}

proof fn lemma_rows_add(
    ks: Seq<Seq<usize>>,
    waiting: Seq<(usize, nat)>,
    list: Seq<usize>,
    h: nat,
)
    ensures
        rows_to_come(ks, waiting + with_steps(list, h)) == rows_to_come(ks, waiting)
            + rows_for_all(ks, list, h),
    decreases list.len(),
{
    let both = waiting + with_steps(list, h);
    if list.len() == 0 {
        assert(both =~= waiting);
    } else {
        lemma_rows_add(ks, waiting, list.drop_last(), h);
        assert(both.drop_last() =~= waiting + with_steps(list.drop_last(), h));
        assert(both.last() == (list.last(), h));
    }
}

proof fn lemma_rows_first(ks: Seq<Seq<usize>>, waiting: Seq<(usize, nat)>)
    requires
        waiting.len() > 0,
    ensures
        rows_to_come(ks, waiting) == rows_to_come(ks, waiting.drop_first()) + rows_for(
            ks,
            waiting[0].0 as int,
            waiting[0].1,
        ),
    decreases waiting.len(),
{
    if waiting.len() == 1 {
        assert(waiting.drop_first() =~= Seq::<(usize, nat)>::empty());
        assert(waiting.drop_last() =~= Seq::<(usize, nat)>::empty());
        assert(rows_to_come(ks, waiting.drop_last()) == 0);
    } else {
        lemma_rows_first(ks, waiting.drop_last());
        assert(waiting.drop_first().drop_last() =~= waiting.drop_last().drop_first());
    }
}

proof fn lemma_first_below_same(a: Seq<EntryModel>, b: Seq<EntryModel>, x: int)
    requires
        x <= a.len(),
        x <= b.len(),
        forall|y: int|
            0 <= y < x ==> (#[trigger] a[y]).expanded == b[y].expanded && a[y].children.len()
                == b[y].children.len(),
    ensures
        first_below(a, x) == first_below(b, x),
    decreases x,
{
    if x > 0 {
        lemma_first_below_same(a, b, x - 1);
        assert(a[x - 1].expanded == b[x - 1].expanded);
    }
}

proof fn lemma_first_below_grows(d: Seq<EntryModel>, x: int, y: int)
    requires
        x <= y,
    ensures
        first_below(d, x) <= first_below(d, y),
    decreases y - x,
{
    if x < y {
        lemma_first_below_grows(d, x, y - 1);
    }
}

/// Showing the largest first keeps the indices that were there and puts larger
/// entries before smaller ones.
pub proof fn law_largest_first(e: Seq<EntryModel>, list: Seq<usize>)
    requires
        list.len() <= usize::MAX,
    ensures
        largest_first(e, list).len() == list.len(),
        largest_first(e, list).to_multiset() == list.to_multiset(),
        forall|c: usize| #[trigger] largest_first(e, list).contains(c) <==> list.contains(c),
        forall|a: int, b: int|
            0 <= a < b < list.len() ==> e[(#[trigger] largest_first(e, list)[a]) as int].size >= e[(
            #[trigger] largest_first(e, list)[b]) as int].size,
{
    let keys = display_keys(e, list);
    let sorted = largest_first(e, list);
    law_stable_order(keys);
    law_arranged_same_items(list, keys);
    assert forall|a: int, b: int| 0 <= a < b < list.len() implies e[(#[trigger] sorted[a]) as int].size
        >= e[(#[trigger] sorted[b]) as int].size by {
        let p = stable_order(keys)[a];
        let q = stable_order(keys)[b];
        assert(keys[p as int] <= keys[q as int]);
    }
}

/// These indices with the largest entry first.
fn sort_largest_first(entries: &[Entry], list: &Vec<usize>) -> (sorted: Vec<usize>)
    requires
        in_list(model(entries@), list@),
    ensures
        sorted@ == largest_first(model(entries@), list@),
{
    let ghost e = model(entries@);
    let mut keys: Vec<u64> = Vec::new();
    let mut k: usize = 0;
    while k < list.len()
        invariant
            e == model(entries@),
            in_list(e, list@),
            k <= list@.len(),
            keys@ =~= display_keys(e, list@).take(k as int),
        decreases list@.len() - k,
    {
        keys.push(u64::MAX - entries[list[k]].size);
        k = k + 1;
    }
    assert(keys@ =~= display_keys(e, list@));
    arrange(list, &keys)
}

/// What the display list holds while it is being made: the rows before `i` are
/// complete, the others show their entries with the children as they were.
spec fn rows_made(e: Seq<EntryModel>, d: Seq<EntryModel>, i: int) -> bool {
    &&& 0 <= i <= d.len()
    &&& d.len() > 0
    &&& d[0].parent == 0
    &&& first_below(d, i) == d.len()
    &&& forall|x: int| 0 <= x < i ==> #[trigger] row_shows(e, d, x)
    &&& forall|x: int|
        i <= x < d.len() ==> (#[trigger] d[x]).parent < e.len() && d[x] == (EntryModel {
            parent: d[x].parent,
            ..e[d[x].parent as int]
        })
}

/// Rows that are complete stay so when a later row is completed and rows are
/// added at the end.
proof fn lemma_rows_stay(
    e: Seq<EntryModel>,
    d: Seq<EntryModel>,
    f: Seq<EntryModel>,
    i: int,
    x: int,
)
    requires
        rows_made(e, d, i),
        0 <= x < i < d.len(),
        d.len() <= f.len(),
        forall|y: int| 0 <= y < d.len() && y != i ==> (#[trigger] f[y]) == d[y],
        f[i].parent == d[i].parent,
        forall|j: int| 0 <= j < e.len() ==> (#[trigger] e[j]).children.len() <= usize::MAX,
    ensures
        row_shows(e, f, x),
{
    lemma_first_below_same(d, f, x);
    lemma_first_below_same(d, f, x + 1);
    lemma_first_below_grows(d, x + 1, i);
    assert(row_shows(e, d, x));
    let source = d[x].parent as int;
    let first = first_below(d, x) as int;
    if e[source].expanded {
        law_largest_first(e, e[source].children);
        assert forall|k: int| 0 <= k < e[source].children.len() implies f[first + k].parent
            == #[trigger] largest_first(e, e[source].children)[k] by {
            assert(d[first + k].parent == largest_first(e, e[source].children)[k]);
            assert(first + k < d.len());
            if first + k != i {
                assert(f[first + k] == d[first + k]);
            }
        }
    }
}

/// Tells whether the entries can be shown: every way down through unfolded entries
/// stays in the list and ends.
pub fn can_show(entries: &[Entry]) -> (possible: bool)
    ensures
        possible == (entries@.len() > 0 ==> ends_below(shown_kids(model(entries@)), 0)),
{
    entries.len() == 0 || all_ways_end(entries, true)
}

/// Makes the display list of the entries.
#[verifier::spinoff_prover]
pub fn display_entries(entries: &[Entry]) -> (display: Vec<Entry>)
    requires
        entries@.len() > 0 ==> ends_below(shown_kids(model(entries@)), 0),
    ensures
        is_display_of(model(entries@), model(display@)),
        entries@.len() == 0 <==> display@.len() == 0,
        entries@.len() > 0 ==> display@[0].parent == 0,
        forall|x: int|
            0 <= x < display@.len() ==> {
                &&& (#[trigger] display@[x]).parent < entries@.len()
                &&& display@[x].size == entries@[display@[x].parent as int].size
                &&& display@[x].path == entries@[display@[x].parent as int].path
                &&& display@[x].num_files == entries@[display@[x].parent as int].num_files
                &&& display@[x].is_file == entries@[display@[x].parent as int].is_file
                &&& display@[x].expanded == entries@[display@[x].parent as int].expanded
            },
{
    let mut display: Vec<Entry> = Vec::new();
    if entries.len() == 0 {
        return display;
    }
    let ghost e = model(entries@);
    let ghost ks = ordered_kids(e);
    let ghost all: nat = choose|h: nat| ends_within(shown_kids(e), 0, h);
    let ghost mut waiting: Seq<(usize, nat)> = seq![(0usize, all)];
    proof {
        assert forall|j: int| 0 <= j < e.len() implies (#[trigger] e[j]).children.len()
            <= usize::MAX by {
            assert(entries@[j].children.len() == entries@[j].children@.len());
        }
        assert forall|k: int, c: usize| 0 <= k < ks.len() && (#[trigger] ks[k].contains(c)) implies
            shown_kids(e)[k].contains(c) by {
            law_largest_first(e, e[k].children);
            assert(e[k].expanded);
            assert(largest_first(e, e[k].children).contains(c));
        }
        lemma_fewer_kids_end(shown_kids(e), ks, 0, all);
    }
    let mut top = entries[0].clone();
    top.parent = 0;
    display.push(top);
    let mut i: usize = 0;
    assert(rows_made(e, model(display@), 0));
    while i < display.len()
        invariant
            e == model(entries@),
            ks == ordered_kids(e),
            forall|j: int| 0 <= j < e.len() ==> (#[trigger] e[j]).children.len() <= usize::MAX,
            e.len() > 0,
            rows_made(e, model(display@), i as int),
            waiting.len() == display@.len() - i,
            forall|y: int|
                0 <= y < waiting.len() ==> (#[trigger] waiting[y]).0 == model(display@)[i + y].parent
                    && ends_within(ks, waiting[y].0 as int, waiting[y].1),
        decreases rows_to_come(ks, waiting),
    {
        let ghost before = model(display@);
        let ghost source = before[i as int].parent as int;
        let ghost list = e[source].children;
        let ghost first = first_below(before, i as int) as int;
        let ghost steps_left = waiting[0].1;
        proof {
            assert(waiting[0].0 == before[i as int].parent);
            assert(display@[i as int]@ == before[i as int]);
            lemma_rows_first(ks, waiting);
        }
        if display[i].expanded {
            proof {
                assert(ks[source] == largest_first(e, list));
                law_largest_first(e, list);
                assert forall|k: int| 0 <= k < list.len() implies (#[trigger] list[k]) < e.len() by {
                    assert(list.contains(list[k]));
                    assert(largest_first(e, list).contains(list[k]));
                    let q = choose|q: int| 0 <= q < ks[source].len() && ks[source][q] == list[k];
                    assert(ends_within(ks, ks[source][q] as int, (steps_left - 1) as nat));
                }
            }
            let sorted = sort_largest_first(entries, &display[i].children);
            let n: usize = sorted.len();
            let mut below: Vec<usize> = Vec::new();
            let mut j: usize = 0;
            while j < n
                invariant
                    e == model(entries@),
                    i < before.len(),
                    first == before.len(),
                    list.len() == n,
                    sorted@ == largest_first(e, list),
                    sorted@.len() == n,
                    forall|c: usize| #[trigger] sorted@.contains(c) <==> list.contains(c),
                    forall|k: int| 0 <= k < list.len() ==> (#[trigger] list[k]) < e.len(),
                    j <= n,
                    display@.len() == before.len() + j,
                    forall|y: int|
                        0 <= y < before.len() ==> (#[trigger] display@[y])@ == before[y],
                    forall|k: int|
                        0 <= k < j ==> (#[trigger] display@[before.len() + k])@ == (EntryModel {
                            parent: sorted@[k],
                            ..e[sorted@[k] as int]
                        }),
                    below@ =~= positions(first, first + j),
                decreases n - j,
            {
                let c: usize = sorted[j];
                proof {
                    assert(sorted@.contains(c));
                    let q = choose|q: int| 0 <= q < list.len() && list[q] == c;
                }
                let mut child = entries[c].clone();
                child.parent = c;
                display.push(child);
                below.push(display.len() - 1);
                j = j + 1;
                proof {
                    let last = before.len() + j - 1;
                    assert(display@[last]@ == (EntryModel { parent: c, ..e[c as int] }));
                    assert forall|k: int| 0 <= k < j implies (#[trigger] display@[before.len()
                        + k])@ == (EntryModel { parent: sorted@[k], ..e[sorted@[k] as int] }) by {
                        if k < j - 1 {
                        } else {
                            assert(before.len() + k == last);
                        }
                    }
                }
            }
            display[i].children = below;
            proof {
                let after = model(display@);
                assert forall|y: int| 0 <= y < before.len() && y != i implies (#[trigger] after[y])
                    == before[y] by {
                    assert(display@[y]@ == before[y]);
                }
                assert(after[i as int] == (EntryModel {
                    children: positions(first, first + n),
                    ..before[i as int]
                }));
                assert forall|x: int| 0 <= x < i implies #[trigger] row_shows(e, after, x) by {
                    lemma_rows_stay(e, before, after, i as int, x);
                }
                lemma_first_below_same(before, after, i as int);
                assert(first_below(after, i + 1) == first + n);
                assert(row_shows(e, after, i as int)) by {
                    assert forall|k: int| 0 <= k < list.len() implies after[first + k].parent
                        == #[trigger] largest_first(e, list)[k] by {
                        assert(display@[before.len() + k]@.parent == sorted@[k]);
                    }
                }
                assert forall|x: int| i + 1 <= x < after.len() implies (#[trigger] after[x]).parent
                    < e.len() && after[x] == (EntryModel {
                    parent: after[x].parent,
                    ..e[after[x].parent as int]
                }) by {
                    if x >= before.len() {
                        let k = x - before.len();
                        assert(display@[before.len() + k]@ == after[x]);
                        assert(sorted@.contains(sorted@[k]));
                        let q = choose|q: int| 0 <= q < list.len() && list[q] == sorted@[k];
                    } else {
                        assert(after[x] == before[x]);
                    }
                }
                assert(rows_made(e, after, i + 1));
                let old_waiting = waiting;
                let rest = waiting.drop_first();
                if n > 0 {
                    assert(ends_within(ks, source, steps_left));
                    let c0 = ks[source][0];
                    assert(ends_within(ks, c0 as int, (steps_left - 1) as nat));
                    let more = (steps_left - 1) as nat;
                    lemma_rows_add(ks, rest, ks[source], more);
                    waiting = rest + with_steps(ks[source], more);
                    assert forall|y: int| 0 <= y < waiting.len() implies (#[trigger] waiting[y]).0
                        == after[i + 1 + y].parent && ends_within(
                        ks,
                        waiting[y].0 as int,
                        waiting[y].1,
                    ) by {
                        if y < rest.len() {
                            assert(waiting[y] == old_waiting[y + 1]);
                            assert(old_waiting[y + 1].0 == before[i + (y + 1)].parent);
                            assert(after[i + 1 + y] == before[i + 1 + y]);
                        } else {
                            let k = y - rest.len();
                            assert(waiting[y] == (ks[source][k], more));
                            assert(ends_within(ks, ks[source][k] as int, more));
                            assert(display@[before.len() + k]@ == after[i + 1 + y]);
                        }
                    }
                } else {
                    waiting = rest;
                    assert forall|y: int| 0 <= y < waiting.len() implies (#[trigger] waiting[y]).0
                        == after[i + 1 + y].parent && ends_within(
                        ks,
                        waiting[y].0 as int,
                        waiting[y].1,
                    ) by {
                        assert(waiting[y] == old_waiting[y + 1]);
                        assert(old_waiting[y + 1].0 == before[i + (y + 1)].parent);
                    }
                }
            }
        } else {
            proof {
                assert forall|x: int| 0 <= x < i + 1 implies #[trigger] row_shows(e, before, x) by {}
                assert(first_below(before, i + 1) == first);
                assert(rows_made(e, before, i + 1));
                let old_waiting = waiting;
                waiting = waiting.drop_first();
                assert forall|y: int| 0 <= y < waiting.len() implies (#[trigger] waiting[y]).0
                    == before[i + 1 + y].parent && ends_within(
                    ks,
                    waiting[y].0 as int,
                    waiting[y].1,
                ) by {
                    assert(waiting[y] == old_waiting[y + 1]);
                    assert(old_waiting[y + 1].0 == before[i + (y + 1)].parent);
                }
            }
        }
        i = i + 1;
    }
    proof {
        let d = model(display@);
        assert(d[0] == display@[0]@);
        assert forall|x: int| 0 <= x < display@.len() implies {
            &&& (#[trigger] display@[x]).parent < entries@.len()
            &&& display@[x].size == entries@[display@[x].parent as int].size
            &&& display@[x].path == entries@[display@[x].parent as int].path
            &&& display@[x].num_files == entries@[display@[x].parent as int].num_files
            &&& display@[x].is_file == entries@[display@[x].parent as int].is_file
            &&& display@[x].expanded == entries@[display@[x].parent as int].expanded
        } by {
            assert(display@[x]@ == d[x]);
            assert(row_shows(e, d, x));
            assert(entries@[d[x].parent as int]@ == e[d[x].parent as int]);
        }
    }
    display
}

/// The tree can be shown, whatever is unfolded.
pub proof fn law_tree_can_be_shown(entries: Seq<EntryModel>)
    requires
        is_tree(entries),
    ensures
        ends_below(shown_kids(entries), 0),
{
    assert forall|k: int, c: usize|
        0 <= k < entries.len() && #[trigger] shown_kids(entries)[k].contains(c) implies kids(
        entries,
    )[k].contains(c) by {
        assert(entries[k].expanded);
    }
    law_tree_ends_below(entries, shown_kids(entries), 0);
}

/// A row that comes after the first is below an earlier one.
proof fn lemma_row_above(d: Seq<EntryModel>, x: int, z: int) -> (y: int)
    requires
        0 <= z,
        1 <= x < first_below(d, z),
    ensures
        0 <= y < z,
        first_below(d, y) <= x < first_below(d, y + 1),
    decreases z,
{
    if first_below(d, z - 1) <= x {
        z - 1
    } else {
        lemma_row_above(d, x, z - 1)
    }
}

/// Two display lists that agree on the rows before `x` agree on row `x`.
proof fn lemma_next_row_same(e: Seq<EntryModel>, a: Seq<EntryModel>, b: Seq<EntryModel>, x: int)
    requires
        e.len() > 0,
        is_display_of(e, a),
        is_display_of(e, b),
        0 <= x < a.len(),
        x <= b.len(),
        forall|y: int| 0 <= y < x ==> #[trigger] a[y] == b[y],
    ensures
        x < b.len(),
        a[x] == b[x],
{
    lemma_first_below_same(a, b, x);
    lemma_first_below_grows(b, x, b.len() as int);
    assert(row_shows(e, a, x));
    assert(row_shows(e, b, x));
    if x > 0 {
        let y = lemma_row_above(a, x, x);
        assert(a[y] == b[y]);
        lemma_first_below_same(a, b, y);
        assert(row_shows(e, a, y));
        assert(row_shows(e, b, y));
        let list = e[a[y].parent as int].children;
        let k = x - first_below(a, y);
        assert(a[first_below(a, y) + k].parent == largest_first(e, list)[k]);
        assert(b[first_below(b, y) + k].parent == largest_first(e, list)[k]);
    }
    assert(a[x].children =~= b[x].children);
}

proof fn lemma_rows_same(e: Seq<EntryModel>, a: Seq<EntryModel>, b: Seq<EntryModel>, x: int)
    requires
        e.len() > 0,
        is_display_of(e, a),
        is_display_of(e, b),
        0 <= x <= a.len(),
    ensures
        x <= b.len(),
        forall|y: int| 0 <= y < x ==> #[trigger] a[y] == b[y],
    decreases x,
{
    if x > 0 {
        lemma_rows_same(e, a, b, x - 1);
        lemma_next_row_same(e, a, b, x - 1);
    }
}

/// The directory tree is ordered by size: of the rows below an unfolded row, none is
/// larger than one that comes before it.
pub proof fn law_rows_largest_first(
    entries: Seq<EntryModel>,
    display: Seq<EntryModel>,
    x: int,
    a: int,
    b: int,
)
    requires
        is_display_of(entries, display),
        display.len() <= usize::MAX,
        0 <= x < display.len(),
        display[x].expanded,
        0 <= a < b < display[x].children.len(),
    ensures
        x < display[x].children[a] < display[x].children[b] < display.len(),
        display[display[x].children[a] as int].size >= display[display[x].children[b] as int].size,
{
    assert(row_shows(entries, display, x));
    let list = entries[display[x].parent as int].children;
    let first = first_below(display, x) as int;
    assert(first + list.len() == first_below(display, x + 1));
    lemma_first_below_grows(display, x + 1, display.len() as int);
    law_largest_first(entries, list);
    assert(row_shows(entries, display, first + a));
    assert(row_shows(entries, display, first + b));
    assert(display[first + a].parent == largest_first(entries, list)[a]);
    assert(display[first + b].parent == largest_first(entries, list)[b]);
}

/// The entries alone decide what is shown.
pub proof fn law_display_is_unique(
    entries: Seq<EntryModel>,
    a: Seq<EntryModel>,
    b: Seq<EntryModel>,
)
    requires
        is_display_of(entries, a),
        is_display_of(entries, b),
    ensures
        a == b,
{
    if entries.len() > 0 {
        lemma_rows_same(entries, a, b, a.len() as int);
        lemma_rows_same(entries, b, a, b.len() as int);
    }
    assert(a =~= b);
}

/// Takes the flags of the rows over to the entries that they show.
pub fn keep_expanded(display: &[Entry], entries: &mut [Entry])
    ensures
        model(final(entries)@) == with_flags(model(old(entries)@), model(display@)),
        final(entries)@.len() == old(entries)@.len(),
        forall|k: int|
            0 <= k < old(entries)@.len() ==> {
                &&& (#[trigger] final(entries)@[k]).parent == old(entries)@[k].parent
                &&& final(entries)@[k].size == old(entries)@[k].size
                &&& final(entries)@[k].path == old(entries)@[k].path
                &&& final(entries)@[k].children@ == old(entries)@[k].children@
                &&& final(entries)@[k].num_files == old(entries)@[k].num_files
                &&& final(entries)@[k].is_file == old(entries)@[k].is_file
            },
        forall|x: int|
            0 <= x < display@.len() && (#[trigger] display@[x]).parent < old(entries)@.len() && (
            forall|y: int|
                x < y < display@.len() ==> (#[trigger] display@[y]).parent != display@[x].parent)
                ==> final(entries)@[display@[x].parent as int].expanded == display@[x].expanded,
        forall|k: int|
            0 <= k < old(entries)@.len() && (forall|x: int|
                0 <= x < display@.len() ==> (#[trigger] display@[x]).parent != k) ==> (
            #[trigger] final(entries)@[k]).expanded == old(entries)@[k].expanded,
{
    let ghost e = model(entries@);
    let ghost d = model(display@);
    let mut x: usize = 0;
    assert(model(entries@) =~= with_flags(e, d.take(0)));
    while x < display.len()
        invariant
            d == model(display@),
            x <= display@.len(),
            model(entries@) == with_flags(e, d.take(x as int)),
        decreases display@.len() - x,
    {
        let ghost before = model(entries@);
        let k: usize = display[x].parent;
        if k < entries.len() {
            entries[k].expanded = display[x].expanded;
        }
        proof {
            let more = d.take(x + 1);
            assert(more.drop_last() =~= d.take(x as int));
            assert(more.last() == display@[x as int]@);
            assert forall|j: int| 0 <= j < before.len() implies #[trigger] model(entries@)[j]
                == with_flags(e, more)[j] by {
                assert(before[j] == with_flags(e, d.take(x as int))[j]);
                assert(with_flags(e, more)[j].expanded == flag_shown(more, j, e[j].expanded));
                if j == k {
                    assert(model(entries@)[j] == entries@[j]@);
                } else {
                    assert(model(entries@)[j] == before[j]);
                }
            }
            assert(before.len() == e.len());
            assert(model(entries@).len() == before.len());
            assert(model(entries@) =~= with_flags(e, more));
        }
        x = x + 1;
    }
    assert(d.take(x as int) =~= d);
    proof {
        assert(model(entries@).len() == entries@.len());
        assert forall|k: int| 0 <= k < e.len() implies (#[trigger] entries@[k])@ == with_flags(
            e,
            d,
        )[k] && old(entries)@[k]@ == e[k] by {
            assert(model(entries@)[k] == entries@[k]@);
        }
        assert forall|x: int|
            0 <= x < display@.len() && (#[trigger] display@[x]).parent < e.len() && (forall|y: int|
                x < y < display@.len() ==> (#[trigger] display@[y]).parent
                    != display@[x].parent) implies entries@[display@[x].parent as int].expanded
            == display@[x].expanded by {
            assert(d[x] == display@[x]@);
            assert forall|y: int| x < y < d.len() implies (#[trigger] d[y]).parent != d[x].parent by {
                assert(d[y] == display@[y]@);
            }
            law_last_row_decides(e, d, x);
            assert(entries@[d[x].parent as int]@ == with_flags(e, d)[d[x].parent as int]);
        }
        assert forall|k: int|
            0 <= k < e.len() && (forall|x: int|
                0 <= x < display@.len() ==> (#[trigger] display@[x]).parent != k) implies (
        #[trigger] entries@[k]).expanded == old(entries)@[k].expanded by {
            assert forall|x: int| 0 <= x < d.len() implies (#[trigger] d[x]).parent != k by {
                assert(d[x] == display@[x]@);
            }
            law_no_row_no_change(e, d, k);
        }
    }
}

proof fn lemma_flags_of_display(e: Seq<EntryModel>, d: Seq<EntryModel>, k: int)
    requires
        0 <= k < e.len(),
        forall|x: int|
            0 <= x < d.len() ==> (#[trigger] d[x]).parent < e.len() && d[x].expanded
                == e[d[x].parent as int].expanded,
    ensures
        flag_shown(d, k, e[k].expanded) == e[k].expanded,
    decreases d.len(),
{
    if d.len() > 0 {
        assert(d.last() == d[d.len() - 1]);
        lemma_flags_of_display(e, d.drop_last(), k);
    }
}

/// Showing the entries and taking the flags back with nothing folded or unfolded
/// in between leaves them as they were.
pub proof fn law_showing_changes_nothing(entries: Seq<EntryModel>, display: Seq<EntryModel>)
    requires
        is_display_of(entries, display),
    ensures
        with_flags(entries, display) == entries,
{
    assert forall|x: int| 0 <= x < display.len() implies (#[trigger] display[x]).parent
        < entries.len() && display[x].expanded == entries[display[x].parent as int].expanded by {
        assert(row_shows(entries, display, x));
    }
    assert forall|k: int| 0 <= k < entries.len() implies #[trigger] with_flags(
        entries,
        display,
    )[k] == entries[k] by {
        lemma_flags_of_display(entries, display, k);
    }
    assert(with_flags(entries, display) =~= entries);
}

/// Whatever flags come back from the display, the tree stays a tree.
pub proof fn law_flags_keep_tree(entries: Seq<EntryModel>, display: Seq<EntryModel>)
    requires
        is_tree(entries),
    ensures
        is_tree(with_flags(entries, display)),
{
    let after = with_flags(entries, display);
    assert(parents(after) =~= parents(entries));
    assert forall|i: int| 0 <= i < after.len() implies #[trigger] lists_its_children(
        after,
        i,
    ) by {
        assert(lists_its_children(entries, i));
    }
}

/// Whatever flags come back from the display, the numbers stay consistent.
pub proof fn law_flags_keep_consistent(
    entries: Seq<EntryModel>,
    display: Seq<EntryModel>,
    rows: Seq<TypeRow>,
)
    requires
        is_consistent(entries, rows),
    ensures
        is_consistent(with_flags(entries, display), rows),
{
    law_flags_keep_tree(entries, display);
    law_same_numbers_stay_consistent(entries, with_flags(entries, display), rows);
}

/// What is drawn for one row.
#[derive(Debug, Clone, Copy)]
pub struct TreeRow {
    /// Size of the entry, and of the directory that it is measured against.
    pub size: u64,
    pub whole: u64,
    /// Nothing can be unfolded below it.
    pub leaf: bool,
    /// Drawn unfolded at first.
    pub open: bool,
}

/// The row for entry `i` of the display list, measured against `whole`.
pub fn tree_row(display: &[Entry], i: usize, whole: u64) -> (row: TreeRow)
    requires
        i < display@.len(),
    ensures
        row == (TreeRow {
            size: display@[i as int].size,
            whole,
            leaf: display@[i as int].is_file,
            open: display@[i as int].expanded,
        }),
{
    let shown = &display[i];
    TreeRow { size: shown.size, whole, leaf: shown.is_file, open: shown.expanded }
}

/// The name drawn in row `i`: the whole path in the first row, the last component
/// of the path in the others; none where that is not Unicode text.
pub open spec fn name_shown(d: Seq<EntryModel>, i: int) -> Option<Seq<char>> {
    let path = d[i].path;
    if i == 0 {
        unicode_text(path_bytes(path))
    } else if written_components(path).len() > 0 {
        unicode_text(written_components(path).last())
    } else {
        None
    }
}

/// The name drawn in row `i`.
pub fn row_name(display: &[Entry], i: usize) -> (name: Option<String>)
    requires
        i < display@.len(),
    ensures
        text_of(name) == name_shown(model(display@), i as int),
        i == 0 ==> (name is Some <==> valid_utf8(path_bytes(display@[0].path))),
        i == 0 ==> (name matches Some(t) ==> t@ == decode_utf8(path_bytes(display@[0].path))),
        i > 0 ==> (name is Some <==> {
            let parts = written_components(display@[i as int].path);
            parts.len() > 0 && valid_utf8(parts[parts.len() - 1])
        }),
        i > 0 ==> (name matches Some(t) ==> {
            let parts = written_components(display@[i as int].path);
            t@ == decode_utf8(parts[parts.len() - 1])
        }),
{
    if i == 0 {
        path_text(&display[i].path)
    } else {
        let mut parts = component_texts(&display[i].path);
        proof {
            let texts = parts@.map_values(|t: Option<String>| text_of(t));
            let components = written_components(display@[i as int].path);
            assert(texts.len() == components.len());
            if components.len() > 0 {
                assert(texts.last() == unicode_text(components.last()));
                assert(texts.last() == text_of(parts@.last()));
            }
        }
        match parts.pop() {
            Some(last) => last,
            None => None,
        }
    }
}

/// The row was drawn unfolded. Returns the rows to draw below it: its children if
/// the display list holds them.
pub fn row_opened(display: &mut [Entry], i: usize) -> (below: Vec<usize>)
    requires
        i < old(display)@.len(),
    ensures
        model(final(display)@) == model(old(display)@).update(
            i as int,
            EntryModel { expanded: true, ..old(display)@[i as int]@ },
        ),
        below@ == if old(display)@[i as int].expanded {
            old(display)@[i as int].children@
        } else {
            Seq::empty()
        },
{
    let below: Vec<usize> = if display[i].expanded {
        display[i].children.clone()
    } else {
        Vec::new()
    };
    display[i].expanded = true;
    assert(model(display@) =~= model(old(display)@).update(
        i as int,
        EntryModel { expanded: true, ..old(display)@[i as int]@ },
    ));
    below
}

/// The row was drawn folded.
pub fn row_closed(display: &mut [Entry], i: usize)
    requires
        i < old(display)@.len(),
    ensures
        model(final(display)@) == model(old(display)@).update(
            i as int,
            EntryModel { expanded: false, ..old(display)@[i as int]@ },
        ),
{
    display[i].expanded = false;
    assert(model(display@) =~= model(old(display)@).update(
        i as int,
        EntryModel { expanded: false, ..old(display)@[i as int]@ },
    ));
}

/// Folding a directory hides what is below it: the next display list has the row,
/// and no rows for its children.
pub proof fn law_folded_shows_no_children(
    entries: Seq<EntryModel>,
    display: Seq<EntryModel>,
    x: int,
)
    requires
        is_display_of(entries, display),
        0 <= x < display.len(),
        !entries[display[x].parent as int].expanded,
    ensures
        first_below(display, x + 1) == first_below(display, x),
        display[x].children == entries[display[x].parent as int].children,
{
    assert(row_shows(entries, display, x));
}

/// A display list begins with the entry with index 0. Every row shows an entry as it
/// is. A folded entry keeps its children as they are. An unfolded one has one row for
/// each of its children, one after the other further down, with none larger than one
/// before it.
pub proof fn law_display_row_by_row(e: Seq<EntryModel>, d: Seq<EntryModel>, x: int)
    requires
        is_display_of(e, d),
        e.len() > 0,
        d.len() <= usize::MAX,
        0 <= x < d.len(),
    ensures
        d[0].parent == 0,
        d[x].parent < e.len(),
        d[x].size == e[d[x].parent as int].size,
        d[x].path == e[d[x].parent as int].path,
        d[x].num_files == e[d[x].parent as int].num_files,
        d[x].is_file == e[d[x].parent as int].is_file,
        d[x].expanded == e[d[x].parent as int].expanded,
        d[x].children.len() == e[d[x].parent as int].children.len(),
        !d[x].expanded ==> d[x].children == e[d[x].parent as int].children,
        d[x].expanded ==> {
            &&& forall|k: int|
                0 <= k < d[x].children.len() ==> x < (#[trigger] d[x].children[k]) < d.len()
                    && d[x].children[k] == d[x].children[0] + k
            &&& forall|a: int, b: int|
                0 <= a < b < d[x].children.len() ==> d[(#[trigger] d[x].children[a]) as int].size
                    >= d[(#[trigger] d[x].children[b]) as int].size
            &&& d[x].children.map_values(|c: usize| d[c as int].parent).to_multiset()
                == e[d[x].parent as int].children.to_multiset()
        },
{
    assert(row_shows(e, d, x));
    assert(row_shows(e, d, 0));
    let list = e[d[x].parent as int].children;
    let first = first_below(d, x) as int;
    if d[x].expanded {
        assert(first + list.len() == first_below(d, x + 1));
        lemma_first_below_grows(d, x + 1, d.len() as int);
        law_largest_first(e, list);
        assert(d[x].children.map_values(|c: usize| d[c as int].parent) =~= largest_first(e, list));
        assert forall|a: int, b: int| 0 <= a < b < d[x].children.len() implies d[(
        #[trigger] d[x].children[a]) as int].size >= d[(#[trigger] d[x].children[b]) as int].size by {
            law_rows_largest_first(e, d, x, a, b);
        }
    }
}

/// Of two unfolded rows the one further up has the rows of its children further up.
pub proof fn law_rows_in_turn(e: Seq<EntryModel>, d: Seq<EntryModel>, x: int, y: int, k: int, l: int)
    requires
        is_display_of(e, d),
        e.len() > 0,
        d.len() <= usize::MAX,
        0 <= x < y < d.len(),
        d[x].expanded,
        d[y].expanded,
        0 <= k < d[x].children.len(),
        0 <= l < d[y].children.len(),
    ensures
        d[x].children[k] < d[y].children[l],
{
    assert(row_shows(e, d, x));
    assert(row_shows(e, d, y));
    lemma_first_below_grows(d, x + 1, y);
    lemma_first_below_grows(d, y + 1, d.len() as int);
    lemma_first_below_grows(d, x + 1, d.len() as int);
}

/// Every row but the first is that of a child of an unfolded row further up.
pub proof fn law_every_row_is_a_child(e: Seq<EntryModel>, d: Seq<EntryModel>, z: int)
    requires
        is_display_of(e, d),
        e.len() > 0,
        d.len() <= usize::MAX,
        1 <= z < d.len(),
    ensures
        exists|x: int, k: int|
            0 <= x < z && d[x].expanded && 0 <= k < d[x].children.len() && #[trigger] d[x].children[k]
                == z && e[d[x].parent as int].children.contains(d[z].parent),
{
    assert(row_shows(e, d, z));
    let x = lemma_row_above(d, z, z);
    assert(row_shows(e, d, x));
    let k = z - first_below(d, x);
    let list = e[d[x].parent as int].children;
    assert(first_below(d, x) + list.len() == first_below(d, x + 1));
    lemma_first_below_grows(d, x + 1, d.len() as int);
    assert(d[x].children[k] == z);
    law_largest_first(e, list);
    assert(d[first_below(d, x) + k].parent == largest_first(e, list)[k]);
    assert(largest_first(e, list).contains(largest_first(e, list)[k]));
}

/// In the display list of a tree no entry is shown twice.
pub proof fn law_shown_once(e: Seq<EntryModel>, d: Seq<EntryModel>, x: int, y: int)
    requires
        is_tree(e),
        is_display_of(e, d),
        0 <= x < y < d.len(),
    ensures
        d[x].parent != d[y].parent,
    decreases y,
{
    assert(row_shows(e, d, x));
    assert(row_shows(e, d, y));
    let a = lemma_row_above(d, y, y);
    assert(row_shows(e, d, a));
    let la = e[d[a].parent as int].children;
    let ka = y - first_below(d, a);
    lemma_shown_child(e, d, a, ka);
    if x > 0 && d[x].parent == d[y].parent {
        let b = lemma_row_above(d, x, x);
        assert(row_shows(e, d, b));
        let kb = x - first_below(d, b);
        lemma_shown_child(e, d, b, kb);
        if a < b {
            law_shown_once(e, d, a, b);
        } else if b < a {
            law_shown_once(e, d, b, a);
        }
        assert(a == b);
        lemma_tree_few_children(e, d[a].parent as int);
        law_largest_first(e, la);
        assert(lists_its_children(e, d[a].parent as int));
        la.lemma_multiset_has_no_duplicates();
        largest_first(e, la).lemma_multiset_has_no_duplicates_conv();
        assert(largest_first(e, la)[ka] == largest_first(e, la)[kb]);
    }
}

/// The row of a child shows an entry whose parent is the one above it.
proof fn lemma_shown_child(e: Seq<EntryModel>, d: Seq<EntryModel>, a: int, k: int)
    requires
        is_tree(e),
        is_display_of(e, d),
        0 <= a < d.len(),
        d[a].expanded,
        0 <= k < d[a].children.len(),
    ensures
        d[first_below(d, a) + k].parent == largest_first(e, e[d[a].parent as int].children)[k],
        1 <= d[first_below(d, a) + k].parent < e.len(),
        e[d[first_below(d, a) + k].parent as int].parent == d[a].parent,
{
    assert(row_shows(e, d, a));
    let s = d[a].parent as int;
    let list = e[s].children;
    lemma_tree_few_children(e, s);
    law_largest_first(e, list);
    assert(d[first_below(d, a) + k].parent == largest_first(e, list)[k]);
    assert(largest_first(e, list).contains(largest_first(e, list)[k]));
    assert(lists_its_children(e, s));
}

/// The last row for an entry decides whether it is unfolded, be it to fold or to
/// unfold it.
pub proof fn law_last_row_decides(e: Seq<EntryModel>, d: Seq<EntryModel>, x: int)
    requires
        0 <= x < d.len(),
        d[x].parent < e.len(),
        forall|y: int| x < y < d.len() ==> (#[trigger] d[y]).parent != d[x].parent,
    ensures
        with_flags(e, d)[d[x].parent as int].expanded == d[x].expanded,
{
    lemma_last_row(d, x, e[d[x].parent as int].expanded);
}

proof fn lemma_last_row(d: Seq<EntryModel>, x: int, before: bool)
    requires
        0 <= x < d.len(),
        forall|y: int| x < y < d.len() ==> (#[trigger] d[y]).parent != d[x].parent,
    ensures
        flag_shown(d, d[x].parent as int, before) == d[x].expanded,
    decreases d.len(),
{
    if x < d.len() - 1 {
        assert(d.last() == d[d.len() - 1]);
        let rest = d.drop_last();
        assert forall|y: int| x < y < rest.len() implies (#[trigger] rest[y]).parent
            != rest[x].parent by {
            assert(rest[y] == d[y]);
        }
        lemma_last_row(rest, x, before);
    }
}

/// An entry without a row keeps its flag.
pub proof fn law_no_row_no_change(e: Seq<EntryModel>, d: Seq<EntryModel>, k: int)
    requires
        0 <= k < e.len(),
        forall|x: int| 0 <= x < d.len() ==> (#[trigger] d[x]).parent != k,
    ensures
        with_flags(e, d)[k].expanded == e[k].expanded,
    decreases d.len(),
{
    if d.len() > 0 {
        assert(d.last() == d[d.len() - 1]);
        let rest = d.drop_last();
        assert forall|x: int| 0 <= x < rest.len() implies (#[trigger] rest[x]).parent != k by {
            assert(rest[x] == d[x]);
        }
        law_no_row_no_change(e, rest, k);
    }
}

/// Taking flags back changes nothing but flags.
pub proof fn law_flags_change_nothing_else(e: Seq<EntryModel>, d: Seq<EntryModel>, k: int)
    requires
        0 <= k < e.len(),
    ensures
        with_flags(e, d).len() == e.len(),
        with_flags(e, d)[k].parent == e[k].parent,
        with_flags(e, d)[k].size == e[k].size,
        with_flags(e, d)[k].path == e[k].path,
        with_flags(e, d)[k].children == e[k].children,
        with_flags(e, d)[k].num_files == e[k].num_files,
        with_flags(e, d)[k].is_file == e[k].is_file,
{
}

/// Folding a row of a tree and taking the flags back leaves the entry folded, and the
/// next display list has no row for any of its children.
pub proof fn law_folding_lasts(
    e: Seq<EntryModel>,
    d: Seq<EntryModel>,
    x: int,
    next: Seq<EntryModel>,
    z: int,
)
    requires
        is_tree(e),
        is_display_of(e, d),
        0 <= x < d.len(),
        is_display_of(
            with_flags(e, d.update(x, EntryModel { expanded: false, ..d[x] })),
            next,
        ),
        0 <= z < next.len(),
        next.len() <= usize::MAX,
    ensures
        !with_flags(e, d.update(x, EntryModel { expanded: false, ..d[x] }))[d[x].parent as int].expanded,
        !e[d[x].parent as int].children.contains(next[z].parent),
{
    let k = d[x].parent as int;
    let folded = d.update(x, EntryModel { expanded: false, ..d[x] });
    let f = with_flags(e, folded);
    assert(row_shows(e, d, x));
    assert forall|y: int| x < y < folded.len() implies (#[trigger] folded[y]).parent
        != folded[x].parent by {
        law_shown_once(e, d, x, y);
    }
    law_last_row_decides(e, folded, x);
    law_flags_keep_tree(e, folded);
    assert(row_shows(f, next, z));
    assert(lists_its_children(e, k));
    if e[k].children.contains(next[z].parent) {
        assert(1 <= next[z].parent < e.len() && e[next[z].parent as int].parent == k);
        assert(z > 0);
        let a = lemma_row_above(next, z, z);
        assert(row_shows(f, next, a));
        lemma_shown_child(f, next, a, z - first_below(next, a));
        assert(f[next[z].parent as int].parent == e[next[z].parent as int].parent);
        assert(next[a].parent == k);
    }
}

/// Unfolding a row of a tree and taking the flags back leaves the entry unfolded, and
/// wherever the next display list shows it, it has a row for each of its children.
pub proof fn law_unfolding_lasts(
    e: Seq<EntryModel>,
    d: Seq<EntryModel>,
    x: int,
    next: Seq<EntryModel>,
    y: int,
    c: usize,
)
    requires
        is_tree(e),
        is_display_of(e, d),
        0 <= x < d.len(),
        is_display_of(
            with_flags(e, d.update(x, EntryModel { expanded: true, ..d[x] })),
            next,
        ),
        next.len() <= usize::MAX,
        0 <= y < next.len(),
        next[y].parent == d[x].parent,
        e[d[x].parent as int].children.contains(c),
    ensures
        with_flags(e, d.update(x, EntryModel { expanded: true, ..d[x] }))[d[x].parent as int].expanded,
        exists|z: int| y < z < next.len() && (#[trigger] next[z]).parent == c,
{
    let k = d[x].parent as int;
    let opened = d.update(x, EntryModel { expanded: true, ..d[x] });
    let f = with_flags(e, opened);
    assert(row_shows(e, d, x));
    assert forall|q: int| x < q < opened.len() implies (#[trigger] opened[q]).parent
        != opened[x].parent by {
        law_shown_once(e, d, x, q);
    }
    law_last_row_decides(e, opened, x);
    law_flags_keep_tree(e, opened);
    assert(row_shows(f, next, y));
    let list = f[k].children;
    lemma_tree_few_children(f, k);
    law_largest_first(f, list);
    assert(largest_first(f, list).contains(c));
    let q = choose|q: int| 0 <= q < largest_first(f, list).len() && largest_first(f, list)[q] == c;
    law_display_row_by_row(f, next, y);
    let z = first_below(next, y) + q;
    assert(first_below(next, y) + list.len() == first_below(next, y + 1));
    lemma_first_below_grows(next, y + 1, next.len() as int);
    assert(next[z].parent == largest_first(f, list)[q]);
    assert(next[y].children[q] == z);
}

/// The children shown below an entry are its own if it is unfolded, and none else.
pub proof fn law_shown_below(e: Seq<EntryModel>, i: int)
    requires
        0 <= i < e.len(),
    ensures
        shown_kids(e).len() == e.len(),
        e[i].expanded ==> shown_kids(e)[i] == e[i].children,
        !e[i].expanded ==> shown_kids(e)[i].len() == 0,
{
}

/// Of entries of the same size the one that came first is shown first.
pub proof fn law_largest_first_ties_stay(e: Seq<EntryModel>, list: Seq<usize>, a: int, b: int)
    requires
        list.len() <= usize::MAX,
        0 <= a < b < list.len(),
    ensures
        exists|p: int, q: int|
            0 <= p < list.len() && 0 <= q < list.len() && p != q && #[trigger] list[p]
                == largest_first(e, list)[a] && #[trigger] list[q] == largest_first(e, list)[b] && (
            e[list[p] as int].size > e[list[q] as int].size || (e[list[p] as int].size
                == e[list[q] as int].size && p < q)),
{
    let keys = display_keys(e, list);
    law_arranged_by_key(list, keys, a, b);
    let (p, q) = choose|p: int, q: int|
        0 <= p < list.len() && 0 <= q < list.len() && p != q && #[trigger] list[p] == largest_first(
            e,
            list,
        )[a] && #[trigger] list[q] == largest_first(e, list)[b] && (keys[p] < keys[q] || (keys[p]
            == keys[q] && p < q));
    assert(list[p] == largest_first(e, list)[a] && list[q] == largest_first(e, list)[b]);
}

/// A row further down is named after the last component of its path, however many
/// there are; the first row after the whole path.
pub proof fn law_row_named_after_last_component(d: Seq<EntryModel>, i: int)
    requires
        0 <= i < d.len(),
    ensures
        i == 0 && valid_utf8(path_bytes(d[0].path)) ==> name_shown(d, 0) == Some(
            decode_utf8(path_bytes(d[0].path)),
        ),
        i == 0 && !valid_utf8(path_bytes(d[0].path)) ==> name_shown(d, 0) is None,
        i > 0 && written_components(d[i].path).len() == 0 ==> name_shown(d, i) is None,
        i > 0 ==> forall|above: Seq<Seq<u8>>, last: Seq<u8>|
            written_components(d[i].path) == #[trigger] above.push(last) && valid_utf8(last)
                ==> name_shown(d, i) == Some(decode_utf8(last)),
        i > 0 ==> forall|above: Seq<Seq<u8>>, last: Seq<u8>|
            written_components(d[i].path) == #[trigger] above.push(last) && !valid_utf8(last)
                ==> name_shown(d, i) is None,
{
    assert forall|above: Seq<Seq<u8>>, last: Seq<u8>|
        written_components(d[i].path) == #[trigger] above.push(last) implies written_components(
        d[i].path,
    ).last() == last && written_components(d[i].path).len() > 0 by {}
}

/// Two rows of one directory whose paths are written differently have different names.
pub proof fn law_names_tell_rows_apart(d: Seq<EntryModel>, i: int, j: int)
    requires
        1 <= i < d.len(),
        1 <= j < d.len(),
        written_components(d[i].path).len() > 0,
        written_components(d[j].path).len() > 0,
        written_components(d[i].path).drop_last() == written_components(d[j].path).drop_last(),
        written_components(d[i].path) != written_components(d[j].path),
        name_shown(d, i) is Some,
        name_shown(d, j) is Some,
    ensures
        name_shown(d, i) != name_shown(d, j),
{
    let a = written_components(d[i].path);
    let b = written_components(d[j].path);
    law_unicode_text(a.last(), b.last());
    if a.last() == b.last() {
        assert(a =~= a.drop_last().push(a.last()));
        assert(b =~= b.drop_last().push(b.last()));
    }
}

} // verus!
