//! The order in which a treemap is laid out, and how its picture is filled.
use vstd::arithmetic::div_mod::{lemma_fundamental_div_mod, lemma_mod_bound};
use vstd::prelude::*;
use crate::by_size::{by_size, law_by_size, lemma_tree_few_children, sort_by_size};
use crate::descent::all_ways_end;
use crate::entry::{kids, model, parents, Entry, EntryModel};
use crate::shape::{climb, ends_below, ends_within, is_above, is_tree, lists_its_children};
use crate::shape::{law_tree_climbs_end, law_tree_ends_below, law_tree_hangs_from_root, law_way_up};
use crate::sums::{are_children, beneath, beneath_all, lemma_above_chain, lemma_beneath_splits};
use crate::sums::{lemma_children_apart, lemma_not_below_child};
use crate::sums::{lemma_total_one, lemma_total_same, total};

verus! {

/// One step of laying out a treemap.
#[derive(Debug, Clone, Copy, PartialEq, Eq, Structural)]
pub enum LayoutStep {
    /// Begin to divide the area of this entry.
    Enter(usize),
    /// Give this entry the next share of the area being divided.
    Place(usize),
    /// The area is divided; go on with the one around it.
    Leave,
}

/// The steps that lay out entry `i` and what is below it, when every way down
/// from there ends after at most `h` steps: the area is divided among the
/// children with the smallest first, each laid out as soon as it has its share.
pub open spec fn layout_steps(e: Seq<EntryModel>, i: usize, h: nat) -> Seq<LayoutStep>
    decreases h, 0nat,
{
    seq![LayoutStep::Enter(i)] + (if h > 0 {
        share_steps(e, by_size(e, e[i as int].children), (h - 1) as nat)
    } else {
        Seq::empty()
    }) + seq![LayoutStep::Leave]
}

/// The steps that divide an area among these entries.
pub open spec fn share_steps(e: Seq<EntryModel>, list: Seq<usize>, h: nat) -> Seq<LayoutStep>
    decreases h, list.len(),
{
    if list.len() == 0 {
        Seq::empty()
    } else {
        share_steps(e, list.drop_last(), h) + seq![LayoutStep::Place(list.last())] + layout_steps(
            e,
            list.last(),
            h,
        )
    }
}

fn plan_below(i: usize, entries: &[Entry], steps: &mut Vec<LayoutStep>, Ghost(h): Ghost<nat>)
    requires
        ends_within(kids(model(entries@)), i as int, h),
    ensures
        final(steps)@ == old(steps)@ + layout_steps(model(entries@), i, h),
    decreases h,
{
    let ghost e = model(entries@);
    let ghost before = steps@;
    let ghost list = e[i as int].children;
    proof {
        assert(kids(e)[i as int] == list);
        assert(entries@[i as int].children.len() == list.len());
        assert forall|k: int| 0 <= k < list.len() implies (#[trigger] list[k]) < e.len() by {
            assert(kids(e)[i as int][k] == list[k]);
            assert(ends_within(kids(e), list[k] as int, (h - 1) as nat));
        }
        law_by_size(e, list);
    }
    let sorted = sort_by_size(entries, &entries[i].children);
    steps.push(LayoutStep::Enter(i));
    let mut k: usize = 0;
    let ghost start = before + seq![LayoutStep::Enter(i)];
    assert(sorted@.take(0) =~= Seq::<usize>::empty());
    assert(steps@ =~= start + share_steps(e, sorted@.take(0), (h - 1) as nat));
    while k < sorted.len()
        invariant
            e == model(entries@),
            list == e[i as int].children,
            kids(e)[i as int] == list,
            ends_within(kids(e), i as int, h),
            sorted@ == by_size(e, list),
            forall|c: usize| #[trigger] sorted@.contains(c) <==> list.contains(c),
            k <= sorted@.len(),
            steps@ == start + share_steps(e, sorted@.take(k as int), (h - 1) as nat),
        decreases sorted@.len() - k,
    {
        let c: usize = sorted[k];
        proof {
            assert(sorted@.contains(c));
            let q = choose|q: int| 0 <= q < list.len() && list[q] == c;
            assert(ends_within(kids(e), kids(e)[i as int][q] as int, (h - 1) as nat));
        }
        let ghost done = share_steps(e, sorted@.take(k as int), (h - 1) as nat);
        steps.push(LayoutStep::Place(c));
        plan_below(c, entries, steps, Ghost((h - 1) as nat));
        proof {
            let more = sorted@.take(k + 1);
            assert(more.drop_last() =~= sorted@.take(k as int));
            assert(more.last() == c);
            assert(steps@ =~= start + share_steps(e, more, (h - 1) as nat));
        }
        k = k + 1;
    }
    steps.push(LayoutStep::Leave);
    proof {
        assert(sorted@.take(k as int) =~= sorted@);
        if h == 0 {
            assert(list.len() == 0) by {
                if list.len() > 0 {
                    assert(kids(e)[i as int][0] == list[0]);
                }
            }
        }
        assert(steps@ =~= before + layout_steps(e, i, h));
    }
}

/// Tells whether a treemap of the entries can be laid out: every way down from the
/// entry with index 0 stays in the list and ends.
pub fn can_lay_out(entries: &[Entry]) -> (possible: bool)
    ensures
        possible == ends_below(kids(model(entries@)), 0),
{
    all_ways_end(entries, false)
}

/// Lists the steps that lay out the whole treemap, from the entry with index 0.
pub fn layout_plan(entries: &[Entry]) -> (steps: Vec<LayoutStep>)
    requires
        ends_below(kids(model(entries@)), 0),
    ensures
        forall|h: nat| #[trigger]
            ends_within(kids(model(entries@)), 0, h) ==> steps@ == layout_steps(
                model(entries@),
                0,
                h,
            ),
        steps_in_list(steps@, entries@.len()),
        steps@.len() >= 2,
        steps@[0] == LayoutStep::Enter(0),
        steps@[steps@.len() - 1] == LayoutStep::Leave,
{
    let ghost e = model(entries@);
    let ghost h = choose|h: nat| ends_within(kids(e), 0, h);
    let mut steps: Vec<LayoutStep> = Vec::new();
    plan_below(0, entries, &mut steps, Ghost(h));
    proof {
        assert(steps@ =~= layout_steps(e, 0, h));
        assert forall|j: int| 0 <= j < e.len() implies (#[trigger] e[j]).children.len()
            <= usize::MAX by {
            assert(entries@[j].children.len() == entries@[j].children@.len());
        }
        lemma_layout_in_list(e, 0, h);
        assert forall|g: nat| #[trigger] ends_within(kids(e), 0, g) implies steps@
            == layout_steps(e, 0, g) by {
            lemma_layout_same(e, 0, h, g);
        }
    }
    steps
}

/// The steps do not depend on how far the ways down are known to reach.
proof fn lemma_layout_same(e: Seq<EntryModel>, i: usize, h: nat, g: nat)
    requires
        ends_within(kids(e), i as int, h),
        ends_within(kids(e), i as int, g),
        forall|j: int| 0 <= j < e.len() ==> (#[trigger] e[j]).children.len() <= usize::MAX,
    ensures
        layout_steps(e, i, h) == layout_steps(e, i, g),
    decreases h, 0nat,
{
    let list = e[i as int].children;
    assert(kids(e)[i as int] == list);
    law_by_size(e, list);
    if list.len() > 0 {
        assert(ends_within(kids(e), kids(e)[i as int][0] as int, (h - 1) as nat));
        assert(ends_within(kids(e), kids(e)[i as int][0] as int, (g - 1) as nat));
        assert forall|k: int| 0 <= k < by_size(e, list).len() implies ends_within(
            kids(e),
            (#[trigger] by_size(e, list)[k]) as int,
            (h - 1) as nat,
        ) && ends_within(kids(e), by_size(e, list)[k] as int, (g - 1) as nat) by {
            let c = by_size(e, list)[k];
            assert(by_size(e, list).contains(c));
            let q = choose|q: int| 0 <= q < list.len() && list[q] == c;
            assert(kids(e)[i as int][q] == c);
        }
        lemma_shares_same(e, by_size(e, list), (h - 1) as nat, (g - 1) as nat);
    }
}

proof fn lemma_shares_same(e: Seq<EntryModel>, list: Seq<usize>, h: nat, g: nat)
    requires
        forall|k: int|
            0 <= k < list.len() ==> ends_within(kids(e), (#[trigger] list[k]) as int, h)
                && ends_within(kids(e), list[k] as int, g),
        forall|j: int| 0 <= j < e.len() ==> (#[trigger] e[j]).children.len() <= usize::MAX,
    ensures
        share_steps(e, list, h) == share_steps(e, list, g),
    decreases h, list.len(),
{
    if list.len() > 0 {
        let c = list[list.len() - 1];
        assert(ends_within(kids(e), c as int, h));
        lemma_layout_same(e, c, h, g);
        lemma_shares_same(e, list.drop_last(), h, g);
    }
}

/// Every entry that is entered is in the list.
proof fn lemma_layout_in_list(e: Seq<EntryModel>, i: usize, h: nat)
    requires
        ends_within(kids(e), i as int, h),
        forall|j: int| 0 <= j < e.len() ==> (#[trigger] e[j]).children.len() <= usize::MAX,
    ensures
        steps_in_list(layout_steps(e, i, h), e.len()),
    decreases h, 0nat,
{
    let list = e[i as int].children;
    assert(kids(e)[i as int] == list);
    law_by_size(e, list);
    if h > 0 {
        assert forall|k: int| 0 <= k < by_size(e, list).len() implies ends_within(
            kids(e),
            (#[trigger] by_size(e, list)[k]) as int,
            (h - 1) as nat,
        ) by {
            let c = by_size(e, list)[k];
            assert(by_size(e, list).contains(c));
            let q = choose|q: int| 0 <= q < list.len() && list[q] == c;
            assert(kids(e)[i as int][q] == c);
        }
        lemma_shares_in_list(e, by_size(e, list), (h - 1) as nat);
    }
}

proof fn lemma_shares_in_list(e: Seq<EntryModel>, list: Seq<usize>, h: nat)
    requires
        forall|k: int| 0 <= k < list.len() ==> ends_within(kids(e), (#[trigger] list[k]) as int, h),
        forall|j: int| 0 <= j < e.len() ==> (#[trigger] e[j]).children.len() <= usize::MAX,
    ensures
        steps_in_list(share_steps(e, list, h), e.len()),
    decreases h, list.len(),
{
    if list.len() > 0 {
        let c = list[list.len() - 1];
        assert(ends_within(kids(e), c as int, h));
        lemma_layout_in_list(e, c, h);
        lemma_shares_in_list(e, list.drop_last(), h);
    }
}

/// The steps name entries of a list of `n` entries only.
pub open spec fn steps_in_list(steps: Seq<LayoutStep>, n: nat) -> bool {
    forall|k: int|
        0 <= k < steps.len() ==> match #[trigger] steps[k] {
            LayoutStep::Enter(i) => i < n,
            LayoutStep::Place(i) => i < n,
            LayoutStep::Leave => true,
        }
}

/// The treemap of a tree can be laid out.
pub proof fn law_tree_can_be_laid_out(entries: Seq<EntryModel>)
    requires
        is_tree(entries),
    ensures
        ends_below(kids(entries), 0),
{
    law_tree_ends_below(entries, kids(entries), 0);
}

/// How often a step occurs.
pub open spec fn times(steps: Seq<LayoutStep>, step: LayoutStep) -> nat
    decreases steps.len(),
{
    if steps.len() == 0 {
        0
    } else {
        times(steps.drop_last(), step) + if steps.last() == step {
            1nat
        } else {
            0nat
        }
    }
}

/// The weights of the entries that are entered, added up.
spec fn turns(steps: Seq<LayoutStep>, weight: spec_fn(int) -> nat) -> nat
    decreases steps.len(),
{
    if steps.len() == 0 {
        0
    } else {
        turns(steps.drop_last(), weight) + match steps.last() {
            LayoutStep::Enter(i) => weight(i as int),
            _ => 0nat,
        }
    }
}

proof fn lemma_times_add(a: Seq<LayoutStep>, b: Seq<LayoutStep>, step: LayoutStep)
    ensures
        times(a + b, step) == times(a, step) + times(b, step),
    decreases b.len(),
{
    if b.len() == 0 {
        assert(a + b =~= a);
    } else {
        lemma_times_add(a, b.drop_last(), step);
        assert((a + b).drop_last() =~= a + b.drop_last());
        assert((a + b).last() == b.last());
    }
}

proof fn lemma_turns_add(a: Seq<LayoutStep>, b: Seq<LayoutStep>, weight: spec_fn(int) -> nat)
    ensures
        turns(a + b, weight) == turns(a, weight) + turns(b, weight),
    decreases b.len(),
{
    if b.len() == 0 {
        assert(a + b =~= a);
    } else {
        lemma_turns_add(a, b.drop_last(), weight);
        assert((a + b).drop_last() =~= a + b.drop_last());
        assert((a + b).last() == b.last());
    }
}

proof fn lemma_single_step(step: LayoutStep, other: LayoutStep, weight: spec_fn(int) -> nat)
    ensures
        times(seq![step], other) == if step == other {
            1nat
        } else {
            0nat
        },
        turns(seq![step], weight) == match step {
            LayoutStep::Enter(i) => weight(i as int),
            _ => 0nat,
        },
{
    let one = seq![step];
    assert(one.drop_last() =~= Seq::<LayoutStep>::empty());
    assert(one.last() == step);
    assert(times(one.drop_last(), other) == 0);
    assert(turns(one.drop_last(), weight) == 0);
}

/// The children of an entry of a tree, ordered by size, are its children.
proof fn lemma_sorted_are_children(e: Seq<EntryModel>, i: int)
    requires
        is_tree(e),
        0 <= i < e.len(),
    ensures
        are_children(parents(e), i, by_size(e, e[i].children)),
{
    let list = e[i].children;
    let sorted = by_size(e, list);
    lemma_tree_few_children(e, i);
    law_by_size(e, list);
    assert(lists_its_children(e, i));
    list.lemma_multiset_has_no_duplicates();
    sorted.lemma_multiset_has_no_duplicates_conv();
    assert forall|c: usize| #[trigger] sorted.contains(c) <==> c < e.len() && parents(e)[c as int]
        == i by {
        assert(list.contains(c) <==> 1 <= c < e.len() && e[c as int].parent == i);
        assert(e[0].parent == usize::MAX);
    }
}

/// In a tree, laying out an entry enters what is at or below it, each once.
proof fn lemma_layout_turns(e: Seq<EntryModel>, i: usize, h: nat, weight: spec_fn(int) -> nat)
    requires
        is_tree(e),
        ends_within(kids(e), i as int, h),
    ensures
        turns(layout_steps(e, i, h), weight) == beneath(parents(e), weight, i as int),
    decreases h, 0nat,
{
    let list = e[i as int].children;
    let sorted = by_size(e, list);
    assert(kids(e)[i as int] == list);
    lemma_tree_few_children(e, i as int);
    law_by_size(e, list);
    lemma_sorted_are_children(e, i as int);
    law_tree_climbs_end(e, i as int);
    lemma_beneath_splits(parents(e), weight, i as int, sorted);
    let enter = seq![LayoutStep::Enter(i)];
    let shares = if h > 0 {
        share_steps(e, sorted, (h - 1) as nat)
    } else {
        Seq::empty()
    };
    let leave = seq![LayoutStep::Leave];
    lemma_turns_add(enter + shares, leave, weight);
    lemma_turns_add(enter, shares, weight);
    lemma_single_step(LayoutStep::Enter(i), LayoutStep::Leave, weight);
    lemma_single_step(LayoutStep::Leave, LayoutStep::Leave, weight);
    if h > 0 {
        assert forall|k: int| 0 <= k < sorted.len() implies ends_within(
            kids(e),
            (#[trigger] sorted[k]) as int,
            (h - 1) as nat,
        ) by {
            assert(sorted.contains(sorted[k]));
            let q = choose|q: int| 0 <= q < list.len() && list[q] == sorted[k];
            assert(kids(e)[i as int][q] == sorted[k]);
        }
        lemma_share_turns(e, sorted, (h - 1) as nat, weight);
    } else {
        if list.len() > 0 {
            assert(kids(e)[i as int][0] == list[0]);
        }
        assert(sorted.len() == 0);
    }
}

proof fn lemma_share_turns(
    e: Seq<EntryModel>,
    list: Seq<usize>,
    h: nat,
    weight: spec_fn(int) -> nat,
)
    requires
        is_tree(e),
        forall|k: int| 0 <= k < list.len() ==> ends_within(kids(e), (#[trigger] list[k]) as int, h),
    ensures
        turns(share_steps(e, list, h), weight) == beneath_all(parents(e), weight, list),
    decreases h, list.len(),
{
    if list.len() > 0 {
        let c = list[list.len() - 1];
        assert(ends_within(kids(e), c as int, h));
        let front = share_steps(e, list.drop_last(), h);
        let place = seq![LayoutStep::Place(c)];
        lemma_layout_turns(e, c, h, weight);
        lemma_share_turns(e, list.drop_last(), h, weight);
        lemma_turns_add(front + place, layout_steps(e, c, h), weight);
        lemma_turns_add(front, place, weight);
        lemma_single_step(LayoutStep::Place(c), LayoutStep::Leave, weight);
    }
}

/// How often an entry is entered, as a sum of weights.
proof fn lemma_times_entered(steps: Seq<LayoutStep>, t: usize)
    ensures
        times(steps, LayoutStep::Enter(t)) == turns(
            steps,
            |k: int|
                if k == t {
                    1nat
                } else {
                    0nat
                },
        ),
    decreases steps.len(),
{
    if steps.len() > 0 {
        lemma_times_entered(steps.drop_last(), t);
    }
}

/// In the treemap of a tree every entry has its turn, exactly once.
pub proof fn law_every_entry_has_one_turn(entries: Seq<EntryModel>, t: usize, h: nat)
    requires
        is_tree(entries),
        t < entries.len(),
        ends_within(kids(entries), 0, h),
    ensures
        times(layout_steps(entries, 0, h), LayoutStep::Enter(t)) == 1,
{
    let here = |k: int|
        if k == t {
            1nat
        } else {
            0nat
        };
    lemma_times_entered(layout_steps(entries, 0, h), t);
    lemma_layout_turns(entries, 0, h, here);
    law_tree_hangs_from_root(entries, t as int);
    lemma_total_one(
        |k: int|
            if is_above(parents(entries), k, 0) {
                here(k)
            } else {
                0nat
            },
        t as int,
        entries.len(),
    );
}

/// The number of turns that begin.
pub open spec fn turns_begun(steps: Seq<LayoutStep>) -> nat
    decreases steps.len(),
{
    if steps.len() == 0 {
        0
    } else {
        turns_begun(steps.drop_last()) + if steps.last() is Enter {
            1nat
        } else {
            0nat
        }
    }
}

proof fn lemma_turns_begun(steps: Seq<LayoutStep>)
    ensures
        turns_begun(steps) == turns(steps, |k: int| 1nat),
    decreases steps.len(),
{
    if steps.len() > 0 {
        lemma_turns_begun(steps.drop_last());
    }
}

/// Every turn that begins also ends.
pub proof fn law_every_turn_ends(e: Seq<EntryModel>, i: usize, h: nat)
    ensures
        times(layout_steps(e, i, h), LayoutStep::Leave) == turns_begun(layout_steps(e, i, h)),
{
    lemma_turns_begun(layout_steps(e, i, h));
    lemma_layout_leaves(e, i, h);
}

proof fn lemma_layout_leaves(e: Seq<EntryModel>, i: usize, h: nat)
    ensures
        times(layout_steps(e, i, h), LayoutStep::Leave) == turns(
            layout_steps(e, i, h),
            |k: int| 1nat,
        ),
    decreases h, 0nat,
{
    let one = |k: int| 1nat;
    let enter = seq![LayoutStep::Enter(i)];
    let shares = if h > 0 {
        share_steps(e, by_size(e, e[i as int].children), (h - 1) as nat)
    } else {
        Seq::empty()
    };
    let leave = seq![LayoutStep::Leave];
    lemma_turns_add(enter + shares, leave, one);
    lemma_turns_add(enter, shares, one);
    lemma_times_add(enter + shares, leave, LayoutStep::Leave);
    lemma_times_add(enter, shares, LayoutStep::Leave);
    lemma_single_step(LayoutStep::Enter(i), LayoutStep::Leave, one);
    lemma_single_step(LayoutStep::Leave, LayoutStep::Leave, one);
    if h > 0 {
        lemma_share_leaves(e, by_size(e, e[i as int].children), (h - 1) as nat);
    }
}

proof fn lemma_share_leaves(e: Seq<EntryModel>, list: Seq<usize>, h: nat)
    ensures
        times(share_steps(e, list, h), LayoutStep::Leave) == turns(
            share_steps(e, list, h),
            |k: int| 1nat,
        ),
    decreases h, list.len(),
{
    if list.len() > 0 {
        let one = |k: int| 1nat;
        let c = list.last();
        let front = share_steps(e, list.drop_last(), h);
        let place = seq![LayoutStep::Place(c)];
        lemma_layout_leaves(e, c, h);
        lemma_share_leaves(e, list.drop_last(), h);
        lemma_turns_add(front + place, layout_steps(e, c, h), one);
        lemma_turns_add(front, place, one);
        lemma_times_add(front + place, layout_steps(e, c, h), LayoutStep::Leave);
        lemma_times_add(front, place, LayoutStep::Leave);
        lemma_single_step(LayoutStep::Place(c), LayoutStep::Leave, one);
    }
}

/// In the treemap of a tree, as many turns begin, and as many end, as there are
/// entries.
pub proof fn law_as_many_turns_as_entries(entries: Seq<EntryModel>, h: nat)
    requires
        is_tree(entries),
        ends_within(kids(entries), 0, h),
    ensures
        turns_begun(layout_steps(entries, 0, h)) == entries.len(),
        times(layout_steps(entries, 0, h), LayoutStep::Leave) == entries.len(),
{
    let one = |k: int| 1nat;
    law_every_turn_ends(entries, 0, h);
    lemma_turns_begun(layout_steps(entries, 0, h));
    lemma_layout_turns(entries, 0, h, one);
    assert forall|k: int| 0 <= k < entries.len() implies is_above(parents(entries), k, 0) by {
        law_tree_hangs_from_root(entries, k);
    }
    lemma_total_same(
        |k: int|
            if is_above(parents(entries), k, 0) {
                one(k)
            } else {
                0nat
            },
        one,
        entries.len(),
    );
    lemma_total_of_ones(entries.len());
}

proof fn lemma_total_of_ones(n: nat)
    ensures
        total(|k: int| 1nat, n) == n,
    decreases n,
{
    if n > 0 {
        lemma_total_of_ones((n - 1) as nat);
    }
}

/// Dividing the area of an entry begins with its turn; every other turn begins right
/// after the entry got its share, and whoever gets a share has the next turn. So
/// the only areas that are divided are the first one and ones just handed out.
pub proof fn law_turns_follow_shares(e: Seq<EntryModel>, i: usize, h: nat)
    ensures
        layout_steps(e, i, h).len() >= 2,
        layout_steps(e, i, h)[0] == LayoutStep::Enter(i),
        forall|k: int|
            1 <= k < layout_steps(e, i, h).len() ==> match #[trigger] layout_steps(e, i, h)[k] {
                LayoutStep::Enter(c) => layout_steps(e, i, h)[k - 1] == LayoutStep::Place(c),
                _ => true,
            },
        forall|k: int|
            0 <= k < layout_steps(e, i, h).len() ==> match #[trigger] layout_steps(e, i, h)[k] {
                LayoutStep::Place(c) => k + 1 < layout_steps(e, i, h).len() && layout_steps(
                    e,
                    i,
                    h,
                )[k + 1] == LayoutStep::Enter(c),
                _ => true,
            },
    decreases h, 0nat,
{
    let steps = layout_steps(e, i, h);
    let shares = if h > 0 {
        share_steps(e, by_size(e, e[i as int].children), (h - 1) as nat)
    } else {
        Seq::empty()
    };
    if h > 0 {
        lemma_shares_and_turns(e, by_size(e, e[i as int].children), (h - 1) as nat);
    }
    let m = shares.len() as int;
    assert(steps =~= seq![LayoutStep::Enter(i)] + shares + seq![LayoutStep::Leave]);
    assert forall|k: int| 1 <= k < steps.len() implies match #[trigger] steps[k] {
        LayoutStep::Enter(c) => steps[k - 1] == LayoutStep::Place(c),
        _ => true,
    } by {
        if k <= m {
            assert(steps[k] == shares[k - 1]);
            if k >= 2 {
                assert(steps[k - 1] == shares[k - 2]);
            }
        }
    }
    assert forall|k: int| 0 <= k < steps.len() implies match #[trigger] steps[k] {
        LayoutStep::Place(c) => k + 1 < steps.len() && steps[k + 1] == LayoutStep::Enter(c),
        _ => true,
    } by {
        if 1 <= k <= m {
            assert(steps[k] == shares[k - 1]);
            if k < m {
                assert(steps[k + 1] == shares[k]);
            }
        }
    }
}

proof fn lemma_shares_and_turns(e: Seq<EntryModel>, list: Seq<usize>, h: nat)
    ensures
        forall|k: int|
            0 <= k < share_steps(e, list, h).len() ==> match #[trigger] share_steps(e, list, h)[k] {
                LayoutStep::Enter(c) => k > 0 && share_steps(e, list, h)[k - 1]
                    == LayoutStep::Place(c),
                LayoutStep::Place(c) => k + 1 < share_steps(e, list, h).len() && share_steps(
                    e,
                    list,
                    h,
                )[k + 1] == LayoutStep::Enter(c),
                LayoutStep::Leave => true,
            },
    decreases h, list.len(),
{
    if list.len() > 0 {
        let steps = share_steps(e, list, h);
        let front = share_steps(e, list.drop_last(), h);
        let own = layout_steps(e, list.last(), h);
        let m = front.len() as int;
        lemma_shares_and_turns(e, list.drop_last(), h);
        law_turns_follow_shares(e, list.last(), h);
        assert(steps =~= front + seq![LayoutStep::Place(list.last())] + own);
        assert forall|k: int| 0 <= k < steps.len() implies match #[trigger] steps[k] {
            LayoutStep::Enter(c) => k > 0 && steps[k - 1] == LayoutStep::Place(c),
            LayoutStep::Place(c) => k + 1 < steps.len() && steps[k + 1] == LayoutStep::Enter(c),
            LayoutStep::Leave => true,
        } by {
            if k < m {
                assert(steps[k] == front[k]);
                if k > 0 {
                    assert(steps[k - 1] == front[k - 1]);
                }
                if k + 1 < m {
                    assert(steps[k + 1] == front[k + 1]);
                }
            } else if k == m {
                assert(steps[m + 1] == own[0]);
            } else {
                assert(steps[k] == own[k - m - 1]);
                if k > m + 1 {
                    assert(steps[k - 1] == own[k - m - 2]);
                } else {
                    assert(steps[m] == LayoutStep::Place(list.last()));
                }
                if k - m < own.len() {
                    assert(steps[k + 1] == own[k - m]);
                }
            }
        }
    }
}

/// The marks after these steps: an entry that was entered is marked if it is a
/// file; the other marks stay.
pub open spec fn leaves_marked(
    e: Seq<EntryModel>,
    steps: Seq<LayoutStep>,
    leaf: Seq<bool>,
) -> Seq<bool> {
    Seq::new(
        leaf.len(),
        |k: int|
            if k <= usize::MAX && steps.contains(LayoutStep::Enter(k as usize)) {
                e[k].is_file
            } else {
                leaf[k]
            },
    )
}

/// Marks the files among the entries that the steps enter.
pub fn mark_leaves(entries: &[Entry], steps: &[LayoutStep], leaf: &mut [bool])
    requires
        steps_in_list(steps@, entries@.len()),
        forall|i: usize| #[trigger]
            steps@.contains(LayoutStep::Enter(i)) ==> i < old(leaf)@.len(),
    ensures
        final(leaf)@ == leaves_marked(model(entries@), steps@, old(leaf)@),
        final(leaf)@.len() == old(leaf)@.len(),
        forall|i: usize| #[trigger]
            steps@.contains(LayoutStep::Enter(i)) ==> final(leaf)@[i as int]
                == entries@[i as int].is_file,
        forall|k: int|
            0 <= k < old(leaf)@.len() && (k > usize::MAX || !steps@.contains(
                LayoutStep::Enter(k as usize),
            )) ==> (#[trigger] final(leaf)@[k]) == old(leaf)@[k],
{
    let ghost e = model(entries@);
    let ghost before = leaf@;
    let mut k: usize = 0;
    assert(leaf@ =~= leaves_marked(e, steps@.take(0), before));
    while k < steps.len()
        invariant
            e == model(entries@),
            k <= steps@.len(),
            steps_in_list(steps@, entries@.len()),
            forall|i: usize| #[trigger]
                steps@.contains(LayoutStep::Enter(i)) ==> i < before.len(),
            leaf@ == leaves_marked(e, steps@.take(k as int), before),
        decreases steps@.len() - k,
    {
        let ghost so_far = steps@.take(k as int);
        let ghost more = steps@.take(k + 1);
        let ghost marks = leaf@;
        match steps[k] {
            LayoutStep::Enter(i) => {
                assert(steps@[k as int] == LayoutStep::Enter(i));
                assert(steps@.contains(LayoutStep::Enter(i)));
                leaf[i] = entries[i].is_file;
                assert(leaf@ =~= marks.update(i as int, e[i as int].is_file));
            },
            LayoutStep::Place(_) => {},
            LayoutStep::Leave => {},
        }
        proof {
            assert(more =~= so_far.push(steps@[k as int]));
            assert forall|j: int| 0 <= j < before.len() implies leaf@[j] == #[trigger] leaves_marked(
                e,
                more,
                before,
            )[j] by {
                assert(marks[j] == leaves_marked(e, so_far, before)[j]);
                if j <= usize::MAX {
                    let entered = LayoutStep::Enter(j as usize);
                    assert(more.contains(entered) <==> (so_far.contains(entered) || steps@[k as int]
                        == entered)) by {
                        if so_far.contains(entered) {
                            let q = choose|q: int| 0 <= q < so_far.len() && so_far[q] == entered;
                            assert(more[q] == entered);
                        }
                        if steps@[k as int] == entered {
                            assert(more[k as int] == entered);
                        }
                        if more.contains(entered) {
                            let q = choose|q: int| 0 <= q < more.len() && more[q] == entered;
                            if q < k {
                                assert(so_far[q] == entered);
                            }
                        }
                    }
                }
            }
            assert(leaf@ =~= leaves_marked(e, more, before));
        }
        k = k + 1;
    }
    assert(steps@.take(k as int) =~= steps@);
    proof {
        assert forall|i: usize| #[trigger] steps@.contains(LayoutStep::Enter(i)) implies leaf@[i as int]
            == entries@[i as int].is_file by {
            let q = choose|q: int| 0 <= q < steps@.len() && steps@[q] == LayoutStep::Enter(i);
            assert(steps@[q] == LayoutStep::Enter(i));
            assert(e[i as int] == entries@[i as int]@);
        }
    }
}

/// Marking a second time changes nothing, and of the old marks only those of
/// entries that are not entered stay.
pub proof fn law_marks_depend_on_entries(
    e: Seq<EntryModel>,
    steps: Seq<LayoutStep>,
    a: Seq<bool>,
    b: Seq<bool>,
)
    requires
        a.len() == b.len(),
        forall|k: int|
            0 <= k < a.len() && (k > usize::MAX || !steps.contains(LayoutStep::Enter(k as usize)))
                ==> #[trigger] a[k] == b[k],
    ensures
        leaves_marked(e, steps, a) == leaves_marked(e, steps, b),
        leaves_marked(e, steps, leaves_marked(e, steps, a)) == leaves_marked(e, steps, a),
{
    assert(leaves_marked(e, steps, a) =~= leaves_marked(e, steps, b));
    let once = leaves_marked(e, steps, a);
    assert(leaves_marked(e, steps, once) =~= once);
}

/// Index of the first byte of the pixel in column `x` and row `y` of a picture
/// that is `w` pixels wide.
pub open spec fn pixel_at(w: int, x: int, y: int) -> int {
    4 * (x + w * y)
}

/// Byte `b` belongs to a pixel from column `x0` up to column `x1` and from row
/// `y0` up to row `y1`.
pub open spec fn in_area(x0: int, y0: int, x1: int, y1: int, w: int, b: int) -> bool {
    exists|x: int, y: int|
        x0 <= x < x1 && y0 <= y < y1 && #[trigger] pixel_at(w, x, y) <= b < pixel_at(w, x, y) + 4
}

/// The picture with the pixels of an area in one colour.
pub open spec fn filled(
    col: Seq<u8>,
    x0: int,
    y0: int,
    x1: int,
    y1: int,
    w: int,
    pix: Seq<u8>,
) -> Seq<u8> {
    Seq::new(
        pix.len(),
        |b: int|
            if in_area(x0, y0, x1, y1, w, b) {
                col[b % 4]
            } else {
                pix[b]
            },
    )
}

proof fn lemma_next_pixel(x0: int, x: int, y: int, w: int, b: int)
    requires
        x0 <= x,
    ensures
        in_area(x0, y, x + 1, y + 1, w, b) <==> in_area(x0, y, x, y + 1, w, b) || pixel_at(w, x, y)
            <= b < pixel_at(w, x, y) + 4,
{
    if in_area(x0, y, x + 1, y + 1, w, b) {
        let (p, q) = choose|p: int, q: int|
            x0 <= p < x + 1 && y <= q < y + 1 && #[trigger] pixel_at(w, p, q) <= b < pixel_at(
                w,
                p,
                q,
            ) + 4;
        if p < x {
            assert(x0 <= p < x && y <= q < y + 1 && pixel_at(w, p, q) <= b);
        }
    }
}

proof fn lemma_next_line(x0: int, y0: int, x1: int, y: int, w: int, b: int)
    requires
        y0 <= y,
    ensures
        in_area(x0, y0, x1, y + 1, w, b) <==> in_area(x0, y0, x1, y, w, b) || in_area(
            x0,
            y,
            x1,
            y + 1,
            w,
            b,
        ),
{
    if in_area(x0, y0, x1, y + 1, w, b) {
        let (p, q) = choose|p: int, q: int|
            x0 <= p < x1 && y0 <= q < y + 1 && #[trigger] pixel_at(w, p, q) <= b < pixel_at(
                w,
                p,
                q,
            ) + 4;
        if q < y {
            assert(x0 <= p < x1 && y0 <= q < y && pixel_at(w, p, q) <= b);
        } else {
            assert(x0 <= p < x1 && y <= q < y + 1 && pixel_at(w, p, q) <= b);
        }
    }
}

/// The area from column `x0` up to column `x1` and from row `y0` up to row `y1` of
/// a picture that is `w` pixels wide lies in the first `len` bytes.
pub open spec fn area_fits(x0: int, y0: int, x1: int, y1: int, w: int, len: nat) -> bool {
    forall|x: int, y: int|
        x0 <= x < x1 && y0 <= y < y1 ==> #[trigger] pixel_at(w, x, y) + 4 <= len
}

/// Fills the pixels from column `x0` up to column `x1` and from row `y0` up to row
/// `y1` of a picture that is `w` pixels wide.
pub fn fill_pixels(
    col: [u8; 4],
    x0: usize,
    y0: usize,
    x1: usize,
    y1: usize,
    w: usize,
    pix: &mut [u8],
)
    requires
        area_fits(x0 as int, y0 as int, x1 as int, y1 as int, w as int, old(pix)@.len()),
    ensures
        final(pix)@ == filled(
            col@,
            x0 as int,
            y0 as int,
            x1 as int,
            y1 as int,
            w as int,
            old(pix)@,
        ),
        final(pix)@.len() == old(pix)@.len(),
        0 < w && x1 <= w ==> forall|b: int|
            0 <= b < old(pix)@.len() ==> (#[trigger] final(pix)@[b]) == if x0 <= (b / 4) % (w as int)
                < x1 && y0 <= (b / 4) / (w as int) < y1 {
                col@[b % 4]
            } else {
                old(pix)@[b]
            },
{
    proof {
        if 0 < w && x1 <= w {
            assert forall|b: int| 0 <= b < pix@.len() implies filled(
                col@,
                x0 as int,
                y0 as int,
                x1 as int,
                y1 as int,
                w as int,
                pix@,
            )[b] == if x0 <= (b / 4) % (w as int) < x1 && y0 <= (b / 4) / (w as int) < y1 {
                col@[b % 4]
            } else {
                pix@[b]
            } by {
                law_filled_pixel_by_pixel(
                    col@,
                    x0 as int,
                    y0 as int,
                    x1 as int,
                    y1 as int,
                    w as int,
                    pix@,
                    b,
                );
            }
        }
    }
    if x0 >= x1 || y0 >= y1 {
        assert(pix@ =~= filled(
            col@,
            x0 as int,
            y0 as int,
            x1 as int,
            y1 as int,
            w as int,
            pix@,
        ));
        return;
    }
    let ghost before = pix@;
    let n: usize = pix.len();
    let mut y: usize = y0;
    while y < y1
        invariant
            x0 < x1,
            y0 <= y <= y1,
            n == before.len(),
            n == pix@.len(),
            area_fits(x0 as int, y0 as int, x1 as int, y1 as int, w as int, n as nat),
            forall|b: int|
                0 <= b < n ==> (#[trigger] pix@[b]) == if in_area(
                    x0 as int,
                    y0 as int,
                    x1 as int,
                    y as int,
                    w as int,
                    b,
                ) {
                    col@[b % 4]
                } else {
                    before[b]
                },
        decreases y1 - y,
    {
        let mut x: usize = x0;
        while x < x1
            invariant
                y0 <= y < y1,
                x0 <= x <= x1,
                n == before.len(),
                n == pix@.len(),
                area_fits(x0 as int, y0 as int, x1 as int, y1 as int, w as int, n as nat),
                forall|b: int|
                    0 <= b < n ==> (#[trigger] pix@[b]) == if in_area(
                        x0 as int,
                        y0 as int,
                        x1 as int,
                        y as int,
                        w as int,
                        b,
                    ) || in_area(x0 as int, y as int, x as int, y + 1, w as int, b) {
                        col@[b % 4]
                    } else {
                        before[b]
                    },
            decreases x1 - x,
        {
            let ghost at = pixel_at(w as int, x as int, y as int);
            let ghost line = pix@;
            assert(0 <= w * y && at + 4 <= n) by {
                assert(w * y >= 0) by (nonlinear_arith);
            }
            let i: usize = 4 * (x + w * y);
            pix[i] = col[0];
            pix[i + 1] = col[1];
            pix[i + 2] = col[2];
            pix[i + 3] = col[3];
            proof {
                assert forall|b: int| 0 <= b < n implies (#[trigger] pix@[b]) == if in_area(
                    x0 as int,
                    y0 as int,
                    x1 as int,
                    y as int,
                    w as int,
                    b,
                ) || in_area(x0 as int, y as int, x + 1, y + 1, w as int, b) {
                    col@[b % 4]
                } else {
                    before[b]
                } by {
                    lemma_next_pixel(x0 as int, x as int, y as int, w as int, b);
                    if at <= b < at + 4 {
                        assert(b % 4 == b - at);
                    } else {
                        assert(pix@[b] == line[b]);
                    }
                }
            }
            x = x + 1;
        }
        proof {
            assert forall|b: int| 0 <= b < n implies (#[trigger] pix@[b]) == if in_area(
                x0 as int,
                y0 as int,
                x1 as int,
                y + 1,
                w as int,
                b,
            ) {
                col@[b % 4]
            } else {
                before[b]
            } by {
                lemma_next_line(x0 as int, y0 as int, x1 as int, y as int, w as int, b);
            }
        }
        y = y + 1;
    }
    assert(pix@ =~= filled(
        col@,
        x0 as int,
        y0 as int,
        x1 as int,
        y1 as int,
        w as int,
        before,
    ));
}

/// The pixels from column `x0` up to column `x1` and from row `y0` up to row `y1`.
#[derive(Debug, Clone, Copy)]
pub struct Area {
    pub x0: usize,
    pub y0: usize,
    pub x1: usize,
    pub y1: usize,
}

impl Area {
    /// Byte `b` of a picture that is `w` pixels wide belongs to the area.
    pub open spec fn holds(self, w: int, b: int) -> bool {
        in_area(self.x0 as int, self.y0 as int, self.x1 as int, self.y1 as int, w, b)
    }

    /// The area lies in the first `len` bytes of a picture `w` pixels wide.
    pub open spec fn fits(self, w: int, len: nat) -> bool {
        area_fits(self.x0 as int, self.y0 as int, self.x1 as int, self.y1 as int, w, len)
    }

    /// Tells whether the area lies in the first `len` bytes of a picture `w`
    /// pixels wide.
    pub fn fits_in(&self, w: usize, len: usize) -> (fits: bool)
        ensures
            fits == self.fits(w as int, len as nat),
    {
        if self.x0 >= self.x1 || self.y0 >= self.y1 {
            return true;
        }
        let x: usize = self.x1 - 1;
        let y: usize = self.y1 - 1;
        let ghost last = pixel_at(w as int, x as int, y as int);
        proof {
            assert forall|a: int, b: int|
                self.x0 <= a < self.x1 && self.y0 <= b < self.y1 implies #[trigger] pixel_at(
                w as int,
                a,
                b,
            ) <= last by {
                assert(w * b <= w * y) by (nonlinear_arith)
                    requires
                        0 <= b <= y,
                        0 <= w,
                ;
            }
            assert(self.fits(w as int, len as nat) <==> last + 4 <= len);
            assert(w * y >= 0) by (nonlinear_arith)
                requires
                    0 <= y,
                    0 <= w,
            ;
        }
        match w.checked_mul(y) {
            None => false,
            Some(before) => {
                let room: usize = len / 4;
                before < room && x < room - before
            },
        }
    }
}

/// Byte `b` belongs to one of the first `n` areas that is marked as a file.
pub open spec fn in_leaf(areas: Seq<Area>, leaf: Seq<bool>, n: int, w: int, b: int) -> bool {
    exists|k: int|
        0 <= k < n && k < areas.len() && k < leaf.len() && leaf[k] && (#[trigger] areas[k]).holds(w, b)
}

/// Draws the areas of the files in one colour.
pub fn draw_leaves(col: [u8; 4], areas: &[Area], leaf: &[bool], w: usize, pix: &mut [u8])
    requires
        forall|k: int|
            0 <= k < areas@.len() && k < leaf@.len() && leaf@[k] ==> (#[trigger] areas@[k]).fits(
                w as int,
                old(pix)@.len(),
            ),
    ensures
        final(pix)@.len() == old(pix)@.len(),
        forall|b: int|
            0 <= b < old(pix)@.len() ==> (#[trigger] final(pix)@[b]) == if in_leaf(
                areas@,
                leaf@,
                areas@.len() as int,
                w as int,
                b,
            ) {
                col@[b % 4]
            } else {
                old(pix)@[b]
            },
{
    let ghost before = pix@;
    let mut k: usize = 0;
    while k < areas.len() && k < leaf.len()
        invariant
            k <= areas@.len(),
            k <= leaf@.len(),
            pix@.len() == before.len(),
            forall|j: int|
                0 <= j < areas@.len() && j < leaf@.len() && leaf@[j] ==> (#[trigger] areas@[j]).fits(
                    w as int,
                    before.len(),
                ),
            forall|b: int|
                0 <= b < before.len() ==> (#[trigger] pix@[b]) == if in_leaf(
                    areas@,
                    leaf@,
                    k as int,
                    w as int,
                    b,
                ) {
                    col@[b % 4]
                } else {
                    before[b]
                },
        decreases areas@.len() - k,
    {
        let ghost so_far = pix@;
        if leaf[k] {
            let area = areas[k];
            assert(areas@[k as int].fits(w as int, before.len()));
            fill_pixels(col, area.x0, area.y0, area.x1, area.y1, w, pix);
        }
        proof {
            assert forall|b: int| 0 <= b < before.len() implies (#[trigger] pix@[b]) == if in_leaf(
                areas@,
                leaf@,
                k + 1,
                w as int,
                b,
            ) {
                col@[b % 4]
            } else {
                before[b]
            } by {
                assert(so_far[b] == if in_leaf(areas@, leaf@, k as int, w as int, b) {
                    col@[b % 4]
                } else {
                    before[b]
                });
                let here = leaf@[k as int] && areas@[k as int].holds(w as int, b);
                assert(in_leaf(areas@, leaf@, k + 1, w as int, b) <==> in_leaf(
                    areas@,
                    leaf@,
                    k as int,
                    w as int,
                    b,
                ) || here);
            }
        }
        k = k + 1;
    }
    proof {
        assert forall|b: int| in_leaf(areas@, leaf@, areas@.len() as int, w as int, b) <==> #[trigger] in_leaf(
            areas@,
            leaf@,
            k as int,
            w as int,
            b,
        ) by {}
    }
}

proof fn lemma_times_paired(e: Seq<EntryModel>, i: usize, t: usize, h: nat)
    ensures
        times(layout_steps(e, i, h), LayoutStep::Enter(t)) == times(
            layout_steps(e, i, h),
            LayoutStep::Place(t),
        ) + if i == t {
            1int
        } else {
            0
        },
    decreases h, 0nat,
{
    let none = |k: int| 0nat;
    let enter = seq![LayoutStep::Enter(i)];
    let shares = if h > 0 {
        share_steps(e, by_size(e, e[i as int].children), (h - 1) as nat)
    } else {
        Seq::empty()
    };
    let leave = seq![LayoutStep::Leave];
    let (a, b) = (LayoutStep::Enter(t), LayoutStep::Place(t));
    lemma_times_add(enter + shares, leave, a);
    lemma_times_add(enter, shares, a);
    lemma_times_add(enter + shares, leave, b);
    lemma_times_add(enter, shares, b);
    lemma_single_step(LayoutStep::Enter(i), a, none);
    lemma_single_step(LayoutStep::Enter(i), b, none);
    lemma_single_step(LayoutStep::Leave, a, none);
    lemma_single_step(LayoutStep::Leave, b, none);
    if h > 0 {
        lemma_share_times_paired(e, by_size(e, e[i as int].children), t, (h - 1) as nat);
    }
}

proof fn lemma_share_times_paired(e: Seq<EntryModel>, list: Seq<usize>, t: usize, h: nat)
    ensures
        times(share_steps(e, list, h), LayoutStep::Enter(t)) == times(
            share_steps(e, list, h),
            LayoutStep::Place(t),
        ),
    decreases h, list.len(),
{
    if list.len() > 0 {
        let none = |k: int| 0nat;
        let c = list.last();
        let front = share_steps(e, list.drop_last(), h);
        let place = seq![LayoutStep::Place(c)];
        let own = layout_steps(e, c, h);
        let (a, b) = (LayoutStep::Enter(t), LayoutStep::Place(t));
        lemma_times_paired(e, c, t, h);
        lemma_share_times_paired(e, list.drop_last(), t, h);
        lemma_times_add(front + place, own, a);
        lemma_times_add(front, place, a);
        lemma_times_add(front + place, own, b);
        lemma_times_add(front, place, b);
        lemma_single_step(LayoutStep::Place(c), a, none);
        lemma_single_step(LayoutStep::Place(c), b, none);
    }
}

/// In the treemap of a tree every entry but the first gets a share, exactly once.
pub proof fn law_every_entry_has_one_share(entries: Seq<EntryModel>, t: usize, h: nat)
    requires
        is_tree(entries),
        t < entries.len(),
        ends_within(kids(entries), 0, h),
    ensures
        times(layout_steps(entries, 0, h), LayoutStep::Place(t)) == if t == 0 {
            0nat
        } else {
            1nat
        },
{
    law_every_entry_has_one_turn(entries, t, h);
    lemma_times_paired(entries, 0, t, h);
}

/// The entries whose turn is not over after these steps, the latest last.
pub open spec fn open_turns(steps: Seq<LayoutStep>) -> Seq<usize>
    decreases steps.len(),
{
    if steps.len() == 0 {
        Seq::empty()
    } else {
        let before = open_turns(steps.drop_last());
        match steps.last() {
            LayoutStep::Enter(i) => before.push(i),
            LayoutStep::Place(_) => before,
            LayoutStep::Leave => before.drop_last(),
        }
    }
}

/// After `prefix`, these steps give shares in the turn of the parent only.
spec fn nested(e: Seq<EntryModel>, prefix: Seq<LayoutStep>, steps: Seq<LayoutStep>) -> bool {
    forall|k: int|
        0 <= k < steps.len() ==> match #[trigger] steps[k] {
            LayoutStep::Place(c) => {
                let open = open_turns(prefix + steps.take(k));
                open.len() > 0 && open.last() == e[c as int].parent
            },
            _ => true,
        }
}

proof fn lemma_open_push(steps: Seq<LayoutStep>, step: LayoutStep)
    ensures
        open_turns(steps + seq![step]) == match step {
            LayoutStep::Enter(i) => open_turns(steps).push(i),
            LayoutStep::Place(_) => open_turns(steps),
            LayoutStep::Leave => open_turns(steps).drop_last(),
        },
{
    let more = steps + seq![step];
    assert(more.drop_last() =~= steps);
    assert(more.last() == step);
}

proof fn lemma_nested_add(
    e: Seq<EntryModel>,
    prefix: Seq<LayoutStep>,
    a: Seq<LayoutStep>,
    b: Seq<LayoutStep>,
)
    requires
        nested(e, prefix, a),
        nested(e, prefix + a, b),
    ensures
        nested(e, prefix, a + b),
{
    assert forall|k: int| 0 <= k < (a + b).len() implies match #[trigger] (a + b)[k] {
        LayoutStep::Place(c) => {
            let open = open_turns(prefix + (a + b).take(k));
            open.len() > 0 && open.last() == e[c as int].parent
        },
        _ => true,
    } by {
        if k < a.len() {
            assert((a + b)[k] == a[k]);
            assert((a + b).take(k) =~= a.take(k));
        } else {
            let q = k - a.len();
            assert((a + b)[k] == b[q]);
            assert(prefix + (a + b).take(k) =~= (prefix + a) + b.take(q));
        }
    }
}

proof fn lemma_nested_one(e: Seq<EntryModel>, prefix: Seq<LayoutStep>, step: LayoutStep)
    requires
        step matches LayoutStep::Place(c) ==> open_turns(prefix).len() > 0 && open_turns(
            prefix,
        ).last() == e[c as int].parent,
    ensures
        nested(e, prefix, seq![step]),
{
    let one = seq![step];
    assert(prefix + one.take(0) =~= prefix);
}

proof fn lemma_layout_nested(e: Seq<EntryModel>, i: usize, h: nat, prefix: Seq<LayoutStep>)
    requires
        is_tree(e),
        i < e.len(),
        ends_within(kids(e), i as int, h),
    ensures
        nested(e, prefix, layout_steps(e, i, h)),
        open_turns(prefix + layout_steps(e, i, h)) == open_turns(prefix),
    decreases h, 0nat,
{
    let list = e[i as int].children;
    let sorted = by_size(e, list);
    let enter = seq![LayoutStep::Enter(i)];
    let shares = if h > 0 {
        share_steps(e, sorted, (h - 1) as nat)
    } else {
        Seq::empty()
    };
    let leave = seq![LayoutStep::Leave];
    assert(kids(e)[i as int] == list);
    lemma_tree_few_children(e, i as int);
    law_by_size(e, list);
    lemma_open_push(prefix, LayoutStep::Enter(i));
    lemma_nested_one(e, prefix, LayoutStep::Enter(i));
    let inside = prefix + enter;
    if h > 0 {
        lemma_sorted_are_children(e, i as int);
        assert forall|k: int| 0 <= k < sorted.len() implies (#[trigger] sorted[k]) < e.len()
            && e[sorted[k] as int].parent == i && ends_within(
            kids(e),
            sorted[k] as int,
            (h - 1) as nat,
        ) by {
            assert(sorted.contains(sorted[k]));
            assert(parents(e)[sorted[k] as int] == i);
            let q = choose|q: int| 0 <= q < list.len() && list[q] == sorted[k];
            assert(kids(e)[i as int][q] == sorted[k]);
        }
        lemma_shares_nested(e, i, sorted, (h - 1) as nat, inside);
    } else {
        assert(inside + shares =~= inside);
    }
    lemma_nested_add(e, prefix, enter, shares);
    lemma_open_push(inside + shares, LayoutStep::Leave);
    lemma_nested_one(e, inside + shares, LayoutStep::Leave);
    assert(prefix + (enter + shares) =~= inside + shares);
    lemma_nested_add(e, prefix, enter + shares, leave);
    assert(prefix + layout_steps(e, i, h) =~= (inside + shares) + leave);
    assert(open_turns(prefix).push(i).drop_last() =~= open_turns(prefix));
}

proof fn lemma_shares_nested(
    e: Seq<EntryModel>,
    i: usize,
    list: Seq<usize>,
    h: nat,
    prefix: Seq<LayoutStep>,
)
    requires
        is_tree(e),
        forall|k: int|
            0 <= k < list.len() ==> (#[trigger] list[k]) < e.len() && e[list[k] as int].parent == i
                && ends_within(kids(e), list[k] as int, h),
        open_turns(prefix).len() > 0,
        open_turns(prefix).last() == i,
    ensures
        nested(e, prefix, share_steps(e, list, h)),
        open_turns(prefix + share_steps(e, list, h)) == open_turns(prefix),
    decreases h, list.len(),
{
    if list.len() == 0 {
        assert(prefix + share_steps(e, list, h) =~= prefix);
    } else {
        let c = list[list.len() - 1];
        let front = share_steps(e, list.drop_last(), h);
        let place = seq![LayoutStep::Place(c)];
        let own = layout_steps(e, c, h);
        lemma_shares_nested(e, i, list.drop_last(), h, prefix);
        lemma_open_push(prefix + front, LayoutStep::Place(c));
        lemma_nested_one(e, prefix + front, LayoutStep::Place(c));
        lemma_nested_add(e, prefix, front, place);
        lemma_layout_nested(e, c, h, prefix + front + place);
        assert(prefix + (front + place) =~= prefix + front + place);
        lemma_nested_add(e, prefix, front + place, own);
        assert(prefix + share_steps(e, list, h) =~= (prefix + front + place) + own);
    }
}

/// In the treemap of a tree every entry gets its share in the turn of the directory
/// that holds it, and at the end no turn is open.
pub proof fn law_shares_are_in_the_turn_of_the_parent(e: Seq<EntryModel>, h: nat, k: int)
    requires
        is_tree(e),
        ends_within(kids(e), 0, h),
        0 <= k < layout_steps(e, 0, h).len(),
    ensures
        open_turns(layout_steps(e, 0, h)).len() == 0,
        layout_steps(e, 0, h)[k] matches LayoutStep::Place(c) ==> {
            let open = open_turns(layout_steps(e, 0, h).take(k));
            open.len() > 0 && open.last() == e[c as int].parent
        },
{
    let none = Seq::<LayoutStep>::empty();
    let steps = layout_steps(e, 0, h);
    lemma_layout_nested(e, 0, h, none);
    assert(none + steps =~= steps);
    assert(none + steps.take(k) =~= steps.take(k));
}

/// Siblings get their shares smallest first.
spec fn siblings_in_order(e: Seq<EntryModel>, steps: Seq<LayoutStep>) -> bool {
    forall|k: int, l: int|
        0 <= k < l < steps.len() ==> match ((#[trigger] steps[k]), (#[trigger] steps[l])) {
            (LayoutStep::Place(a), LayoutStep::Place(b)) => e[a as int].parent
                == e[b as int].parent ==> e[a as int].size <= e[b as int].size,
            _ => true,
        }
}

/// Whatever gets a share in these steps has its parent at or below `i`.
spec fn shares_below(e: Seq<EntryModel>, steps: Seq<LayoutStep>, i: int) -> bool {
    forall|k: int|
        0 <= k < steps.len() ==> match #[trigger] steps[k] {
            LayoutStep::Place(c) => is_above(parents(e), e[c as int].parent as int, i),
            _ => true,
        }
}

/// Whatever gets a share in these steps is in the list, or has its parent at or below
/// an entry of it.
spec fn shares_from(e: Seq<EntryModel>, steps: Seq<LayoutStep>, list: Seq<usize>) -> bool {
    forall|k: int|
        0 <= k < steps.len() ==> match #[trigger] steps[k] {
            LayoutStep::Place(c) => list.contains(c) || exists|q: int|
                0 <= q < list.len() && is_above(
                    parents(e),
                    e[c as int].parent as int,
                    (#[trigger] list[q]) as int,
                ),
            _ => true,
        }
}

proof fn lemma_layout_in_order(e: Seq<EntryModel>, i: usize, h: nat)
    requires
        is_tree(e),
        i < e.len(),
        ends_within(kids(e), i as int, h),
    ensures
        siblings_in_order(e, layout_steps(e, i, h)),
        shares_below(e, layout_steps(e, i, h), i as int),
    decreases h, 0nat,
{
    let ps = parents(e);
    let list = e[i as int].children;
    let sorted = by_size(e, list);
    let steps = layout_steps(e, i, h);
    let shares = if h > 0 {
        share_steps(e, sorted, (h - 1) as nat)
    } else {
        Seq::empty()
    };
    assert(kids(e)[i as int] == list);
    lemma_tree_few_children(e, i as int);
    law_by_size(e, list);
    lemma_sorted_are_children(e, i as int);
    assert(climb(ps, i as int, 0) == i);
    if h > 0 {
        assert forall|k: int| 0 <= k < sorted.len() implies (#[trigger] sorted[k]) < e.len()
            && e[sorted[k] as int].parent == i && ends_within(
            kids(e),
            sorted[k] as int,
            (h - 1) as nat,
        ) by {
            assert(sorted.contains(sorted[k]));
            assert(ps[sorted[k] as int] == i);
            let q = choose|q: int| 0 <= q < list.len() && list[q] == sorted[k];
            assert(kids(e)[i as int][q] == sorted[k]);
        }
        lemma_shares_in_order(e, i, sorted, (h - 1) as nat);
        assert forall|k: int| 0 <= k < shares.len() implies match #[trigger] shares[k] {
            LayoutStep::Place(c) => is_above(ps, e[c as int].parent as int, i as int),
            _ => true,
        } by {
            if let LayoutStep::Place(c) = shares[k] {
                if sorted.contains(c) {
                    let q = choose|q: int| 0 <= q < sorted.len() && sorted[q] == c;
                    assert(e[sorted[q] as int].parent == i);
                } else {
                    let q = choose|q: int|
                        0 <= q < sorted.len() && is_above(
                            ps,
                            e[c as int].parent as int,
                            (#[trigger] sorted[q]) as int,
                        );
                    law_way_up(ps, sorted[q] as int, i as int);
                    law_way_up(ps, i as int, i as int);
                    lemma_above_chain(ps, e[c as int].parent as int, sorted[q] as int, i as int);
                }
            }
        }
    }
    assert(steps =~= seq![LayoutStep::Enter(i)] + shares + seq![LayoutStep::Leave]);
    assert forall|k: int| 1 <= k <= shares.len() implies #[trigger] steps[k] == shares[k - 1] by {}
    assert forall|k: int, l: int| 0 <= k < l < steps.len() implies match (
        (#[trigger] steps[k]),
        (#[trigger] steps[l]),
    ) {
        (LayoutStep::Place(a), LayoutStep::Place(b)) => e[a as int].parent == e[b as int].parent
            ==> e[a as int].size <= e[b as int].size,
        _ => true,
    } by {
        if 1 <= k && l <= shares.len() {
            assert(steps[k] == shares[k - 1]);
            assert(steps[l] == shares[l - 1]);
        }
    }
    assert forall|k: int| 0 <= k < steps.len() implies match #[trigger] steps[k] {
        LayoutStep::Place(c) => is_above(ps, e[c as int].parent as int, i as int),
        _ => true,
    } by {
        if 1 <= k <= shares.len() {
            assert(steps[k] == shares[k - 1]);
        }
    }
}

#[verifier::spinoff_prover]
proof fn lemma_shares_in_order(e: Seq<EntryModel>, i: usize, list: Seq<usize>, h: nat)
    requires
        is_tree(e),
        i < e.len(),
        list.no_duplicates(),
        forall|k: int|
            0 <= k < list.len() ==> (#[trigger] list[k]) < e.len() && e[list[k] as int].parent == i
                && ends_within(kids(e), list[k] as int, h),
        forall|a: int, b: int|
            0 <= a < b < list.len() ==> e[(#[trigger] list[a]) as int].size <= e[(
            #[trigger] list[b]) as int].size,
    ensures
        siblings_in_order(e, share_steps(e, list, h)),
        shares_from(e, share_steps(e, list, h), list),
    decreases h, list.len(),
{
    if list.len() > 0 {
        let ps = parents(e);
        let n = list.len() - 1;
        let c = list[n];
        let rest = list.drop_last();
        let front = share_steps(e, rest, h);
        let own = layout_steps(e, c, h);
        let steps = share_steps(e, list, h);
        let m = front.len() as int;
        assert forall|k: int| 0 <= k < rest.len() implies #[trigger] rest[k] == list[k] by {}
        lemma_shares_in_order(e, i, rest, h);
        lemma_layout_in_order(e, c, h);
        law_tree_climbs_end(e, i as int);
        assert(steps =~= front + seq![LayoutStep::Place(c)] + own);
        assert forall|k: int| 0 <= k < m implies #[trigger] steps[k] == front[k] by {}
        assert(steps[m] == LayoutStep::Place(c));
        assert forall|k: int| m < k < steps.len() implies #[trigger] steps[k] == own[k - m - 1] by {}
        assert(!is_above(ps, i as int, c as int)) by {
            lemma_not_below_child(ps, i as int, c as int);
        }
        // what comes before has its parent at `i` or below an earlier entry
        assert forall|k: int| 0 <= k < m implies match #[trigger] front[k] {
            LayoutStep::Place(a) => (rest.contains(a) && e[a as int].parent == i) || !is_above(
                ps,
                e[a as int].parent as int,
                c as int,
            ) && e[a as int].parent != i,
            _ => true,
        } by {
            if let LayoutStep::Place(a) = front[k] {
                if rest.contains(a) {
                    let q = choose|q: int| 0 <= q < rest.len() && rest[q] == a;
                    assert(list[q] == a);
                } else {
                    let q = choose|q: int|
                        0 <= q < rest.len() && is_above(
                            ps,
                            e[a as int].parent as int,
                            (#[trigger] rest[q]) as int,
                        );
                    let s = list[q] as int;
                    assert(rest[q] == list[q]);
                    assert(ps[s] == i && ps[c as int] == i);
                    assert(s != c);
                    lemma_children_apart(ps, i as int, s, c as int, e[a as int].parent as int);
                    lemma_not_below_child(ps, i as int, s);
                }
            }
        }
        assert forall|k: int, l: int| 0 <= k < l < steps.len() implies match (
            (#[trigger] steps[k]),
            (#[trigger] steps[l]),
        ) {
            (LayoutStep::Place(a), LayoutStep::Place(b)) => e[a as int].parent
                == e[b as int].parent ==> e[a as int].size <= e[b as int].size,
            _ => true,
        } by {
            if l < m {
                assert(steps[k] == front[k] && steps[l] == front[l]);
            } else if l == m {
                assert(steps[k] == front[k]);
                if let LayoutStep::Place(a) = front[k] {
                    if rest.contains(a) {
                        let q = choose|q: int| 0 <= q < rest.len() && rest[q] == a;
                        assert(list[q] == a);
                        assert(e[list[q] as int].size <= e[list[n] as int].size);
                    }
                }
            } else {
                assert(steps[l] == own[l - m - 1]);
                if k > m {
                    assert(steps[k] == own[k - m - 1]);
                } else if k < m {
                    assert(steps[k] == front[k]);
                }
            }
        }
        assert forall|k: int| 0 <= k < steps.len() implies match #[trigger] steps[k] {
            LayoutStep::Place(a) => list.contains(a) || exists|q: int|
                0 <= q < list.len() && is_above(
                    ps,
                    e[a as int].parent as int,
                    (#[trigger] list[q]) as int,
                ),
            _ => true,
        } by {
            if let LayoutStep::Place(a) = steps[k] {
                if k < m {
                    assert(front[k] == LayoutStep::Place(a));
                    if rest.contains(a) {
                        let q = choose|q: int| 0 <= q < rest.len() && rest[q] == a;
                        assert(list[q] == a);
                    } else {
                        let q = choose|q: int|
                            0 <= q < rest.len() && is_above(
                                ps,
                                e[a as int].parent as int,
                                (#[trigger] rest[q]) as int,
                            );
                        assert(is_above(ps, e[a as int].parent as int, list[q] as int));
                    }
                } else if k == m {
                    assert(list[n] == a);
                } else {
                    assert(own[k - m - 1] == LayoutStep::Place(a));
                    assert(is_above(ps, e[a as int].parent as int, list[n] as int));
                }
            }
        }
    }
}

/// In the treemap of a tree the entries of one directory get their shares smallest
/// first.
pub proof fn law_smallest_share_first(e: Seq<EntryModel>, h: nat, k: int, l: int, a: usize, b: usize)
    requires
        is_tree(e),
        ends_within(kids(e), 0, h),
        0 <= k < l < layout_steps(e, 0, h).len(),
        layout_steps(e, 0, h)[k] == LayoutStep::Place(a),
        layout_steps(e, 0, h)[l] == LayoutStep::Place(b),
        e[a as int].parent == e[b as int].parent,
    ensures
        e[a as int].size <= e[b as int].size,
{
    lemma_layout_in_order(e, 0, h);
    let steps = layout_steps(e, 0, h);
    assert(siblings_in_order(e, steps));
}

/// In a picture `w` pixels wide, with no area reaching past its right edge, a byte has
/// the colour if its column and its row are in the area, and is as it was if not.
pub proof fn law_filled_pixel_by_pixel(
    col: Seq<u8>,
    x0: int,
    y0: int,
    x1: int,
    y1: int,
    w: int,
    pix: Seq<u8>,
    b: int,
)
    requires
        0 <= x0,
        0 <= y0,
        0 < w,
        x1 <= w,
        0 <= b < pix.len(),
    ensures
        filled(col, x0, y0, x1, y1, w, pix)[b] == if x0 <= (b / 4) % w < x1 && y0 <= (b / 4) / w < y1 {
            col[b % 4]
        } else {
            pix[b]
        },
{
    let n = b / 4;
    let x = n % w;
    let y = n / w;
    lemma_fundamental_div_mod(n, w);
    lemma_mod_bound(n, w);
    assert(n == w * y + x);
    assert(4 * n <= b < 4 * n + 4);
    if x0 <= x < x1 && y0 <= y < y1 {
        assert(pixel_at(w, x, y) == 4 * n);
        assert(in_area(x0, y0, x1, y1, w, b));
    }
    if in_area(x0, y0, x1, y1, w, b) {
        let (p, q) = choose|p: int, q: int|
            x0 <= p < x1 && y0 <= q < y1 && #[trigger] pixel_at(w, p, q) <= b < pixel_at(w, p, q) + 4;
        assert(p + w * q == n);
        assert(p == x && q == y) by (nonlinear_arith)
            requires
                p + w * q == w * y + x,
                0 <= p < w,
                0 <= x < w,
        ;
    }
}

/// An area that lies within the width and the height of a picture lies in its bytes.
pub proof fn law_area_in_picture(x0: int, y0: int, x1: int, y1: int, w: int, h: int, len: nat)
    requires
        0 <= x0,
        0 <= y0,
        x1 <= w,
        y1 <= h,
        4 * (w * h) <= len,
    ensures
        area_fits(x0, y0, x1, y1, w, len),
{
    assert forall|x: int, y: int| x0 <= x < x1 && y0 <= y < y1 implies #[trigger] pixel_at(w, x, y)
        + 4 <= len by {
        assert(x + w * y + 1 <= w * h) by (nonlinear_arith)
            requires
                0 <= x < w,
                0 <= y < h,
        ;
    }
}

/// A byte belongs to a file if its column and its row are in one of the areas that are
/// marked as files, none of which reaches past the right edge of the picture.
pub proof fn law_in_leaf(areas: Seq<Area>, leaf: Seq<bool>, w: int, b: int)
    requires
        0 < w,
        0 <= b,
        forall|k: int| 0 <= k < areas.len() ==> (#[trigger] areas[k]).x1 <= w,
    ensures
        in_leaf(areas, leaf, areas.len() as int, w, b) <==> exists|k: int|
            0 <= k < areas.len() && k < leaf.len() && leaf[k] && (#[trigger] areas[k]).x0 <= (b / 4) % w
                < areas[k].x1 && areas[k].y0 <= (b / 4) / w < areas[k].y1,
{
    let pix = Seq::new((b + 1) as nat, |k: int| 0u8);
    let col = seq![1u8, 1u8, 1u8, 1u8];
    assert forall|k: int| 0 <= k < areas.len() implies ((#[trigger] areas[k]).holds(w, b)
        <==> areas[k].x0 <= (b / 4) % w < areas[k].x1 && areas[k].y0 <= (b / 4) / w
        < areas[k].y1) by {
        let a = areas[k];
        law_filled_pixel_by_pixel(
            col,
            a.x0 as int,
            a.y0 as int,
            a.x1 as int,
            a.y1 as int,
            w,
            pix,
            b,
        );
        assert(col[b % 4] == 1);
    }
}

/// Every pixel of the area has the colour, and bytes before its first and after its
/// last pixel are as they were, also where it reaches past the right edge.
pub proof fn law_area_is_filled(
    col: Seq<u8>,
    x0: int,
    y0: int,
    x1: int,
    y1: int,
    w: int,
    pix: Seq<u8>,
    x: int,
    y: int,
    c: int,
)
    requires
        0 <= x0 <= x < x1,
        0 <= y0 <= y < y1,
        0 <= w,
        0 <= c < 4,
        4 * (x + w * y) + 4 <= pix.len(),
    ensures
        filled(col, x0, y0, x1, y1, w, pix).len() == pix.len(),
        filled(col, x0, y0, x1, y1, w, pix)[4 * (x + w * y) + c] == col[c],
        forall|b: int|
            0 <= b < pix.len() && (b < 4 * (x0 + w * y0) || b >= 4 * (x1 + w * (y1 - 1)))
                ==> #[trigger] filled(col, x0, y0, x1, y1, w, pix)[b] == pix[b],
{
    let b = 4 * (x + w * y) + c;
    assert(w * y >= 0) by (nonlinear_arith)
        requires
            0 <= w,
            0 <= y,
    ;
    assert(pixel_at(w, x, y) <= b < pixel_at(w, x, y) + 4);
    assert(in_area(x0, y0, x1, y1, w, b));
    assert(b % 4 == c);
    assert forall|b: int|
        0 <= b < pix.len() && (b < 4 * (x0 + w * y0) || b >= 4 * (x1 + w * (y1
            - 1))) implies #[trigger] filled(col, x0, y0, x1, y1, w, pix)[b] == pix[b] by {
        if in_area(x0, y0, x1, y1, w, b) {
            let (p, q) = choose|p: int, q: int|
                x0 <= p < x1 && y0 <= q < y1 && #[trigger] pixel_at(w, p, q) <= b < pixel_at(w, p, q)
                    + 4;
            assert(w * y0 <= w * q <= w * (y1 - 1)) by (nonlinear_arith)
                requires
                    0 <= w,
                    y0 <= q <= y1 - 1,
            ;
        }
    }
}

} // verus!
