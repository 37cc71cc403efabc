//! Telling whether every way down from an entry ends.
use vstd::prelude::*;
use crate::display::shown_kids;
use crate::entry::{kids, model, Entry, EntryModel};
use crate::shape::{ends_below, ends_within, is_below};

verus! {

/// The children that lie on ways down: all of them, or those shown below unfolded
/// entries.
pub open spec fn ways_down(e: Seq<EntryModel>, unfolded_only: bool) -> Seq<Seq<usize>> {
    if unfolded_only {
        shown_kids(e)
    } else {
        kids(e)
    }
}

/// `t` is reached by going down from `i`.
spec fn reaches(ks: Seq<Seq<usize>>, i: int, t: int) -> bool {
    exists|d: nat| is_below(ks, i, t, d)
}

/// What is known of the ways down from an entry.
#[derive(Debug, Clone, Copy, PartialEq, Eq, Structural)]
enum Mark {
    /// Nothing yet.
    Unseen,
    /// They are being looked at.
    Open,
    /// They all end.
    Ends,
}

/// The number of entries not looked at yet.
spec fn unseen(marks: Seq<Mark>) -> nat
    decreases marks.len(),
{
    if marks.len() == 0 {
        0
    } else {
        unseen(marks.drop_last()) + if marks.last() == Mark::Unseen {
            1nat
        } else {
            0nat
        }
    }
}

proof fn lemma_unseen_fewer(a: Seq<Mark>, b: Seq<Mark>)
    requires
        a.len() == b.len(),
        forall|k: int| 0 <= k < a.len() && (#[trigger] a[k]) != Mark::Unseen ==> b[k] != Mark::Unseen,
    ensures
        unseen(b) <= unseen(a),
    decreases a.len(),
{
    if a.len() > 0 {
        assert(a.last() == a[a.len() - 1]);
        lemma_unseen_fewer(a.drop_last(), b.drop_last());
    }
}

proof fn lemma_unseen_one_less(marks: Seq<Mark>, i: int)
    requires
        0 <= i < marks.len(),
        marks[i] == Mark::Unseen,
    ensures
        unseen(marks.update(i, Mark::Open)) + 1 == unseen(marks),
    decreases marks.len(),
{
    let after = marks.update(i, Mark::Open);
    if i == marks.len() - 1 {
        assert(after.drop_last() =~= marks.drop_last());
    } else {
        lemma_unseen_one_less(marks.drop_last(), i);
        assert(after.drop_last() =~= marks.drop_last().update(i, Mark::Open));
    }
}

proof fn lemma_ends_within_more(ks: Seq<Seq<usize>>, i: int, h: nat, g: nat)
    requires
        ends_within(ks, i, h),
        h <= g,
    ensures
        ends_within(ks, i, g),
    decreases h,
{
    assert forall|k: int| 0 <= k < ks[i].len() implies g > 0 && ends_within(
        ks,
        (#[trigger] ks[i][k]) as int,
        (g - 1) as nat,
    ) by {
        lemma_ends_within_more(ks, ks[i][k] as int, (h - 1) as nat, (g - 1) as nat);
    }
}

/// A number of steps within which all ways down from the first `m` children end.
proof fn lemma_common_steps(ks: Seq<Seq<usize>>, i: int, m: int) -> (h: nat)
    requires
        0 <= m <= ks[i].len(),
        forall|k: int| 0 <= k < ks[i].len() ==> ends_below(ks, (#[trigger] ks[i][k]) as int),
    ensures
        forall|k: int| 0 <= k < m ==> ends_within(ks, (#[trigger] ks[i][k]) as int, h),
    decreases m,
{
    if m == 0 {
        0
    } else {
        let g = lemma_common_steps(ks, i, m - 1);
        let c = ks[i][m - 1] as int;
        assert(ends_below(ks, c));
        let f = choose|f: nat| ends_within(ks, c, f);
        let h = if f < g {
            g
        } else {
            f
        };
        lemma_ends_within_more(ks, c, f, h);
        assert forall|k: int| 0 <= k < m implies ends_within(ks, (#[trigger] ks[i][k]) as int, h) by {
            if k < m - 1 {
                lemma_ends_within_more(ks, ks[i][k] as int, g, h);
            }
        }
        h
    }
}

/// Where the ways down from all children end, so do those from the entry.
proof fn lemma_children_end(ks: Seq<Seq<usize>>, i: int)
    requires
        0 <= i < ks.len(),
        forall|k: int| 0 <= k < ks[i].len() ==> ends_below(ks, (#[trigger] ks[i][k]) as int),
    ensures
        ends_below(ks, i),
{
    let h = lemma_common_steps(ks, i, ks[i].len() as int);
    assert(ends_within(ks, i, h + 1));
}

/// Where the ways down from an entry end, so do those from its children.
proof fn lemma_child_ends(ks: Seq<Seq<usize>>, i: int, k: int)
    requires
        ends_below(ks, i),
        0 <= k < ks[i].len(),
    ensures
        ends_below(ks, ks[i][k] as int),
        0 <= ks[i][k] < ks.len(),
{
    let h = choose|h: nat| ends_within(ks, i, h);
    assert(ends_within(ks, ks[i][k] as int, (h - 1) as nat));
}

proof fn lemma_below_child(ks: Seq<Seq<usize>>, i: int, k: int)
    requires
        0 <= i < ks.len(),
        0 <= k < ks[i].len(),
    ensures
        is_below(ks, i, ks[i][k] as int, 1),
{
    assert(is_below(ks, ks[i][k] as int, ks[i][k] as int, 0));
}

proof fn lemma_below_add(ks: Seq<Seq<usize>>, i: int, j: int, t: int, a: nat, b: nat)
    requires
        is_below(ks, i, j, a),
        is_below(ks, j, t, b),
    ensures
        is_below(ks, i, t, a + b),
    decreases a,
{
    if a > 0 {
        let k = choose|k: int|
            0 <= k < ks[i].len() && is_below(ks, (#[trigger] ks[i][k]) as int, j, (a - 1) as nat);
        lemma_below_add(ks, ks[i][k] as int, j, t, (a - 1) as nat, b);
        assert(is_below(ks, ks[i][k] as int, t, (a + b - 1) as nat));
    }
}

proof fn lemma_below_short(ks: Seq<Seq<usize>>, i: int, t: int, d: nat, h: nat)
    requires
        ends_within(ks, i, h),
        is_below(ks, i, t, d),
    ensures
        d <= h,
    decreases d,
{
    if d > 0 {
        let k = choose|k: int|
            0 <= k < ks[i].len() && is_below(ks, (#[trigger] ks[i][k]) as int, t, (d - 1) as nat);
        lemma_below_short(ks, ks[i][k] as int, t, (d - 1) as nat, (h - 1) as nat);
    }
}

proof fn lemma_round(ks: Seq<Seq<usize>>, i: int, d: nat, m: nat) -> (far: nat)
    requires
        is_below(ks, i, i, d),
        d > 0,
    ensures
        is_below(ks, i, i, far),
        far >= m,
    decreases m,
{
    if m == 0 {
        0
    } else {
        let near = lemma_round(ks, i, d, (m - 1) as nat);
        lemma_below_add(ks, i, i, i, near, d);
        near + d
    }
}

/// A way down that comes back to where it was does not end.
proof fn lemma_circle(ks: Seq<Seq<usize>>, i: int, d: nat)
    requires
        is_below(ks, i, i, d),
        d > 0,
    ensures
        !ends_below(ks, i),
{
    if ends_below(ks, i) {
        let h = choose|h: nat| ends_within(ks, i, h);
        let far = lemma_round(ks, i, d, h + 1);
        lemma_below_short(ks, i, i, far, h);
    }
}

/// Looks at the ways down from the entry with index `i`. The open marks are those
/// of the entries from which `i` was reached.
fn look_down(entries: &[Entry], unfolded_only: bool, i: usize, marks: &mut Vec<Mark>) -> (ends: bool)
    requires
        i < entries@.len(),
        old(marks)@.len() == entries@.len(),
        old(marks)@[i as int] == Mark::Unseen,
        forall|k: int|
            0 <= k < entries@.len() && (#[trigger] old(marks)@[k]) == Mark::Ends ==> ends_below(
                ways_down(model(entries@), unfolded_only),
                k,
            ),
        forall|k: int|
            0 <= k < entries@.len() && (#[trigger] old(marks)@[k]) == Mark::Open ==> reaches(
                ways_down(model(entries@), unfolded_only),
                k,
                i as int,
            ),
    ensures
        ends == ends_below(ways_down(model(entries@), unfolded_only), i as int),
        final(marks)@.len() == entries@.len(),
        ends ==> {
            &&& final(marks)@[i as int] == Mark::Ends
            &&& forall|k: int|
                0 <= k < entries@.len() && (#[trigger] old(marks)@[k]) != Mark::Unseen
                    ==> final(marks)@[k] == old(marks)@[k]
            &&& forall|k: int|
                0 <= k < entries@.len() && (#[trigger] final(marks)@[k]) == Mark::Open
                    ==> old(marks)@[k] == Mark::Open
            &&& forall|k: int|
                0 <= k < entries@.len() && (#[trigger] final(marks)@[k]) == Mark::Ends ==> ends_below(
                    ways_down(model(entries@), unfolded_only),
                    k,
                )
        },
    decreases unseen(old(marks)@),
{
    let ghost e = model(entries@);
    let ghost ks = ways_down(e, unfolded_only);
    let ghost before = marks@;
    let n: usize = entries.len();
    marks[i] = Mark::Open;
    let ghost start = marks@;
    proof {
        lemma_unseen_one_less(before, i as int);
        assert(start =~= before.update(i as int, Mark::Open));
        assert(is_below(ks, i as int, i as int, 0));
        assert(e[i as int] == entries@[i as int]@);
    }
    if !unfolded_only || entries[i].expanded {
        let count: usize = entries[i].children.len();
        let mut k: usize = 0;
        assert(ks[i as int] == e[i as int].children);
        while k < count
            invariant
                e == model(entries@),
                ks == ways_down(e, unfolded_only),
                ks.len() == n,
                n == entries@.len(),
                i < n,
                ks[i as int] == entries@[i as int].children@,
                count == ks[i as int].len(),
                k <= count,
                before == old(marks)@,
                before.len() == n,
                before[i as int] == Mark::Unseen,
                start == before.update(i as int, Mark::Open),
                unseen(start) < unseen(before),
                marks@.len() == n,
                forall|q: int|
                    0 <= q < n && (#[trigger] before[q]) == Mark::Open ==> reaches(ks, q, i as int),
                forall|q: int| 0 <= q < n && (#[trigger] start[q]) != Mark::Unseen ==> marks@[q] == start[q],
                forall|q: int| 0 <= q < n && (#[trigger] marks@[q]) == Mark::Open ==> start[q] == Mark::Open,
                forall|q: int| 0 <= q < n && (#[trigger] marks@[q]) == Mark::Ends ==> ends_below(ks, q),
                forall|j: int|
                    0 <= j < k ==> ends_below(ks, (#[trigger] ks[i as int][j]) as int),
            decreases count - k,
        {
            let c: usize = entries[i].children[k];
            proof {
                assert(c == ks[i as int][k as int]);
                if ends_below(ks, i as int) {
                    lemma_child_ends(ks, i as int, k as int);
                }
                lemma_below_child(ks, i as int, k as int);
            }
            if c >= n {
                return false;
            }
            if marks[c] == Mark::Open {
                proof {
                    assert(start[c as int] == Mark::Open);
                    assert(c == i || before[c as int] == Mark::Open);
                    if c == i {
                        lemma_circle(ks, i as int, 1);
                    } else {
                        let d = choose|d: nat| is_below(ks, c as int, i as int, d);
                        lemma_below_add(ks, i as int, c as int, i as int, 1, d);
                        lemma_circle(ks, i as int, 1 + d);
                    }
                }
                return false;
            }
            if marks[c] != Mark::Ends {
                let ghost here = marks@;
                proof {
                    lemma_unseen_fewer(start, here);
                    assert forall|q: int| 0 <= q < n && (#[trigger] here[q]) == Mark::Open implies reaches(
                        ks,
                        q,
                        c as int,
                    ) by {
                        assert(start[q] == Mark::Open);
                        let d = if q == i {
                            0nat
                        } else {
                            choose|d: nat| is_below(ks, q, i as int, d)
                        };
                        lemma_below_add(ks, q, i as int, c as int, d, 1);
                    }
                }
                if !look_down(entries, unfolded_only, c, marks) {
                    return false;
                }
                assert(marks@[c as int] == Mark::Ends);
            }
            assert(ends_below(ks, c as int));
            k = k + 1;
        }
    }
    proof {
        assert forall|j: int| 0 <= j < ks[i as int].len() implies ends_below(
            ks,
            (#[trigger] ks[i as int][j]) as int,
        ) by {}
        lemma_children_end(ks, i as int);
    }
    let ghost looked = marks@;
    marks[i] = Mark::Ends;
    proof {
        assert forall|k: int| 0 <= k < n && (#[trigger] before[k]) != Mark::Unseen implies marks@[k]
            == before[k] by {
            assert(start[k] == before[k]);
            assert(looked[k] == start[k]);
        }
        assert forall|k: int| 0 <= k < n && (#[trigger] marks@[k]) == Mark::Open implies before[k]
            == Mark::Open by {
            assert(looked[k] == Mark::Open);
            assert(start[k] == Mark::Open);
        }
    }
    true
}

/// Tells whether every way down from the entry with index 0 stays in the list and
/// ends. Only entries that are reached are looked at, each once.
pub fn all_ways_end(entries: &[Entry], unfolded_only: bool) -> (end: bool)
    ensures
        end == ends_below(ways_down(model(entries@), unfolded_only), 0),
{
    let n: usize = entries.len();
    if n == 0 {
        return false;
    }
    let mut marks: Vec<Mark> = vec![Mark::Unseen; n];
    look_down(entries, unfolded_only, 0, &mut marks)
}

/// The ways down from an entry end if and only if it is in the list and those from
/// all its children end.
pub proof fn law_ways_down_end(ks: Seq<Seq<usize>>, i: int)
    ensures
        ends_below(ks, i) <==> 0 <= i < ks.len() && forall|k: int|
            0 <= k < ks[i].len() ==> ends_below(ks, (#[trigger] ks[i][k]) as int),
{
    if ends_below(ks, i) {
        assert forall|k: int| 0 <= k < ks[i].len() implies ends_below(
            ks,
            (#[trigger] ks[i][k]) as int,
        ) by {
            lemma_child_ends(ks, i, k);
        }
        let h = choose|h: nat| ends_within(ks, i, h);
        assert(ends_within(ks, i, h));
    } else if 0 <= i < ks.len() && forall|k: int|
        0 <= k < ks[i].len() ==> ends_below(ks, (#[trigger] ks[i][k]) as int) {
        lemma_children_end(ks, i);
    }
}

/// Where a way down comes back to where it was, not every way ends.
pub proof fn law_circles_do_not_end(ks: Seq<Seq<usize>>, i: int, d: nat)
    requires
        is_below(ks, i, i, d),
        d > 0,
    ensures
        !ends_below(ks, i),
{
    lemma_circle(ks, i, d);
}

} // verus!
