//! How the entries of a list hang together.
//!
//! Upwards, an entry names its parent; downwards, it lists its children. The
//! notions here speak of the two directions separately, so that each operation
//! asks for no more than the direction it walks. [`is_tree`] is the state in
//! which a scan keeps a list: both directions agree and everything hangs from
//! the entry with index 0.
use vstd::prelude::*;
use vstd::set_lib::{lemma_int_range, lemma_len_subset, set_int_range};
use crate::entry::{model, parents, Entry, EntryModel};
use crate::order::positions;

verus! {

/// The index reached from `j` by going up `d` times. An index past the end of
/// the list has no parent and is not left again.
pub open spec fn climb(parents: Seq<usize>, j: int, d: nat) -> int
    decreases d,
{
    if d == 0 {
        j
    } else if 0 <= j < parents.len() {
        climb(parents, parents[j] as int, (d - 1) as nat)
    } else {
        j
    }
}

/// `k` is in the list, and is `j` itself or is met on the way up from `j`.
pub open spec fn is_above(parents: Seq<usize>, j: int, k: int) -> bool {
    0 <= k < parents.len() && exists|d: nat| #[trigger] climb(parents, j, d) == k
}

/// The way up from `j` ends: it leaves the list.
pub open spec fn climb_ends(parents: Seq<usize>, j: int) -> bool {
    exists|d: nat| !(0 <= #[trigger] climb(parents, j, d) < parents.len())
}

/// `k` is met within the first `t` entries of the way up that starts at `j`.
pub open spec fn met_before(parents: Seq<usize>, j: int, t: nat, k: int) -> bool {
    exists|s: nat| s < t && #[trigger] climb(parents, j, s) == k
}

/// Every way down from `i` stays in the list and ends after at most `h` steps.
pub open spec fn ends_within(kids: Seq<Seq<usize>>, i: int, h: nat) -> bool
    decreases h,
{
    &&& 0 <= i < kids.len()
    &&& forall|k: int|
        0 <= k < kids[i].len() ==> h > 0 && ends_within(
            kids,
            (#[trigger] kids[i][k]) as int,
            (h - 1) as nat,
        )
}

/// Every way down from `i` stays in the list and ends.
pub open spec fn ends_below(kids: Seq<Seq<usize>>, i: int) -> bool {
    exists|h: nat| ends_within(kids, i, h)
}

/// `t` is reached from `i` by going down `d` times.
pub open spec fn is_below(kids: Seq<Seq<usize>>, i: int, t: int, d: nat) -> bool
    decreases d,
{
    if d == 0 {
        i == t
    } else {
        &&& 0 <= i < kids.len()
        &&& exists|k: int|
            0 <= k < kids[i].len() && is_below(
                kids,
                (#[trigger] kids[i][k]) as int,
                t,
                (d - 1) as nat,
            )
    }
}

/// Tells of an entry whether `p` is its parent.
pub open spec fn has_parent(parents: Seq<usize>, p: int) -> spec_fn(usize) -> bool {
    |i: usize| parents[i as int] == p
}

/// The entries whose parent is `p`, in increasing order; the entry with index 0
/// is nobody's child.
pub open spec fn linked_children(parents: Seq<usize>, p: int) -> Seq<usize> {
    positions(1, parents.len() as int).filter(has_parent(parents, p))
}

/// The entry with index `i` lists as its children, once each, the entries whose
/// parent it is.
pub open spec fn lists_its_children(entries: Seq<EntryModel>, i: int) -> bool {
    &&& entries[i].children.no_duplicates()
    &&& forall|c: usize| #[trigger]
        entries[i].children.contains(c) <==> 1 <= c < entries.len() && entries[c as int].parent == i
}

/// The list is one tree: the entry with index 0 has no parent, every other entry
/// comes after its parent, and every entry lists its children.
pub open spec fn is_tree(entries: Seq<EntryModel>) -> bool {
    &&& 0 < entries.len() <= usize::MAX
    &&& entries[0].parent == usize::MAX
    &&& forall|i: int| 1 <= i < entries.len() ==> (#[trigger] entries[i]).parent < i
    &&& forall|i: int| 0 <= i < entries.len() ==> #[trigger] lists_its_children(entries, i)
}

pub proof fn lemma_climb_add(parents: Seq<usize>, j: int, a: nat, b: nat)
    ensures
        climb(parents, j, a + b) == climb(parents, climb(parents, j, a), b),
    decreases a,
{
    if a == 0 {
    } else if 0 <= j < parents.len() {
        lemma_climb_add(parents, parents[j] as int, (a - 1) as nat, b);
    } else {
        lemma_climb_outside(parents, j, b);
    }
}

/// One more step up.
pub proof fn lemma_climb_next(parents: Seq<usize>, j: int, d: nat)
    requires
        0 <= climb(parents, j, d) < parents.len(),
    ensures
        climb(parents, j, d + 1) == parents[climb(parents, j, d)],
{
    lemma_climb_add(parents, j, d, 1);
    reveal_with_fuel(climb, 2);
}

pub proof fn lemma_climb_outside(parents: Seq<usize>, j: int, d: nat)
    requires
        !(0 <= j < parents.len()),
    ensures
        climb(parents, j, d) == j,
{
}

/// Once outside the list, always outside.
pub proof fn lemma_climb_stays_outside(parents: Seq<usize>, j: int, a: nat, b: nat)
    requires
        a <= b,
        !(0 <= climb(parents, j, a) < parents.len()),
    ensures
        climb(parents, j, b) == climb(parents, j, a),
{
    lemma_climb_add(parents, j, a, (b - a) as nat);
    lemma_climb_outside(parents, climb(parents, j, a), (b - a) as nat);
}

/// A way up that comes back to where it was goes round for ever.
proof fn lemma_climb_period(parents: Seq<usize>, j: int, a: nat, b: nat, m: nat)
    requires
        a <= b,
        climb(parents, j, a) == climb(parents, j, b),
    ensures
        climb(parents, j, a + m * (b - a) as nat) == climb(parents, j, a),
    decreases m,
{
    if m > 0 {
        let p = (b - a) as nat;
        lemma_climb_period(parents, j, a, b, (m - 1) as nat);
        assert(a + m * p == (a + (m - 1) as nat * p) + p) by (nonlinear_arith)
            requires
                m > 0,
        ;
        lemma_climb_add(parents, j, (a + (m - 1) as nat * p) as nat, p);
        lemma_climb_add(parents, j, a, p);
    } else {
        assert(0 * (b - a) as nat == 0) by (nonlinear_arith);
    }
}

/// A way up that ends meets no entry twice.
pub proof fn lemma_climb_distinct(parents: Seq<usize>, j: int, a: nat, b: nat)
    requires
        climb_ends(parents, j),
        a < b,
        0 <= climb(parents, j, a) < parents.len(),
    ensures
        climb(parents, j, a) != climb(parents, j, b),
{
    if climb(parents, j, a) == climb(parents, j, b) {
        let d = choose|d: nat| !(0 <= #[trigger] climb(parents, j, d) < parents.len());
        lemma_climb_period(parents, j, a, b, d);
        let far = a + d * (b - a) as nat;
        assert(far >= d) by (nonlinear_arith)
            requires
                far == a + d * (b - a) as nat,
                a < b,
        ;
        lemma_climb_stays_outside(parents, j, d, far as nat);
    }
}

/// Numbers below `n`, no two of them equal, are at most `n` many.
pub proof fn lemma_distinct_bounded(s: Seq<int>, n: nat)
    requires
        s.no_duplicates(),
        forall|i: int| 0 <= i < s.len() ==> 0 <= #[trigger] s[i] < n,
    ensures
        s.len() <= n,
{
    s.unique_seq_to_set();
    lemma_int_range(0, n as int);
    assert(s.to_set().subset_of(set_int_range(0, n as int)));
    lemma_len_subset(s.to_set(), set_int_range(0, n as int));
}

/// A way up that ends has fewer steps inside the list than the list has entries.
pub proof fn lemma_climb_short(parents: Seq<usize>, j: int, d: nat)
    requires
        climb_ends(parents, j),
        0 <= climb(parents, j, d) < parents.len(),
    ensures
        d < parents.len(),
{
    let met = Seq::new(d + 1, |s: int| climb(parents, j, s as nat));
    assert forall|s: int| 0 <= s < met.len() implies 0 <= #[trigger] met[s] < parents.len() by {
        if !(0 <= met[s] < parents.len()) {
            lemma_climb_stays_outside(parents, j, s as nat, d);
        }
    }
    assert forall|s: int, t: int| 0 <= s < t < met.len() implies met[s] != met[t] by {
        assert(0 <= met[s] < parents.len());
        lemma_climb_distinct(parents, j, s as nat, t as nat);
    }
    lemma_distinct_bounded(met, parents.len());
}

/// In a tree every way up ends.
pub proof fn law_tree_climbs_end(entries: Seq<EntryModel>, j: int)
    requires
        is_tree(entries),
    ensures
        climb_ends(parents(entries), j),
    decreases j,
{
    let ps = parents(entries);
    if !(0 <= j < ps.len()) {
        assert(climb(ps, j, 0) == j);
    } else if j == 0 {
        assert(climb(ps, 0, 1) == ps[0]) by {
            reveal_with_fuel(climb, 2);
        }
    } else {
        let p = ps[j] as int;
        law_tree_climbs_end(entries, p);
        let d = choose|d: nat| !(0 <= #[trigger] climb(ps, p, d) < ps.len());
        assert(climb(ps, j, d + 1) == climb(ps, p, d));
    }
}

/// In a tree every way up arrives at the entry with index 0.
pub proof fn law_tree_hangs_from_root(entries: Seq<EntryModel>, j: int)
    requires
        is_tree(entries),
        0 <= j < entries.len(),
    ensures
        is_above(parents(entries), j, 0),
    decreases j,
{
    let ps = parents(entries);
    if j == 0 {
        assert(climb(ps, 0, 0) == 0);
    } else {
        let p = ps[j] as int;
        law_tree_hangs_from_root(entries, p);
        let d = choose|d: nat| #[trigger] climb(ps, p, d) == 0;
        assert(climb(ps, j, d + 1) == climb(ps, p, d));
    }
}

/// In a tree every way down stays in the list and ends, also when the children
/// of some entries are left out.
pub proof fn law_tree_ends_below(entries: Seq<EntryModel>, kids: Seq<Seq<usize>>, i: int)
    requires
        is_tree(entries),
        kids.len() == entries.len(),
        forall|k: int, c: usize|
            0 <= k < kids.len() && (#[trigger] kids[k].contains(c)) ==> entries[k].children.contains(
                c,
            ),
        0 <= i < entries.len(),
    ensures
        ends_below(kids, i),
{
    lemma_tree_ends_within(entries, kids, i, (entries.len() - i) as nat);
}

proof fn lemma_tree_ends_within(
    entries: Seq<EntryModel>,
    kids: Seq<Seq<usize>>,
    i: int,
    h: nat,
)
    requires
        is_tree(entries),
        kids.len() == entries.len(),
        forall|k: int, c: usize|
            0 <= k < kids.len() && (#[trigger] kids[k].contains(c)) ==> entries[k].children.contains(
                c,
            ),
        0 <= i < entries.len(),
        h >= entries.len() - i,
    ensures
        ends_within(kids, i, h),
    decreases h,
{
    assert forall|k: int| 0 <= k < kids[i].len() implies h > 0 && ends_within(
        kids,
        (#[trigger] kids[i][k]) as int,
        (h - 1) as nat,
    ) by {
        let c = kids[i][k];
        assert(kids[i].contains(c));
        assert(lists_its_children(entries, i));
        assert(entries[i].children.contains(c));
        assert(entries[c as int].parent < c);
        lemma_tree_ends_within(entries, kids, c as int, (h - 1) as nat);
    }
}

/// Tells whether a list of entries is one tree.
pub fn check_tree(entries: &[Entry]) -> (sound: bool)
    ensures
        sound == is_tree(model(entries@)),
        sound ==> entries@.len() > 0 && entries@[0].parent == usize::MAX,
        sound ==> forall|i: int| 1 <= i < entries@.len() ==> (#[trigger] entries@[i]).parent < i,
{
    let n: usize = entries.len();
    let ghost m = model(entries@);
    if n == 0 || entries[0].parent != usize::MAX {
        return false;
    }
    let mut i: usize = 1;
    while i < n
        invariant
            n == entries@.len(),
            m == model(entries@),
            1 <= i <= n,
            forall|k: int| 1 <= k < i ==> (#[trigger] m[k]).parent < k,
        decreases n - i,
    {
        if entries[i].parent >= i {
            assert(m[i as int].parent >= i);
            return false;
        }
        i = i + 1;
    }
    // listed[c]: some entry looked at so far has c among its children
    let mut listed: Vec<bool> = Vec::new();
    while listed.len() < n
        invariant
            listed@.len() <= n,
            forall|k: int| 0 <= k < listed@.len() ==> !(#[trigger] listed@[k]),
        decreases n - listed@.len(),
    {
        listed.push(false);
    }
    let mut p: usize = 0;
    while p < n
        invariant
            n == entries@.len(),
            n > 0,
            m == model(entries@),
            p <= n,
            listed@.len() == n,
            forall|k: int| 1 <= k < n ==> (#[trigger] m[k]).parent < k,
            forall|c: int|
                0 <= c < n ==> (#[trigger] listed@[c] <==> c >= 1 && m[c].parent < p
                    && m[m[c].parent as int].children.contains(c as usize)),
            forall|q: int| 0 <= q < p ==> (#[trigger] m[q]).children.no_duplicates(),
            forall|q: int, c: usize|
                0 <= q < p && (#[trigger] m[q].children.contains(c)) ==> 1 <= c < n
                    && m[c as int].parent == q,
        decreases n - p,
    {
        let count: usize = entries[p].children.len();
        let mut k: usize = 0;
        while k < count
            invariant
                n == entries@.len(),
                n > 0,
                m == model(entries@),
                p < n,
                count == m[p as int].children.len(),
                k <= count,
                listed@.len() == n,
                forall|k: int| 1 <= k < n ==> (#[trigger] m[k]).parent < k,
                forall|c: int|
                    0 <= c < n ==> (#[trigger] listed@[c] <==> c >= 1 && ((m[c].parent < p
                        && m[m[c].parent as int].children.contains(c as usize)) || (m[c].parent == p
                        && m[p as int].children.take(k as int).contains(c as usize)))),
                m[p as int].children.take(k as int).no_duplicates(),
                forall|j: int|
                    0 <= j < k ==> 1 <= (#[trigger] m[p as int].children[j]) < n
                        && m[m[p as int].children[j] as int].parent == p,
            decreases count - k,
        {
            let c: usize = entries[p].children[k];
            let ghost kids = m[p as int].children;
            assert(c == kids[k as int]);
            assert(kids.contains(c));
            if c == 0 || c >= n || entries[c].parent != p {
                proof {
                    if is_tree(m) {
                        assert(lists_its_children(m, p as int));
                    }
                }
                return false;
            }
            if listed[c] {
                proof {
                    if is_tree(m) {
                        assert(lists_its_children(m, p as int));
                        let j = choose|j: int| 0 <= j < k && kids.take(k as int)[j] == c;
                        assert(kids[j] == kids[k as int]);
                    }
                }
                return false;
            }
            listed[c] = true;
            proof {
                let t0 = kids.take(k as int);
                let t1 = kids.take(k + 1);
                assert(t1 =~= t0.push(c));
                assert(!t0.contains(c));
                assert forall|x: usize| t1.contains(x) <==> t0.contains(x) || x == c by {
                    if t0.contains(x) {
                        let j = choose|j: int| 0 <= j < t0.len() && t0[j] == x;
                        assert(t1[j] == x);
                    }
                    if x == c {
                        assert(t1[k as int] == x);
                    }
                }
            }
            k = k + 1;
        }
        proof {
            let kids = m[p as int].children;
            assert(kids.take(count as int) =~= kids);
        }
        p = p + 1;
    }
    let mut c: usize = 1;
    while c < n
        invariant
            n == entries@.len(),
            n > 0,
            m == model(entries@),
            1 <= c <= n,
            listed@.len() == n,
            forall|k: int| 1 <= k < n ==> (#[trigger] m[k]).parent < k,
            forall|c: int|
                0 <= c < n ==> (#[trigger] listed@[c] <==> c >= 1 && m[c].parent < n
                    && m[m[c].parent as int].children.contains(c as usize)),
            forall|x: int| 1 <= x < c ==> #[trigger] listed@[x],
        decreases n - c,
    {
        if !listed[c] {
            proof {
                let q = m[c as int].parent as int;
                assert(!m[q].children.contains(c));
                if is_tree(m) {
                    assert(lists_its_children(m, q));
                }
            }
            return false;
        }
        c = c + 1;
    }
    proof {
        assert forall|i: int| 0 <= i < m.len() implies #[trigger] lists_its_children(m, i) by {
            assert forall|c: usize| #[trigger]
                m[i].children.contains(c) <==> 1 <= c < m.len() && m[c as int].parent == i by {
                if 1 <= c < m.len() && m[c as int].parent == i {
                    assert(listed@[c as int]);
                }
            }
        }
        assert forall|i: int| 1 <= i < entries@.len() implies (#[trigger] entries@[i]).parent < i by {
            assert(m[i].parent < i);
        }
    }
    true
}

/// What a tree is, entry by entry.
pub proof fn law_tree_entry_by_entry(e: Seq<EntryModel>)
    ensures
        is_tree(e) <==> {
            &&& 0 < e.len() <= usize::MAX
            &&& e[0].parent == usize::MAX
            &&& forall|i: int| 1 <= i < e.len() ==> (#[trigger] e[i]).parent < i
            &&& forall|i: int| 0 <= i < e.len() ==> (#[trigger] e[i]).children.no_duplicates()
            &&& forall|i: int, c: usize|
                0 <= i < e.len() ==> ((#[trigger] e[i].children.contains(c)) <==> 1 <= c < e.len()
                    && e[c as int].parent == i)
        },
{
    if is_tree(e) {
        assert forall|i: int| 0 <= i < e.len() implies (#[trigger] e[i]).children.no_duplicates() by {
            assert(lists_its_children(e, i));
        }
        assert forall|i: int, c: usize| 0 <= i < e.len() implies ((
        #[trigger] e[i].children.contains(c)) <==> 1 <= c < e.len() && e[c as int].parent == i) by {
            assert(lists_its_children(e, i));
        }
    } else {
        if 0 < e.len() <= usize::MAX && e[0].parent == usize::MAX && forall|i: int|
            1 <= i < e.len() ==> (#[trigger] e[i]).parent < i {
            let i = choose|i: int| 0 <= i < e.len() && !(#[trigger] lists_its_children(e, i));
            assert(!lists_its_children(e, i));
            if e[i].children.no_duplicates() {
                let c = choose|c: usize|
                    !((#[trigger] e[i].children.contains(c)) <==> 1 <= c < e.len()
                        && e[c as int].parent == i);
                assert(!(e[i].children.contains(c) <==> 1 <= c < e.len() && e[c as int].parent == i));
            }
        }
    }
}

/// The way up from an entry is the entry and the way up from its parent; from
/// outside the list it goes nowhere.
pub proof fn law_way_up(parents: Seq<usize>, j: int, k: int)
    ensures
        is_above(parents, j, k) <==> 0 <= j < parents.len() && (j == k || is_above(
            parents,
            parents[j] as int,
            k,
        )),
        climb_ends(parents, j) <==> !(0 <= j < parents.len()) || climb_ends(
            parents,
            parents[j] as int,
        ),
        is_above(parents, j, k) ==> 0 <= k < parents.len(),
{
    assert(climb(parents, j, 0) == j);
    if is_above(parents, j, k) && j != k {
        let d = choose|d: nat| #[trigger] climb(parents, j, d) == k;
        if 0 <= j < parents.len() {
            assert(climb(parents, parents[j] as int, (d - 1) as nat) == k);
        } else {
            lemma_climb_outside(parents, j, d);
        }
    }
    if 0 <= j < parents.len() {
        let p = parents[j] as int;
        if is_above(parents, p, k) {
            let d = choose|d: nat| #[trigger] climb(parents, p, d) == k;
            assert(climb(parents, j, d + 1) == k);
        }
        if climb_ends(parents, p) {
            let d = choose|d: nat| !(0 <= #[trigger] climb(parents, p, d) < parents.len());
            assert(!(0 <= climb(parents, j, d + 1) < parents.len()));
        }
        if climb_ends(parents, j) {
            let d = choose|d: nat| !(0 <= #[trigger] climb(parents, j, d) < parents.len());
            assert(!(0 <= climb(parents, p, (d - 1) as nat) < parents.len()));
        }
    }
}

/// A way up that ends never comes back to where it was.
pub proof fn law_way_up_does_not_return(parents: Seq<usize>, j: int)
    requires
        0 <= j < parents.len(),
        climb_ends(parents, j),
    ensures
        !is_above(parents, parents[j] as int, j),
{
    let p = parents[j] as int;
    if is_above(parents, p, j) {
        let d = choose|d: nat| #[trigger] climb(parents, p, d) == j;
        assert(climb(parents, j, d + 1) == j);
        assert(climb(parents, j, 0) == j);
        lemma_climb_distinct(parents, j, 0, d + 1);
    }
}

/// What is below an entry is the entry and what is below its children.
pub proof fn law_what_is_below(kids: Seq<Seq<usize>>, i: int, t: int)
    ensures
        (exists|d: nat| is_below(kids, i, t, d)) <==> i == t || (0 <= i < kids.len() && exists|
            k: int,
            d: nat,
        |
            0 <= k < kids[i].len() && #[trigger] is_below(kids, kids[i][k] as int, t, d)),
{
    if exists|d: nat| is_below(kids, i, t, d) && i != t {
        let d = choose|d: nat| is_below(kids, i, t, d);
        let k = choose|k: int|
            0 <= k < kids[i].len() && is_below(
                kids,
                (#[trigger] kids[i][k]) as int,
                t,
                (d - 1) as nat,
            );
        assert(is_below(kids, kids[i][k] as int, t, (d - 1) as nat));
    }
    if i == t {
        assert(is_below(kids, i, t, 0));
    }
    if 0 <= i < kids.len() && exists|k: int, d: nat|
        0 <= k < kids[i].len() && #[trigger] is_below(kids, kids[i][k] as int, t, d) {
        let (k, d) = choose|k: int, d: nat|
            0 <= k < kids[i].len() && #[trigger] is_below(kids, kids[i][k] as int, t, d);
        assert(is_below(kids, i, t, d + 1)) by {
            assert(kids[i][k] == kids[i][k]);
        }
    }
}

} // verus!
