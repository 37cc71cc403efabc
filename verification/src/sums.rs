//! Sums over the entries of a list, and over what is at or below an entry.
use vstd::prelude::*;
use crate::shape::{climb, climb_ends, is_above, lemma_climb_add, lemma_climb_distinct};
use crate::shape::{lemma_climb_next, lemma_climb_stays_outside};

verus! {

/// The sum of `weight` over the indices below `n`.
pub open spec fn total(weight: spec_fn(int) -> nat, n: nat) -> nat
    decreases n,
{
    if n == 0 {
        0
    } else {
        total(weight, (n - 1) as nat) + weight(n - 1)
    }
}

/// The sum of `weight` over the entries at or below the entry with index `i`.
pub open spec fn beneath(parents: Seq<usize>, weight: spec_fn(int) -> nat, i: int) -> nat {
    total(
        |j: int|
            if is_above(parents, j, i) {
                weight(j)
            } else {
                0nat
            },
        parents.len(),
    )
}

/// The sums for these entries, added up.
pub open spec fn beneath_all(
    parents: Seq<usize>,
    weight: spec_fn(int) -> nat,
    list: Seq<usize>,
) -> nat
    decreases list.len(),
{
    if list.len() == 0 {
        0
    } else {
        beneath_all(parents, weight, list.drop_last()) + beneath(
            parents,
            weight,
            list.last() as int,
        )
    }
}

/// The list holds, once each, the entries whose parent is `i`.
pub open spec fn are_children(parents: Seq<usize>, i: int, list: Seq<usize>) -> bool {
    &&& list.no_duplicates()
    &&& forall|c: usize| #[trigger]
        list.contains(c) <==> c < parents.len() && parents[c as int] == i
}

/// `k` is at or below one of the first `m` entries of the list.
pub open spec fn below_first(parents: Seq<usize>, list: Seq<usize>, m: int, k: int) -> bool {
    exists|j: int| 0 <= j < m && is_above(parents, k, (#[trigger] list[j]) as int)
}

pub proof fn lemma_total_same(a: spec_fn(int) -> nat, b: spec_fn(int) -> nat, n: nat)
    requires
        forall|k: int| 0 <= k < n ==> #[trigger] a(k) == b(k),
    ensures
        total(a, n) == total(b, n),
    decreases n,
{
    if n > 0 {
        lemma_total_same(a, b, (n - 1) as nat);
        assert(a(n - 1) == b(n - 1));
    }
}

pub proof fn lemma_total_zero(a: spec_fn(int) -> nat, n: nat)
    requires
        forall|k: int| 0 <= k < n ==> #[trigger] a(k) == 0,
    ensures
        total(a, n) == 0,
    decreases n,
{
    if n > 0 {
        lemma_total_zero(a, (n - 1) as nat);
        assert(a(n - 1) == 0);
    }
}

/// Sums add up index by index.
pub proof fn lemma_total_add(
    a: spec_fn(int) -> nat,
    b: spec_fn(int) -> nat,
    both: spec_fn(int) -> nat,
    n: nat,
)
    requires
        forall|k: int| 0 <= k < n ==> #[trigger] both(k) == a(k) + b(k),
    ensures
        total(both, n) == total(a, n) + total(b, n),
    decreases n,
{
    if n > 0 {
        lemma_total_add(a, b, both, (n - 1) as nat);
        assert(both(n - 1) == a(n - 1) + b(n - 1));
    }
}

pub proof fn lemma_total_at_most(a: spec_fn(int) -> nat, b: spec_fn(int) -> nat, n: nat)
    requires
        forall|k: int| 0 <= k < n ==> #[trigger] a(k) <= b(k),
    ensures
        total(a, n) <= total(b, n),
    decreases n,
{
    if n > 0 {
        lemma_total_at_most(a, b, (n - 1) as nat);
        assert(a(n - 1) <= b(n - 1));
    }
}

/// A sum in which only `i` counts.
pub proof fn lemma_total_one(a: spec_fn(int) -> nat, i: int, n: nat)
    requires
        0 <= i < n,
        forall|k: int| 0 <= k < n && k != i ==> #[trigger] a(k) == 0,
    ensures
        total(a, n) == a(i),
    decreases n,
{
    if i == n - 1 {
        lemma_total_zero(a, (n - 1) as nat);
    } else {
        lemma_total_one(a, i, (n - 1) as nat);
        assert(a(n - 1) == 0);
    }
}

/// What is below is below what is above.
pub proof fn lemma_above_chain(parents: Seq<usize>, k: int, j: int, i: int)
    requires
        is_above(parents, k, j),
        is_above(parents, j, i),
    ensures
        is_above(parents, k, i),
{
    let a = choose|d: nat| #[trigger] climb(parents, k, d) == j;
    let b = choose|d: nat| #[trigger] climb(parents, j, d) == i;
    lemma_climb_add(parents, k, a, b);
    assert(climb(parents, k, a + b) == i);
}

/// The sum below an entry is at most that below an entry above it.
pub proof fn lemma_beneath_grows(parents: Seq<usize>, weight: spec_fn(int) -> nat, j: int, i: int)
    requires
        is_above(parents, j, i),
    ensures
        beneath(parents, weight, j) <= beneath(parents, weight, i),
{
    let low = |k: int|
        if is_above(parents, k, j) {
            weight(k)
        } else {
            0nat
        };
    let high = |k: int|
        if is_above(parents, k, i) {
            weight(k)
        } else {
            0nat
        };
    assert forall|k: int| 0 <= k < parents.len() implies #[trigger] low(k) <= high(k) by {
        if is_above(parents, k, j) {
            lemma_above_chain(parents, k, j, i);
        }
    }
    lemma_total_at_most(low, high, parents.len());
}

/// Nothing is below two children of an entry from which the way up ends.
pub proof fn lemma_children_apart(parents: Seq<usize>, i: int, a: int, b: int, k: int)
    requires
        0 <= i < parents.len(),
        climb_ends(parents, i),
        0 <= a < parents.len(),
        0 <= b < parents.len(),
        a != b,
        parents[a] == i,
        parents[b] == i,
        is_above(parents, k, a),
    ensures
        !is_above(parents, k, b),
{
    if is_above(parents, k, b) {
        lemma_one_way_up(parents, i, a, b, k);
    }
}

proof fn lemma_one_way_up(parents: Seq<usize>, i: int, a: int, b: int, k: int)
    requires
        0 <= i < parents.len(),
        climb_ends(parents, i),
        0 <= a < parents.len(),
        0 <= b < parents.len(),
        parents[a] == i,
        parents[b] == i,
        is_above(parents, k, a),
        is_above(parents, k, b),
    ensures
        a == b,
{
    let d = choose|d: nat| #[trigger] climb(parents, k, d) == a;
    let f = choose|d: nat| #[trigger] climb(parents, k, d) == b;
    lemma_climb_next(parents, k, d);
    lemma_climb_next(parents, k, f);
    let end = choose|d: nat| !(0 <= #[trigger] climb(parents, i, d) < parents.len());
    lemma_climb_add(parents, k, d + 1, end);
    assert(!(0 <= climb(parents, k, d + 1 + end) < parents.len()));
    if d < f {
        lemma_climb_distinct(parents, k, d + 1, f + 1);
    } else if f < d {
        lemma_climb_distinct(parents, k, f + 1, d + 1);
    }
}

/// An entry from which the way up ends is not below its own child.
pub proof fn lemma_not_below_child(parents: Seq<usize>, i: int, c: int)
    requires
        0 <= i < parents.len(),
        climb_ends(parents, i),
        0 <= c < parents.len(),
        parents[c] == i,
    ensures
        !is_above(parents, i, c),
{
    if is_above(parents, i, c) {
        let d = choose|d: nat| #[trigger] climb(parents, i, d) == c;
        lemma_climb_next(parents, i, d);
        assert(climb(parents, i, 0) == i);
        lemma_climb_distinct(parents, i, 0, d + 1);
    }
}

/// What is at or below an entry is the entry itself or at or below one of its
/// children.
pub proof fn lemma_below_splits(parents: Seq<usize>, i: int, list: Seq<usize>, k: int)
    requires
        parents.len() <= usize::MAX,
        0 <= i < parents.len(),
        0 <= k < parents.len(),
        are_children(parents, i, list),
    ensures
        is_above(parents, k, i) == (k == i || below_first(parents, list, list.len() as int, k)),
{
    if is_above(parents, k, i) && k != i {
        let d = choose|d: nat| #[trigger] climb(parents, k, d) == i;
        let c = climb(parents, k, (d - 1) as nat);
        if !(0 <= c < parents.len()) {
            lemma_climb_stays_outside(parents, k, (d - 1) as nat, d);
        }
        lemma_climb_next(parents, k, (d - 1) as nat);
        assert(parents[c] == i);
        assert(list.contains(c as usize));
        let j = choose|j: int| 0 <= j < list.len() && list[j] == c as usize;
        assert(is_above(parents, k, list[j] as int));
    }
    if below_first(parents, list, list.len() as int, k) {
        let j = choose|j: int|
            0 <= j < list.len() && is_above(parents, k, (#[trigger] list[j]) as int);
        assert(list.contains(list[j]));
        let d = choose|d: nat| #[trigger] climb(parents, k, d) == list[j];
        lemma_climb_next(parents, k, d);
        assert(climb(parents, k, d + 1) == i);
    }
    if k == i {
        assert(climb(parents, k, 0) == i);
    }
}

/// The weight of what is at or below one of the first `m` entries of the list.
spec fn covered(
    parents: Seq<usize>,
    weight: spec_fn(int) -> nat,
    list: Seq<usize>,
    m: int,
) -> spec_fn(int) -> nat {
    |k: int|
        if below_first(parents, list, m, k) {
            weight(k)
        } else {
            0nat
        }
}

proof fn lemma_covered_adds_up(
    parents: Seq<usize>,
    weight: spec_fn(int) -> nat,
    i: int,
    list: Seq<usize>,
    m: int,
)
    requires
        0 <= i < parents.len(),
        climb_ends(parents, i),
        are_children(parents, i, list),
        0 <= m <= list.len(),
    ensures
        total(covered(parents, weight, list, m), parents.len()) == beneath_all(
            parents,
            weight,
            list.take(m),
        ),
    decreases m,
{
    if m == 0 {
        lemma_total_zero(covered(parents, weight, list, 0), parents.len());
    } else {
        lemma_covered_adds_up(parents, weight, i, list, m - 1);
        let c = list[m - 1];
        let own = |k: int|
            if is_above(parents, k, c as int) {
                weight(k)
            } else {
                0nat
            };
        let before = covered(parents, weight, list, m - 1);
        let after = covered(parents, weight, list, m);
        assert(list.contains(c));
        assert forall|k: int| 0 <= k < parents.len() implies #[trigger] after(k) == before(k) + own(
            k,
        ) by {
            assert(below_first(parents, list, m, k) == (below_first(parents, list, m - 1, k)
                || is_above(parents, k, c as int))) by {
                if is_above(parents, k, c as int) {
                    assert(is_above(parents, k, list[m - 1] as int));
                }
                if below_first(parents, list, m - 1, k) {
                    let j = choose|j: int|
                        0 <= j < m - 1 && is_above(parents, k, (#[trigger] list[j]) as int);
                    assert(is_above(parents, k, list[j] as int));
                }
            }
            if below_first(parents, list, m - 1, k) && is_above(parents, k, c as int) {
                let j = choose|j: int|
                    0 <= j < m - 1 && is_above(parents, k, (#[trigger] list[j]) as int);
                assert(list.contains(list[j]));
                lemma_children_apart(parents, i, list[j] as int, c as int, k);
            }
        }
        lemma_total_add(before, own, after, parents.len());
        assert(list.take(m).drop_last() =~= list.take(m - 1));
    }
}

/// The sum below an entry is its own weight and the sums below its children.
pub proof fn lemma_beneath_splits(
    parents: Seq<usize>,
    weight: spec_fn(int) -> nat,
    i: int,
    list: Seq<usize>,
)
    requires
        0 <= i < parents.len() <= usize::MAX,
        climb_ends(parents, i),
        are_children(parents, i, list),
    ensures
        beneath(parents, weight, i) == weight(i) + beneath_all(parents, weight, list),
{
    let n = parents.len();
    let m = list.len() as int;
    let own = |k: int|
        if k == i {
            weight(k)
        } else {
            0nat
        };
    let all = |k: int|
        if is_above(parents, k, i) {
            weight(k)
        } else {
            0nat
        };
    let rest = covered(parents, weight, list, m);
    assert forall|k: int| 0 <= k < n implies #[trigger] all(k) == own(k) + rest(k) by {
        lemma_below_splits(parents, i, list, k);
        if k == i && below_first(parents, list, m, k) {
            let j = choose|j: int|
                0 <= j < m && is_above(parents, k, (#[trigger] list[j]) as int);
            assert(list.contains(list[j]));
            lemma_not_below_child(parents, i, list[j] as int);
        }
    }
    lemma_total_add(own, rest, all, n);
    lemma_total_one(own, i, n);
    lemma_covered_adds_up(parents, weight, i, list, m);
    assert(list.take(m) =~= list);
}

/// Sums over some of the children are at most that over all of them.
pub proof fn lemma_beneath_all_grows(
    parents: Seq<usize>,
    weight: spec_fn(int) -> nat,
    list: Seq<usize>,
    m: int,
)
    requires
        0 <= m <= list.len(),
    ensures
        beneath_all(parents, weight, list.take(m)) <= beneath_all(parents, weight, list),
    decreases list.len(),
{
    if m == list.len() {
        assert(list.take(m) =~= list);
    } else {
        lemma_beneath_all_grows(parents, weight, list.drop_last(), m);
        assert(list.drop_last().take(m) =~= list.take(m));
    }
}

} // verus!
