//! Stable ordering of positions by a numeric key.
//!
//! Every listing in this crate that is "sorted by size" is described through
//! [`stable_order`]: the positions of a sequence of keys, smallest key first,
//! positions with equal keys in the order they had.
use vstd::prelude::*;
use vstd::relations::{sorted_by, total_ordering};
use vstd::seq_lib::{lemma_multiset_commutative, lemma_sorted_unique};

verus! {

/// Position `a` is listed no later than position `b`: its key is smaller, or
/// the keys are equal and `a` is the earlier position.
pub open spec fn comes_first(keys: Seq<u64>) -> spec_fn(usize, usize) -> bool {
    |a: usize, b: usize|
        keys[a as int] < keys[b as int] || (keys[a as int] == keys[b as int] && a <= b)
}

/// The positions `lo`, `lo + 1`, ..., `hi - 1`.
pub open spec fn positions(lo: int, hi: int) -> Seq<usize> {
    Seq::new(
        if lo < hi {
            (hi - lo) as nat
        } else {
            0
        },
        |i: int| (lo + i) as usize,
    )
}

/// The positions of `keys`, smallest key first, ties in the order they had.
pub open spec fn stable_order(keys: Seq<u64>) -> Seq<usize> {
    positions(0, keys.len() as int).sort_by(comes_first(keys))
}

/// The items of `s` rearranged so that their keys appear in stable order.
pub open spec fn arranged<T>(s: Seq<T>, keys: Seq<u64>) -> Seq<T> {
    stable_order(keys).map_values(|p: usize| s[p as int])
}

pub proof fn lemma_comes_first_total(keys: Seq<u64>)
    ensures
        total_ordering(comes_first(keys)),
{
    let leq = comes_first(keys);
    assert forall|x: usize, y: usize| #[trigger] leq(x, y) || #[trigger] leq(y, x) by {}
}

/// A sequence of positions that holds `0 .. keys.len()` once each and is sorted
/// is the stable order of `keys`: there is only one.
pub proof fn lemma_stable_order_unique(keys: Seq<u64>, order: Seq<usize>)
    requires
        sorted_by(order, comes_first(keys)),
        order.to_multiset() =~= positions(0, keys.len() as int).to_multiset(),
    ensures
        order == stable_order(keys),
{
    lemma_comes_first_total(keys);
    positions(0, keys.len() as int).lemma_sort_by_ensures(comes_first(keys));
    lemma_sorted_unique(order, stable_order(keys), comes_first(keys));
}

/// A stable order lists every position exactly once, smallest key first, and
/// keeps positions with equal keys in the order they had.
pub proof fn law_stable_order(keys: Seq<u64>)
    requires
        keys.len() <= usize::MAX,
    ensures
        stable_order(keys).len() == keys.len(),
        stable_order(keys).no_duplicates(),
        forall|p: usize| #[trigger] stable_order(keys).contains(p) <==> p < keys.len(),
        forall|i: int|
            0 <= i < keys.len() ==> (#[trigger] stable_order(keys)[i]) < keys.len(),
        forall|i: int, j: int|
            0 <= i < j < keys.len() ==> keys[(#[trigger] stable_order(keys)[i]) as int]
                <= keys[(#[trigger] stable_order(keys)[j]) as int],
        forall|i: int, j: int|
            0 <= i < j < keys.len() && keys[(#[trigger] stable_order(keys)[i]) as int]
                == keys[(#[trigger] stable_order(keys)[j]) as int] ==> stable_order(keys)[i]
                < stable_order(keys)[j],
{
    let all = positions(0, keys.len() as int);
    let order = stable_order(keys);
    lemma_comes_first_total(keys);
    all.lemma_sort_by_ensures(comes_first(keys));
    all.to_multiset_ensures();
    order.to_multiset_ensures();
    assert(all.no_duplicates());
    all.lemma_multiset_has_no_duplicates();
    order.lemma_multiset_has_no_duplicates_conv();
    assert forall|p: usize| #[trigger] order.contains(p) <==> p < keys.len() by {
        if p < keys.len() {
            assert(all[p as int] == p);
            assert(all.to_multiset().count(p) > 0);
        } else {
            assert(!all.contains(p));
        }
    }
    assert forall|i: int| 0 <= i < keys.len() implies (#[trigger] order[i]) < keys.len() by {
        assert(order.contains(order[i]));
    }
    let leq = comes_first(keys);
    assert forall|i: int, j: int| 0 <= i < j < keys.len() implies keys[(#[trigger] order[i]) as int]
        <= keys[(#[trigger] order[j]) as int] by {
        assert(leq(order[i], order[j]));
    }
    assert forall|i: int, j: int|
        0 <= i < j < keys.len() && keys[(#[trigger] order[i]) as int] == keys[(
        #[trigger] order[j]) as int] implies order[i] < order[j] by {
        assert(leq(order[i], order[j]));
    }
}

/// Rearranging keeps exactly the items that were there, with their number.
pub proof fn law_arranged_same_items<T>(s: Seq<T>, keys: Seq<u64>)
    requires
        s.len() == keys.len(),
        keys.len() <= usize::MAX,
    ensures
        arranged(s, keys).len() == s.len(),
        arranged(s, keys).to_multiset() == s.to_multiset(),
        forall|x: T| #[trigger] arranged(s, keys).contains(x) <==> s.contains(x),
{
    law_stable_order(keys);
    let all = positions(0, keys.len() as int);
    let order = stable_order(keys);
    lemma_comes_first_total(keys);
    all.lemma_sort_by_ensures(comes_first(keys));
    let f = |p: usize| s[p as int];
    lemma_map_values_multiset(all, order, f);
    assert(all.map_values(f) =~= s);
    let a = arranged(s, keys);
    s.to_multiset_ensures();
    a.to_multiset_ensures();
    assert forall|x: T| #[trigger] a.contains(x) <==> s.contains(x) by {
        assert(a.contains(x) <==> a.to_multiset().count(x) > 0);
        assert(s.contains(x) <==> s.to_multiset().count(x) > 0);
    }
}

/// Keys that are sorted already are in stable order as they are.
pub proof fn law_sorted_keys_stay(keys: Seq<u64>)
    requires
        keys.len() <= usize::MAX,
        forall|i: int, j: int| 0 <= i < j < keys.len() ==> (#[trigger] keys[i]) <= (#[trigger] keys[j]),
    ensures
        stable_order(keys) == positions(0, keys.len() as int),
{
    let all = positions(0, keys.len() as int);
    let leq = comes_first(keys);
    assert forall|i: int, j: int| 0 <= i < j < all.len() implies #[trigger] leq(all[i], all[j]) by {
        assert(keys[i] <= keys[j]);
    }
    lemma_stable_order_unique(keys, all);
}

/// Applying a function item by item to two rearrangements of one another gives
/// rearrangements of one another.
proof fn lemma_map_values_multiset<A, B>(x: Seq<A>, y: Seq<A>, f: spec_fn(A) -> B)
    requires
        x.to_multiset() =~= y.to_multiset(),
    ensures
        x.map_values(f).to_multiset() =~= y.map_values(f).to_multiset(),
    decreases x.len(),
{
    broadcast use vstd::seq_lib::group_to_multiset_ensures;

    if x.len() == 0 {
        assert(x.to_multiset().len() == 0);
        assert(y.to_multiset().len() == 0);
        assert(x.map_values(f) =~= y.map_values(f));
    } else {
        let last = x.last();
        assert(x.to_multiset().count(last) > 0);
        assert(y.contains(last));
        let k = choose|k: int| 0 <= k < y.len() && y[k] == last;
        let x1 = x.remove(x.len() - 1);
        let y1 = y.remove(k);
        assert(x1.to_multiset() =~= y1.to_multiset());
        lemma_map_values_multiset(x1, y1, f);
        assert(x.map_values(f) =~= x1.map_values(f).push(f(last)));
        assert(y.map_values(f).remove(k) =~= y1.map_values(f));
        assert(y1.map_values(f).to_multiset() =~= y.map_values(f).to_multiset().remove(f(last)));
        assert(y.map_values(f).contains(f(last))) by {
            assert(y.map_values(f)[k] == f(last));
        }
    }
}

/// Merges two sorted runs of positions; on equal keys `left`'s, which are the
/// smaller positions, go first.
fn merge_runs(keys: &Vec<u64>, left: &Vec<usize>, right: &Vec<usize>) -> (merged: Vec<usize>)
    requires
        forall|i: int| 0 <= i < left@.len() ==> (#[trigger] left@[i]) < keys@.len(),
        forall|i: int| 0 <= i < right@.len() ==> (#[trigger] right@[i]) < keys@.len(),
        sorted_by(left@, comes_first(keys@)),
        sorted_by(right@, comes_first(keys@)),
        forall|i: int, j: int|
            0 <= i < left@.len() && 0 <= j < right@.len() ==> (#[trigger] left@[i]) < (
            #[trigger] right@[j]),
    ensures
        sorted_by(merged@, comes_first(keys@)),
        merged@.to_multiset() == left@.to_multiset().add(right@.to_multiset()),
        forall|i: int| 0 <= i < merged@.len() ==> (#[trigger] merged@[i]) < keys@.len(),
{
    let ghost leq = comes_first(keys@);
    proof {
        lemma_comes_first_total(keys@);
    }
    let mut merged: Vec<usize> = Vec::new();
    let mut i: usize = 0;
    let mut j: usize = 0;
    proof {
        assert(left@.skip(0) =~= left@);
        assert(right@.skip(0) =~= right@);
        assert(merged@.to_multiset().add(left@.to_multiset().add(right@.to_multiset()))
            =~= left@.to_multiset().add(right@.to_multiset())) by {
            broadcast use vstd::seq_lib::group_to_multiset_ensures;
            assert(merged@.to_multiset().len() == 0);
        }
    }
    while i < left.len() || j < right.len()
        invariant
            leq == comes_first(keys@),
            total_ordering(leq),
            i <= left@.len(),
            j <= right@.len(),
            forall|i: int| 0 <= i < left@.len() ==> (#[trigger] left@[i]) < keys@.len(),
            forall|i: int| 0 <= i < right@.len() ==> (#[trigger] right@[i]) < keys@.len(),
            sorted_by(left@, leq),
            sorted_by(right@, leq),
            forall|i: int, j: int|
                0 <= i < left@.len() && 0 <= j < right@.len() ==> (#[trigger] left@[i]) < (
                #[trigger] right@[j]),
            sorted_by(merged@, leq),
            forall|m: int| 0 <= m < merged@.len() ==> (#[trigger] merged@[m]) < keys@.len(),
            forall|m: int, l: int|
                0 <= m < merged@.len() && i <= l < left@.len() ==> #[trigger] leq(
                    merged@[m],
                    left@[l],
                ),
            forall|m: int, r: int|
                0 <= m < merged@.len() && j <= r < right@.len() ==> #[trigger] leq(
                    merged@[m],
                    right@[r],
                ),
            merged@.to_multiset().add(
                left@.skip(i as int).to_multiset().add(right@.skip(j as int).to_multiset()),
            ) == left@.to_multiset().add(right@.to_multiset()),
        decreases left@.len() - i + right@.len() - j,
    {
        broadcast use vstd::seq_lib::group_to_multiset_ensures;

        let ghost before = merged@;
        let take_left = j >= right.len() || (i < left.len() && keys[left[i]] <= keys[right[j]]);
        if take_left {
            proof {
                lemma_skip_first(left@, i as int);
                assert forall|r: int| j <= r < right@.len() implies #[trigger] leq(
                    left@[i as int],
                    right@[r],
                ) by {
                    assert(leq(left@[i as int], right@[j as int]));
                    if r > j {
                        assert(leq(right@[j as int], right@[r]));
                    }
                }
                assert forall|l: int| i < l < left@.len() implies #[trigger] leq(
                    left@[i as int],
                    left@[l],
                ) by {}
            }
            merged.push(left[i]);
            i = i + 1;
        } else {
            proof {
                lemma_skip_first(right@, j as int);
                assert forall|l: int| i <= l < left@.len() implies #[trigger] leq(
                    right@[j as int],
                    left@[l],
                ) by {
                    assert(leq(right@[j as int], left@[i as int]));
                    if l > i {
                        assert(leq(left@[i as int], left@[l]));
                    }
                }
                assert forall|r: int| j < r < right@.len() implies #[trigger] leq(
                    right@[j as int],
                    right@[r],
                ) by {}
            }
            merged.push(right[j]);
            j = j + 1;
        }
        proof {
            assert(merged@.to_multiset().add(
                left@.skip(i as int).to_multiset().add(right@.skip(j as int).to_multiset()),
            ) =~= left@.to_multiset().add(right@.to_multiset()));
        }
    }
    proof {
        broadcast use vstd::seq_lib::group_to_multiset_ensures;

        assert(left@.skip(i as int).to_multiset().len() == 0);
        assert(right@.skip(j as int).to_multiset().len() == 0);
        assert(merged@.to_multiset() =~= left@.to_multiset().add(right@.to_multiset()));
    }
    merged
}

proof fn lemma_skip_first(s: Seq<usize>, i: int)
    requires
        0 <= i < s.len(),
    ensures
        s.skip(i).to_multiset() == s.skip(i + 1).to_multiset().insert(s[i]),
{
    broadcast use vstd::seq_lib::group_to_multiset_ensures;

    assert(s.skip(i).remove(0) =~= s.skip(i + 1));
    assert(s.skip(i)[0] == s[i]);
    assert(s.skip(i).contains(s[i]));
    assert(s.skip(i).to_multiset().remove(s[i]).insert(s[i]) =~= s.skip(i).to_multiset());
}

/// The positions `lo .. hi` of `keys`, sorted.
fn order_range(keys: &Vec<u64>, lo: usize, hi: usize) -> (order: Vec<usize>)
    requires
        lo <= hi <= keys@.len(),
    ensures
        sorted_by(order@, comes_first(keys@)),
        order@.to_multiset() == positions(lo as int, hi as int).to_multiset(),
        forall|i: int| 0 <= i < order@.len() ==> lo <= (#[trigger] order@[i]) < hi,
    decreases hi - lo,
{
    if lo == hi {
        proof {
            assert(positions(lo as int, hi as int) =~= Seq::<usize>::empty());
        }
        Vec::new()
    } else if hi - lo == 1 {
        let mut one: Vec<usize> = Vec::new();
        one.push(lo);
        proof {
            assert(positions(lo as int, hi as int) =~= one@);
        }
        one
    } else {
        let mid: usize = lo + (hi - lo) / 2;
        let left = order_range(keys, lo, mid);
        let right = order_range(keys, mid, hi);
        let merged = merge_runs(keys, &left, &right);
        proof {
            let l = positions(lo as int, mid as int);
            let r = positions(mid as int, hi as int);
            assert(positions(lo as int, hi as int) =~= l + r);
            lemma_multiset_commutative(l, r);
            broadcast use vstd::seq_lib::group_to_multiset_ensures;
            assert forall|i: int| 0 <= i < merged@.len() implies lo <= (#[trigger] merged@[i])
                < hi by {
                assert(merged@.contains(merged@[i]));
                assert(merged@.to_multiset().count(merged@[i]) > 0);
                assert((l + r).contains(merged@[i]));
                let k = choose|k: int| 0 <= k < (l + r).len() && (l + r)[k] == merged@[i];
            }
        }
        merged
    }
}

/// The items of `list` rearranged so that their keys appear in stable order.
pub fn arrange(list: &Vec<usize>, keys: &Vec<u64>) -> (sorted: Vec<usize>)
    requires
        list@.len() == keys@.len(),
    ensures
        sorted@ == arranged(list@, keys@),
{
    let order = order_by_key(keys);
    proof {
        assert(keys.len() == keys@.len());
        law_stable_order(keys@);
    }
    let mut sorted: Vec<usize> = Vec::new();
    let mut k: usize = 0;
    while k < order.len()
        invariant
            order@ == stable_order(keys@),
            order@.len() == list@.len(),
            forall|j: int| 0 <= j < order@.len() ==> (#[trigger] order@[j]) < list@.len(),
            k <= order@.len(),
            sorted@.len() == k,
            forall|j: int| 0 <= j < k ==> (#[trigger] sorted@[j]) == list@[order@[j] as int],
        decreases order@.len() - k,
    {
        sorted.push(list[order[k]]);
        k = k + 1;
    }
    assert(sorted@ =~= arranged(list@, keys@));
    sorted
}

/// Lists the positions of `keys` in stable order.
pub fn order_by_key(keys: &Vec<u64>) -> (order: Vec<usize>)
    ensures
        order@ == stable_order(keys@),
{
    let order = order_range(keys, 0, keys.len());
    proof {
        lemma_stable_order_unique(keys@, order@);
    }
    order
}

pub proof fn lemma_filter_no_duplicates<A>(s: Seq<A>, pred: spec_fn(A) -> bool)
    requires
        s.no_duplicates(),
    ensures
        s.filter(pred).no_duplicates(),
    decreases s.len(),
{
    reveal(Seq::filter);
    if s.len() > 0 {
        let rest = s.drop_last();
        lemma_filter_no_duplicates(rest, pred);
        assert forall|k: int| 0 <= k < rest.filter(pred).len() implies rest.filter(pred)[k]
            != s.last() by {
            let v = rest.filter(pred)[k];
            rest.lemma_filter_contains_rev(pred, v);
            let q = choose|q: int| 0 <= q < rest.len() && rest[q] == v;
            assert(s[q] == v);
        }
    }
}

/// The positions from `lo` up to `hi` are these numbers, one after the other.
pub proof fn law_positions(lo: int, hi: int)
    requires
        0 <= lo <= hi <= usize::MAX,
    ensures
        positions(lo, hi).len() == hi - lo,
        forall|i: int| 0 <= i < hi - lo ==> #[trigger] positions(lo, hi)[i] == lo + i,
{
}

/// An item that is listed before another has a smaller key, or the same key and an
/// earlier position; and every listed item is one of the sequence, with its key.
pub proof fn law_arranged_by_key<T>(s: Seq<T>, keys: Seq<u64>, a: int, b: int)
    requires
        s.len() == keys.len(),
        keys.len() <= usize::MAX,
        0 <= a < b < s.len(),
    ensures
        exists|p: int, q: int|
            0 <= p < s.len() && 0 <= q < s.len() && p != q && #[trigger] s[p] == arranged(s, keys)[a]
                && #[trigger] s[q] == arranged(s, keys)[b] && (keys[p] < keys[q] || (keys[p] == keys[q]
                && p < q)),
{
    law_stable_order(keys);
    let p = stable_order(keys)[a] as int;
    let q = stable_order(keys)[b] as int;
    assert(s[p] == arranged(s, keys)[a]);
    assert(s[q] == arranged(s, keys)[b]);
    assert(keys[p] <= keys[q]);
}

/// Positions that are kept stand in increasing order.
pub proof fn lemma_filter_increasing(n: int, pred: spec_fn(usize) -> bool)
    requires
        0 <= n <= usize::MAX,
    ensures
        forall|k: int, l: int|
            0 <= k < l < positions(0, n).filter(pred).len() ==> (#[trigger] positions(0, n).filter(
                pred,
            )[k]) < (#[trigger] positions(0, n).filter(pred)[l]),
    decreases n,
{
    if n > 0 {
        let rest = positions(0, n - 1);
        lemma_filter_increasing(n - 1, pred);
        assert(positions(0, n) =~= rest.push((n - 1) as usize));
        rest.lemma_filter_push((n - 1) as usize, pred);
        assert forall|k: int| 0 <= k < rest.filter(pred).len() implies (#[trigger] rest.filter(
            pred,
        )[k]) < n - 1 by {
            let v = rest.filter(pred)[k];
            rest.lemma_filter_contains_rev(pred, v);
            let q = choose|q: int| 0 <= q < rest.len() && rest[q] == v;
        }
    } else {
        reveal(Seq::filter);
    }
}

} // verus!
