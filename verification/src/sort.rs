//! An in-place dual-array quicksort.
//!
//! [`quicksort`] reorders a sequence of `u64` values into non-decreasing
//! order while applying the very same sequence of swaps to a second,
//! equal-length sequence of keys, so that each value stays paired with the
//! key it started next to. The algorithm is the three-way partitioning
//! quicksort of Sedgewick and Bentley: elements equal to the pivot are
//! collected at both ends of the partition range and rotated into the
//! middle afterwards, so runs of duplicate values are excluded from the
//! recursion.

use vstd::prelude::*;
use vstd::seq_lib::lemma_multiset_commutative;
use vstd::seq_lib::to_multiset_contains;
use vstd::seq_lib::to_multiset_update;

verus! {

/// The sequence of (value, key) pairs formed position by position from a
/// value sequence and a key sequence of the same length.
pub open spec fn pairs<S>(values: Seq<u64>, keys: Seq<S>) -> Seq<(u64, S)> {
    Seq::new(values.len(), |t: int| (values[t], keys[t]))
}

/// `s` is non-decreasing on the inclusive index range `lo ..= hi`.
pub open spec fn sorted_between(s: Seq<u64>, lo: int, hi: int) -> bool {
    forall|x: int, y: int| lo <= x <= y <= hi && 0 <= x && y < s.len() ==> s[x] <= s[y]
}

/// Swapping two positions of a sequence leaves its multiset of elements
/// unchanged.
proof fn lemma_swap_multiset<A>(s: Seq<A>, a: int, b: int)
    requires
        0 <= a < s.len(),
        0 <= b < s.len(),
    ensures
        s.update(a, s[b]).update(b, s[a]).to_multiset() == s.to_multiset(),
{
    broadcast use vstd::multiset::group_multiset_axioms;
    broadcast use to_multiset_update;
    broadcast use to_multiset_contains;

    if a == b {
        assert(s.update(a, s[b]).update(b, s[a]) =~= s);
    } else {
        let s1 = s.update(a, s[b]);
        assert(s.contains(s[a]));
        assert(s1[b] == s[b]);
        assert(s1.update(b, s[a]).to_multiset() =~= s.to_multiset());
    }
}

/// If two equal-length sequences agree outside the inclusive range
/// `lo ..= hi` and have equal multisets, their subranges `lo ..= hi` have
/// equal multisets as well.
proof fn lemma_agree_outside_multiset<A>(s1: Seq<A>, s2: Seq<A>, lo: int, hi: int)
    requires
        s1.len() == s2.len(),
        0 <= lo,
        lo <= hi + 1,
        hi < s1.len(),
        s1.to_multiset() == s2.to_multiset(),
        forall|t: int| 0 <= t < s1.len() && !(lo <= t <= hi) ==> s1[t] == s2[t],
    ensures
        s1.subrange(lo, hi + 1).to_multiset() == s2.subrange(lo, hi + 1).to_multiset(),
{
    broadcast use vstd::multiset::group_multiset_axioms;

    let n = s1.len() as int;
    let a1 = s1.subrange(0, lo);
    let b1 = s1.subrange(lo, hi + 1);
    let c1 = s1.subrange(hi + 1, n);
    let a2 = s2.subrange(0, lo);
    let b2 = s2.subrange(lo, hi + 1);
    let c2 = s2.subrange(hi + 1, n);
    assert(a1 =~= a2);
    assert(c1 =~= c2);
    assert(s1 =~= (a1 + b1) + c1);
    assert(s2 =~= (a2 + b2) + c2);
    lemma_multiset_commutative(a1 + b1, c1);
    lemma_multiset_commutative(a1, b1);
    lemma_multiset_commutative(a2 + b2, c2);
    lemma_multiset_commutative(a2, b2);
    assert forall|x: A| b1.to_multiset().count(x) == #[trigger] b2.to_multiset().count(x) by {
        assert(s1.to_multiset().count(x) == a1.to_multiset().count(x) + b1.to_multiset().count(x)
            + c1.to_multiset().count(x));
        assert(s2.to_multiset().count(x) == a2.to_multiset().count(x) + b2.to_multiset().count(x)
            + c2.to_multiset().count(x));
    }
    assert(b1.to_multiset() =~= b2.to_multiset());
}

/// Every element of a sequence with the same multiset as another one also
/// occurs in that other one.
pub proof fn lemma_same_multiset_contains<A>(s1: Seq<A>, s2: Seq<A>, x: A)
    requires
        s1.to_multiset() == s2.to_multiset(),
        s1.contains(x),
    ensures
        s2.contains(x),
{
    broadcast use vstd::multiset::group_multiset_axioms;
    broadcast use to_multiset_contains;

    assert(s1.to_multiset().count(x) > 0);
}

/// Relies on `<[T]>::swap` from std: exchanges the elements at positions
/// `a` and `b` of the vector in place.
#[verifier::external_body]
fn swap_in_place<S>(v: &mut Vec<S>, a: usize, b: usize)
    requires
        a < old(v).len(),
        b < old(v).len(),
    ensures
        final(v)@ == old(v)@.update(a as int, old(v)@[b as int]).update(b as int, old(v)@[a as int]),
{
    v.swap(a, b);
}

/// Swaps `values[a]` with `values[b]` and `keys[a]` with `keys[b]`.
fn swap_both<S>(values: &mut Vec<u64>, keys: &mut Vec<S>, a: usize, b: usize)
    requires
        old(values).len() == old(keys).len(),
        a < old(values).len(),
        b < old(values).len(),
    ensures
        final(values)@ == old(values)@.update(a as int, old(values)@[b as int]).update(
            b as int,
            old(values)@[a as int],
        ),
        final(keys)@ == old(keys)@.update(a as int, old(keys)@[b as int]).update(
            b as int,
            old(keys)@[a as int],
        ),
        final(values).len() == old(values).len(),
        final(keys).len() == old(keys).len(),
        pairs(final(values)@, final(keys)@).to_multiset() == pairs(old(values)@, old(keys)@)
            .to_multiset(),
        final(keys)@.to_multiset() == old(keys)@.to_multiset(),
        final(values)@.to_multiset() == old(values)@.to_multiset(),
{
    let ghost v0 = values@;
    let ghost k0 = keys@;
    swap_in_place(values, a, b);
    swap_in_place(keys, a, b);
    proof {
        lemma_swap_multiset(v0, a as int, b as int);
        lemma_swap_multiset(k0, a as int, b as int);
        let p0 = pairs(v0, k0);
        assert(pairs(values@, keys@) =~= p0.update(a as int, p0[b as int]).update(
            b as int,
            p0[a as int],
        ));
        lemma_swap_multiset(p0, a as int, b as int);
    }
}

/// Three-way partitioning quicksort on the inclusive range `left ..= right`,
/// with every swap on `values` mirrored on `keys`. The rightmost element of
/// the range is the pivot; elements equal to it are gathered at both ends of
/// the range during partitioning and rotated next to the pivot's final slot
/// before recursing (each rotation stops once it would start swapping the
/// equal run with itself), which keeps duplicate runs out of the recursion.
#[verifier::rlimit(60)]
fn quicksort_helper<S>(values: &mut Vec<u64>, keys: &mut Vec<S>, left: usize, right: usize)
    requires
        old(values).len() == old(keys).len(),
        right < old(values).len(),
    ensures
        final(values).len() == old(values).len(),
        final(keys).len() == old(keys).len(),
        forall|t: int|
            0 <= t < old(values).len() && !(left <= t <= right) ==> final(values)@[t] == old(
                values,
            )@[t],
        forall|t: int|
            0 <= t < old(keys).len() && !(left <= t <= right) ==> final(keys)@[t] == old(keys)@[t],
        pairs(final(values)@, final(keys)@).to_multiset() == pairs(old(values)@, old(keys)@)
            .to_multiset(),
        final(keys)@.to_multiset() == old(keys)@.to_multiset(),
        final(values)@.to_multiset() == old(values)@.to_multiset(),
        sorted_between(final(values)@, left as int, right as int),
    decreases right + 1 - left,
{
    if right <= left {
        return ;
    }
    let ghost v0 = old(values)@;
    let ghost k0 = old(keys)@;
    let ghost n = v0.len() as int;
    let pivot: u64 = values[right];
    let mut i: usize = left;
    let mut j: usize = right - 1;
    let mut p1: usize = left;
    let mut q: usize = right;

    loop
        invariant_except_break
            i <= j + 1,
        invariant
            values.len() == n,
            keys.len() == n,
            v0.len() == n,
            k0.len() == n,
            left < right < n,
            left <= i,
            left <= j < right,
            left <= p1 <= i,
            j < q <= right,
            values@[right as int] == pivot,
            forall|t: int| left <= t < p1 ==> values@[t] == pivot,
            forall|t: int| p1 <= t < i ==> values@[t] < pivot,
            forall|t: int| j < t < q ==> values@[t] > pivot,
            forall|t: int| q <= t <= right ==> values@[t] == pivot,
            forall|t: int| 0 <= t < n && !(left <= t <= right) ==> values@[t] == v0[t],
            forall|t: int| 0 <= t < n && !(left <= t <= right) ==> keys@[t] == k0[t],
            pairs(values@, keys@).to_multiset() == pairs(v0, k0).to_multiset(),
            keys@.to_multiset() == k0.to_multiset(),
            values@.to_multiset() == v0.to_multiset(),
        ensures
            j <= i <= q,
            i <= right,
            values@[i as int] >= pivot,
        decreases j + 1 - i,
    {
        while values[i] < pivot
            invariant
                values.len() == n,
                left <= i <= j + 1,
                p1 <= i,
                j + 1 <= right < n,
                j < q <= right,
                values@[right as int] == pivot,
                forall|t: int| j < t < q ==> values@[t] > pivot,
                forall|t: int| q <= t <= right ==> values@[t] == pivot,
                forall|t: int| p1 <= t < i ==> values@[t] < pivot,
            decreases right - i,
        {
            proof {
                assert(values@[j + 1] >= pivot);
            }
            i += 1;
        }
        while pivot < values[j] && j > left
            invariant
                values.len() == n,
                left <= j < right < n,
                j < q <= right,
                forall|t: int| j < t < q ==> values@[t] > pivot,
            decreases j,
        {
            j -= 1;
        }
        if i >= j {
            proof {
                assert(p1 <= q);
                if i > q {
                    assert(values@[q as int] < pivot);
                    assert(false);
                }
            }
            break ;
        }
        // here i < j, values[i] >= pivot, and values[j] <= pivot
        assert(values@[j as int] <= pivot);
        swap_both(values, keys, i, j);
        if values[i] == pivot {
            swap_both(values, keys, p1, i);
            p1 += 1;
        }
        if values[j] == pivot {
            q -= 1;
            swap_both(values, keys, j, q);
        }
        i += 1;
        j -= 1;
    }

    // place the pivot between the two scanned regions
    swap_both(values, keys, i, right);
    let ghost m = i as int;

    // rotate the equal-run collected at the left end next to the pivot slot
    let mut k: usize = left;
    let mut j1: usize = i;
    while k + 1 < p1 && k + 1 < j1
        invariant
            values.len() == n,
            keys.len() == n,
            v0.len() == n,
            k0.len() == n,
            left < right < n,
            left <= k,
            k <= j1,
            k <= m,
            left <= p1 <= m,
            j1 + k == m + left,
            j1 <= m,
            m <= q <= right,
            forall|t: int| left <= t < m ==> values@[t] <= pivot,
            forall|t: int| k <= t < p1 ==> values@[t] == pivot,
            forall|t: int| j1 <= t <= m ==> values@[t] == pivot,
            forall|t: int| m < t <= right ==> values@[t] >= pivot,
            forall|t: int| q <= t < right ==> values@[t] == pivot,
            forall|t: int| 0 <= t < n && !(left <= t <= right) ==> values@[t] == v0[t],
            forall|t: int| 0 <= t < n && !(left <= t <= right) ==> keys@[t] == k0[t],
            pairs(values@, keys@).to_multiset() == pairs(v0, k0).to_multiset(),
            keys@.to_multiset() == k0.to_multiset(),
            values@.to_multiset() == v0.to_multiset(),
        decreases j1,
    {
        swap_both(values, keys, k, j1 - 1);
        k += 1;
        j1 -= 1;
    }

    // rotate the equal-run collected at the right end next to the pivot slot
    let mut k2: usize = right - 1;
    let mut i2: usize = i + 1;
    while k2 > q && i2 < k2
        invariant
            values.len() == n,
            keys.len() == n,
            v0.len() == n,
            k0.len() == n,
            left < right < n,
            left <= j1 <= m <= q <= right,
            i2 + k2 == m + right,
            q <= k2 + 1,
            k2 <= right - 1,
            m < i2,
            forall|t: int| left <= t < j1 ==> values@[t] <= pivot,
            forall|t: int| j1 <= t < i2 ==> values@[t] == pivot,
            forall|t: int| m < t <= right ==> values@[t] >= pivot,
            forall|t: int| q < t <= k2 ==> values@[t] == pivot,
            forall|t: int| 0 <= t < n && !(left <= t <= right) ==> values@[t] == v0[t],
            forall|t: int| 0 <= t < n && !(left <= t <= right) ==> keys@[t] == k0[t],
            pairs(values@, keys@).to_multiset() == pairs(v0, k0).to_multiset(),
            keys@.to_multiset() == k0.to_multiset(),
            values@.to_multiset() == v0.to_multiset(),
        decreases k2,
    {
        swap_both(values, keys, i2, k2);
        i2 += 1;
        k2 -= 1;
    }

    let ghost v_mid = values@;
    // now: [left, j1) <= pivot, [j1, i2) == pivot, [i2, right] >= pivot
    assert(forall|t: int| i2 <= t <= right ==> values@[t] >= pivot);

    if j1 > left + 1 {
        quicksort_helper(values, keys, left, j1 - 1);
        proof {
            lemma_agree_outside_multiset(values@, v_mid, left as int, j1 - 1);
            assert forall|t: int| left <= t < j1 implies values@[t] <= pivot by {
                let sub_new = values@.subrange(left as int, j1 as int);
                let sub_old = v_mid.subrange(left as int, j1 as int);
                assert(sub_new[t - left] == values@[t]);
                assert(sub_new.contains(values@[t]));
                lemma_same_multiset_contains(sub_new, sub_old, values@[t]);
                let w = choose|w: int| 0 <= w < sub_old.len() && sub_old[w] == values@[t];
                assert(v_mid[left + w] == values@[t]);
            }
        }
    }
    let ghost v_mid2 = values@;
    assert(forall|t: int| left <= t < j1 ==> values@[t] <= pivot);
    assert(forall|t: int| j1 <= t < i2 ==> values@[t] == v_mid[t]);
    assert(forall|t: int| i2 <= t <= right ==> values@[t] == v_mid[t]);
    assert(sorted_between(v_mid2, left as int, j1 - 1));

    if i2 < right {
        quicksort_helper(values, keys, i2, right);
        proof {
            lemma_agree_outside_multiset(values@, v_mid2, i2 as int, right as int);
            assert forall|t: int| i2 <= t <= right implies values@[t] >= pivot by {
                let sub_new = values@.subrange(i2 as int, right + 1);
                let sub_old = v_mid2.subrange(i2 as int, right + 1);
                assert(sub_new[t - i2] == values@[t]);
                assert(sub_new.contains(values@[t]));
                lemma_same_multiset_contains(sub_new, sub_old, values@[t]);
                let w = choose|w: int| 0 <= w < sub_old.len() && sub_old[w] == values@[t];
                assert(v_mid2[i2 + w] == values@[t]);
            }
        }
    }

    proof {
        assert(forall|t: int| 0 <= t < i2 ==> values@[t] == v_mid2[t]);
        assert(sorted_between(values@, left as int, j1 - 1));
        assert(sorted_between(values@, i2 as int, right as int));
        assert(forall|t: int| left <= t < j1 ==> values@[t] <= pivot);
        assert(forall|t: int| j1 <= t < i2 ==> values@[t] == pivot);
        assert(forall|t: int| i2 <= t <= right ==> values@[t] >= pivot);
        assert forall|x: int, y: int|
            left <= x <= y <= right && 0 <= x && y < values@.len() implies values@[x]
            <= values@[y] by {
            if x < j1 && y < j1 {
            } else if x < j1 && j1 <= y < i2 {
                assert(values@[x] <= pivot);
            } else if x < j1 && i2 <= y {
                assert(values@[x] <= pivot);
                assert(values@[y] >= pivot);
            } else if j1 <= x < i2 && j1 <= y < i2 {
            } else if j1 <= x < i2 && i2 <= y {
                assert(values@[y] >= pivot);
            } else {
            }
        }
    }
}

/// Sorts `values` into non-decreasing order in place while applying the
/// identical permutation to `keys`, so the multiset of `(value, key)`
/// pairs is exactly preserved. The two vectors must have equal length.
pub fn quicksort_by<S>(values: &mut Vec<u64>, keys: &mut Vec<S>)
    requires
        old(values).len() == old(keys).len(),
    ensures
        final(values).len() == old(values).len(),
        final(keys).len() == old(keys).len(),
        forall|x: int, y: int|
            0 <= x <= y < final(values)@.len() ==> final(values)@[x] <= final(values)@[y],
        pairs(final(values)@, final(keys)@).to_multiset() == pairs(old(values)@, old(keys)@)
            .to_multiset(),
        final(keys)@.to_multiset() == old(keys)@.to_multiset(),
        final(values)@.to_multiset() == old(values)@.to_multiset(),
{
    if values.len() <= 1 {
        return ;
    }
    let len = values.len();
    quicksort_helper(values, keys, 0, len - 1);
}

/// Sorts `values` into non-decreasing order in place, mirroring every swap
/// on `keys`.
pub fn quicksort<S>(values: &mut Vec<u64>, keys: &mut Vec<S>)
    requires
        old(values).len() == old(keys).len(),
    ensures
        final(values).len() == old(values).len(),
        final(keys).len() == old(keys).len(),
        forall|x: int, y: int|
            0 <= x <= y < final(values)@.len() ==> final(values)@[x] <= final(values)@[y],
        pairs(final(values)@, final(keys)@).to_multiset() == pairs(old(values)@, old(keys)@)
            .to_multiset(),
        final(keys)@.to_multiset() == old(keys)@.to_multiset(),
        final(values)@.to_multiset() == old(values)@.to_multiset(),
{
    quicksort_by(values, keys);
}

} // verus!
