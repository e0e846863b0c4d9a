use vstd::prelude::*;

verus! {

/// A predicate closure gives one answer per element: every two runs on the same
/// element agree.
pub open spec fn is_deterministic_predicate<T, F: Fn(&T) -> bool>(pred: F) -> bool {
    forall|x: &T, b1: bool, b2: bool|
        #[trigger] pred.ensures((x,), b1) && #[trigger] pred.ensures((x,), b2) ==> b1 == b2
}

/// The predicate closure can be run on every element.
pub open spec fn is_total_predicate<T, F: Fn(&T) -> bool>(pred: F) -> bool {
    forall|x: &T| #[trigger] pred.requires((x,))
}

/// Exchanging two entries of a sequence keeps its multiset of entries.
proof fn lemma_swap_keeps_multiset<T>(s: Seq<T>, i: int, j: int)
    requires
        0 <= i < s.len(),
        0 <= j < s.len(),
    ensures
        s.update(i, s[j]).update(j, s[i]).to_multiset() == s.to_multiset(),
{
    broadcast use {
        vstd::seq_lib::to_multiset_update,
        vstd::seq_lib::to_multiset_contains,
        vstd::multiset::group_multiset_axioms,
    };

    if i == j {
        assert(s.update(i, s[j]).update(j, s[i]) =~= s);
    } else {
        let s1 = s.update(i, s[j]);
        assert(s1.to_multiset() == s.to_multiset().insert(s[j]).remove(s[i]));
        assert(s1[j] == s[j]);
        assert(s1.update(j, s[i]).to_multiset() == s1.to_multiset().insert(s[i]).remove(s[j]));
        assert(s.to_multiset().count(s[i]) > 0) by {
            assert(s.contains(s[i]));
        }
        assert(s.to_multiset().count(s[j]) > 0) by {
            assert(s.contains(s[j]));
        }
        assert(s1.update(j, s[i]).to_multiset() =~= s.to_multiset());
    }
}

/// How many positions in `lo..hi` hold a different entry in `after` than in
/// `before`.
pub open spec fn moved_count<T>(before: Seq<T>, after: Seq<T>, lo: int, hi: int) -> nat
    decreases hi - lo,
{
    if hi <= lo {
        0
    } else {
        moved_count(before, after, lo, hi - 1) + if after[hi - 1] != before[hi - 1] {
            1nat
        } else {
            0nat
        }
    }
}

proof fn lemma_moved_split<T>(before: Seq<T>, after: Seq<T>, lo: int, mid: int, hi: int)
    requires
        lo <= mid <= hi,
    ensures
        moved_count(before, after, lo, hi) == moved_count(before, after, lo, mid) + moved_count(
            before,
            after,
            mid,
            hi,
        ),
    decreases hi - mid,
{
    if hi > mid {
        lemma_moved_split(before, after, lo, mid, hi - 1);
    }
}

proof fn lemma_moved_none<T>(before: Seq<T>, after: Seq<T>, lo: int, hi: int)
    requires
        forall|k: int| lo <= k < hi ==> #[trigger] after[k] == before[k],
    ensures
        moved_count(before, after, lo, hi) == 0,
    decreases hi - lo,
{
    if hi > lo {
        lemma_moved_none(before, after, lo, hi - 1);
    }
}

proof fn lemma_moved_frame<T>(before: Seq<T>, a1: Seq<T>, a2: Seq<T>, lo: int, hi: int)
    requires
        forall|k: int| lo <= k < hi ==> (#[trigger] a1[k] != before[k]) == (a2[k] != before[k]),
    ensures
        moved_count(before, a1, lo, hi) == moved_count(before, a2, lo, hi),
    decreases hi - lo,
{
    if hi > lo {
        lemma_moved_frame(before, a1, a2, lo, hi - 1);
    }
}

/// A moved position inside a range adds one to the range's count, on top of the
/// count of the part before it and of the part after it.
proof fn lemma_moved_at<T>(before: Seq<T>, after: Seq<T>, lo: int, a: int, hi: int)
    requires
        lo <= a < hi,
    ensures
        moved_count(before, after, lo, hi) == moved_count(before, after, lo, a) + (if after[a]
            != before[a] {
            1int
        } else {
            0int
        }) + moved_count(before, after, a + 1, hi),
{
    lemma_moved_split(before, after, lo, a, hi);
    lemma_moved_split(before, after, a, a + 1, hi);
    assert(moved_count(before, after, a, a) == 0);
}

/// Every two moved positions `a < b` whose counts agree (the moved positions
/// before `a`, and the moved positions after `b`) have traded their entries.
#[verifier::opaque]
pub open spec fn pairs_exchanged<T>(before: Seq<T>, after: Seq<T>) -> bool {
    forall|a: int, b: int|
        #![trigger after[a], after[b]]
        0 <= a < b < after.len() && after[a] != before[a] && after[b] != before[b]
            && moved_count(before, after, 0, a) == moved_count(
            before,
            after,
            b + 1,
            after.len() as int,
        ) ==> after[a] == before[b] && after[b] == before[a]
}

/// Exchanging the entries at `i < j`, neither moved yet and with nothing moved
/// between them, when as many positions moved before `i` as after `j`, keeps
/// every moved pair traded.
proof fn lemma_swap_keeps_pairs<T>(o: Seq<T>, s: Seq<T>, s2: Seq<T>, i: int, j: int)
    requires
        s.len() == o.len(),
        0 <= i < j < s.len(),
        s[i] == o[i],
        s[j] == o[j],
        o[i] != o[j],
        forall|k: int| i < k < j ==> #[trigger] s[k] == o[k],
        moved_count(o, s, 0, i) == moved_count(o, s, j + 1, s.len() as int),
        pairs_exchanged(o, s),
        s2 == s.update(i, s[j]).update(j, s[i]),
    ensures
        pairs_exchanged(o, s2),
        moved_count(o, s2, 0, i) == moved_count(o, s, 0, i),
        moved_count(o, s2, j + 1, s.len() as int) == moved_count(o, s, j + 1, s.len() as int),
{
    reveal(pairs_exchanged);
    let n = s.len() as int;
    assert forall|k: int| 0 <= k < n && k != i && k != j implies #[trigger] s2[k] == s[k] by {}
    assert(s2[i] == o[j] && s2[j] == o[i]);
    lemma_moved_frame(o, s, s2, 0, i);
    lemma_moved_frame(o, s, s2, j + 1, n);
    assert forall|k: int| i < k < j implies #[trigger] s2[k] == o[k] by {}
    assert forall|a: int, b: int|
        0 <= a < b < n && s2[a] != o[a] && s2[b] != o[b] && moved_count(o, s2, 0, a)
            == moved_count(o, s2, b + 1, n) implies s2[a] == o[b] && s2[b] == o[a] by {
        if a < i && b > j {
            lemma_moved_frame(o, s, s2, 0, a);
            lemma_moved_frame(o, s, s2, b + 1, n);
            assert(s[a] != o[a] && s[b] != o[b]);
            assert(s2[a] == s[a] && s2[b] == s[b]);
        } else if a == i && b == j {
        } else {
            // the counts cannot agree
            if a < i {
                lemma_moved_frame(o, s, s2, 0, a);
                lemma_moved_at(o, s, 0, a, i);
                if b < i {
                    lemma_moved_at(o, s2, b + 1, i, n);
                    lemma_moved_at(o, s2, i + 1, j, n);
                    lemma_moved_none(o, s2, i + 1, j);
                    lemma_moved_split(o, s2, b + 1, i, n);
                } else if b == i {
                    lemma_moved_at(o, s2, i + 1, j, n);
                    lemma_moved_none(o, s2, i + 1, j);
                } else {
                    assert(b == j);
                }
            } else if a == i {
                lemma_moved_frame(o, s, s2, b + 1, n);
                lemma_moved_at(o, s, j + 1, b, n);
                lemma_moved_split(o, s, j + 1, b, n);
            } else {
                assert(a >= j);
                lemma_moved_frame(o, s, s2, b + 1, n);
                lemma_moved_at(o, s, j + 1, b, n);
                lemma_moved_split(o, s, j + 1, b, n);
                lemma_moved_at(o, s2, 0, i, a);
                lemma_moved_split(o, s2, 0, i, a);
                lemma_moved_at(o, s2, i + 1, j, a);
                lemma_moved_split(o, s2, i + 1, j, a);
                lemma_moved_none(o, s2, i + 1, j);
            }
        }
    }
}

/// Reorders `slice` in place so that the entries for which `comparator` holds
/// come first, and returns the position that separates the two groups.
///
/// Entries before the returned position satisfy the predicate and entries after
/// it do not. The entry at the returned position fails the predicate too, unless
/// it is the last entry (which is the case when every entry satisfies the
/// predicate).
///
/// Only misplaced entries move: an entry that fails and lies before the split
/// trades places with one that satisfies and lies from the split on. The k-th
/// such entry from the front trades with the k-th such entry from the back, so
/// as many entries move on each side of the split.
pub fn partition<T, F: Fn(&T) -> bool>(slice: &mut [T], comparator: F) -> (split: usize)
    requires
        old(slice)@.len() > 0,
        is_total_predicate(comparator),
        is_deterministic_predicate(comparator),
    ensures
        final(slice)@.len() == old(slice)@.len(),
        final(slice)@.to_multiset() == old(slice)@.to_multiset(),
        split < final(slice)@.len(),
        forall|k: int| 0 <= k < split ==> #[trigger] comparator.ensures((&final(slice)@[k],), true),
        forall|k: int|
            split < k < final(slice)@.len() ==> #[trigger] comparator.ensures(
                (&final(slice)@[k],),
                false,
            ),
        split == final(slice)@.len() - 1 || comparator.ensures(
            (&final(slice)@[split as int],),
            false,
        ),
        forall|k: int|
            0 <= k < split ==> #[trigger] final(slice)@[k] == old(slice)@[k] || comparator.ensures((&old(slice)@[k],), false),
        forall|k: int|
            split <= k < final(slice)@.len() ==> #[trigger] final(slice)@[k] == old(slice)@[k]
                || comparator.ensures((&old(slice)@[k],), true),
        moved_count(old(slice)@, final(slice)@, 0, split as int) == moved_count(
            old(slice)@,
            final(slice)@,
            split as int,
            final(slice)@.len() as int,
        ),
        pairs_exchanged(old(slice)@, final(slice)@),
{
    let len = slice.len();
    let mut i: usize = 0;
    let mut j: usize = len - 1;
    let ghost mut just_swapped = false;
    proof {
        reveal(pairs_exchanged);
    }

    loop
        invariant
            is_total_predicate(comparator),
            is_deterministic_predicate(comparator),
            slice@.len() == len,
            old(slice)@.len() == len,
            slice@.to_multiset() == old(slice)@.to_multiset(),
            i <= j < len,
            forall|k: int| 0 <= k < i ==> #[trigger] comparator.ensures((&slice@[k],), true),
            forall|k: int| j < k < len ==> #[trigger] comparator.ensures((&slice@[k],), false),
            j == len - 1 || comparator.ensures((&slice@[j as int],), false),
            just_swapped ==> i < j && comparator.ensures((&slice@[i as int],), true),
            forall|k: int| 0 <= k < i ==> #[trigger] slice@[k] == old(slice)@[k] || comparator.ensures((&old(slice)@[k],), false),
            forall|k: int| j < k < len ==> #[trigger] slice@[k] == old(slice)@[k] || comparator.ensures((&old(slice)@[k],), true),
            forall|k: int| i < k < j ==> #[trigger] slice@[k] == old(slice)@[k],
            slice@[j as int] == old(slice)@[j as int] || comparator.ensures((&old(slice)@[j as int],), true),
            !just_swapped ==> slice@[i as int] == old(slice)@[i as int],
            just_swapped ==> comparator.ensures((&old(slice)@[i as int],), false),
            moved_count(old(slice)@, slice@, 0, i as int) + (if i < j && slice@[i as int] != old(slice)@[i as int] { 1int } else { 0int }) == moved_count(old(slice)@, slice@, j + 1, len as int) + (if slice@[j as int] != old(slice)@[j as int] { 1int } else { 0int }),
            pairs_exchanged(old(slice)@, slice@),
            just_swapped ==> comparator.ensures((&slice@[j as int],), false),
            !just_swapped ==> forall|k: int| 0 <= k < len ==> #[trigger] slice@[k] == old(slice)@[k],
        decreases 2 * (j - i) + if just_swapped { 0int } else { 1int },
    {
        let ghost i_before = i;
        let ghost swapped_before = just_swapped;
        loop
            invariant
                is_total_predicate(comparator),
                is_deterministic_predicate(comparator),
                slice@.len() == len,
                i_before <= i <= j < len,
                forall|k: int| 0 <= k < i ==> #[trigger] comparator.ensures((&slice@[k],), true),
                swapped_before && i == i_before ==> i < j && comparator.ensures(
                    (&slice@[i as int],),
                    true,
                ),
                old(slice)@.len() == len,
                forall|k: int| 0 <= k < i ==> #[trigger] slice@[k] == old(slice)@[k] || comparator.ensures((&old(slice)@[k],), false),
                forall|k: int| j < k < len ==> #[trigger] slice@[k] == old(slice)@[k] || comparator.ensures((&old(slice)@[k],), true),
                forall|k: int| i < k < j ==> #[trigger] slice@[k] == old(slice)@[k],
                slice@[j as int] == old(slice)@[j as int] || comparator.ensures((&old(slice)@[j as int],), true),
                i == i_before && !swapped_before ==> slice@[i as int] == old(slice)@[i as int],
                i == i_before && swapped_before ==> comparator.ensures((&old(slice)@[i as int],), false),
                i > i_before && i < j ==> slice@[i as int] == old(slice)@[i as int],
                moved_count(old(slice)@, slice@, 0, i as int) + (if i < j && slice@[i as int] != old(slice)@[i as int] { 1int } else { 0int }) == moved_count(old(slice)@, slice@, j + 1, len as int) + (if slice@[j as int] != old(slice)@[j as int] { 1int } else { 0int }),
                pairs_exchanged(old(slice)@, slice@),
                swapped_before ==> comparator.ensures((&slice@[j as int],), false),
                !swapped_before ==> slice@[j as int] == old(slice)@[j as int],
            ensures
                i_before <= i <= j,
                forall|k: int| 0 <= k < i ==> #[trigger] comparator.ensures((&slice@[k],), true),
                i == j || comparator.ensures((&slice@[i as int],), false),
                swapped_before ==> i > i_before,
                forall|k: int| 0 <= k < i ==> #[trigger] slice@[k] == old(slice)@[k] || comparator.ensures((&old(slice)@[k],), false),
                forall|k: int| i < k < j ==> #[trigger] slice@[k] == old(slice)@[k],
                i < j ==> slice@[i as int] == old(slice)@[i as int],
                moved_count(old(slice)@, slice@, 0, i as int) + (if i < j && slice@[i as int] != old(slice)@[i as int] { 1int } else { 0int }) == moved_count(old(slice)@, slice@, j + 1, len as int) + (if slice@[j as int] != old(slice)@[j as int] { 1int } else { 0int }),
                pairs_exchanged(old(slice)@, slice@),
                swapped_before ==> comparator.ensures((&slice@[j as int],), false),
                !swapped_before ==> slice@[j as int] == old(slice)@[j as int],
            decreases j - i,
        {
            if i >= j {
                break;
            }
            let holds = comparator(&slice[i]);
            if !holds {
                break;
            }
            proof {
                lemma_moved_at(old(slice)@, slice@, 0, i as int, i + 1);
            }
            i += 1;
        }

        let ghost i_fails = i < j;
        let ghost j_before = j;
        loop
            invariant
                is_total_predicate(comparator),
                is_deterministic_predicate(comparator),
                slice@.len() == len,
                i <= j < len,
                j <= j_before,
                forall|k: int| j < k < len ==> #[trigger] comparator.ensures((&slice@[k],), false),
                i_fails ==> comparator.ensures((&slice@[i as int],), false),
                !i_fails ==> i == j,
                j == len - 1 || comparator.ensures((&slice@[j as int],), false) || i < j,
                old(slice)@.len() == len,
                forall|k: int| j < k < len ==> #[trigger] slice@[k] == old(slice)@[k] || comparator.ensures((&old(slice)@[k],), true),
                forall|k: int| i < k < j_before ==> #[trigger] slice@[k] == old(slice)@[k],
                slice@[j as int] == old(slice)@[j as int] || comparator.ensures((&old(slice)@[j as int],), true),
                i_fails ==> slice@[i as int] == old(slice)@[i as int],
                moved_count(old(slice)@, slice@, 0, i as int) + (if i < j && slice@[i as int] != old(slice)@[i as int] { 1int } else { 0int }) == moved_count(old(slice)@, slice@, j + 1, len as int) + (if slice@[j as int] != old(slice)@[j as int] { 1int } else { 0int }),
                pairs_exchanged(old(slice)@, slice@),
                j == j_before && swapped_before ==> comparator.ensures((&slice@[j as int],), false),
                j == j_before && !swapped_before ==> slice@[j as int] == old(slice)@[j as int],
            ensures
                i <= j <= j_before,
                forall|k: int| j < k < len ==> #[trigger] comparator.ensures((&slice@[k],), false),
                i == j || comparator.ensures((&slice@[j as int],), true),
                i_fails ==> comparator.ensures((&slice@[i as int],), false),
                forall|k: int| j < k < len ==> #[trigger] slice@[k] == old(slice)@[k] || comparator.ensures((&old(slice)@[k],), true),
                forall|k: int| i < k < j ==> #[trigger] slice@[k] == old(slice)@[k],
                slice@[j as int] == old(slice)@[j as int] || comparator.ensures((&old(slice)@[j as int],), true),
                i_fails ==> slice@[i as int] == old(slice)@[i as int],
                moved_count(old(slice)@, slice@, 0, i as int) + (if i < j && slice@[i as int] != old(slice)@[i as int] { 1int } else { 0int }) == moved_count(old(slice)@, slice@, j + 1, len as int) + (if slice@[j as int] != old(slice)@[j as int] { 1int } else { 0int }),
                pairs_exchanged(old(slice)@, slice@),
                i < j ==> slice@[j as int] == old(slice)@[j as int],
            decreases j - i,
        {
            if i >= j {
                break;
            }
            let holds = comparator(&slice[j]);
            if holds {
                break;
            }
            proof {
                lemma_moved_at(old(slice)@, slice@, j as int, j as int, len as int);
            }
            j -= 1;
        }

        if i >= j {
            proof {
                lemma_moved_at(old(slice)@, slice@, i as int, i as int, len as int);
            }
            return i;
        }

        let ghost before = slice@;
        {
            let (left_slice, right_slice) = slice.split_at_mut(j);
            let (_, left_tail) = left_slice.split_at_mut(i);
            let a = left_tail.first_mut().unwrap();
            let b = right_slice.first_mut().unwrap();
            core::mem::swap(a, b);
        }
        proof {
            assert(slice@ =~= before.update(i as int, before[j as int]).update(
                j as int,
                before[i as int],
            ));
            lemma_swap_keeps_multiset(before, i as int, j as int);
            if old(slice)@[i as int] == old(slice)@[j as int] {
                assert(comparator.ensures((&old(slice)@[i as int],), true));
            }
            lemma_swap_keeps_pairs(old(slice)@, before, slice@, i as int, j as int);
            just_swapped = true;
        }
    }
}


/// How many entries of `s` satisfy `p`.
pub open spec fn count_satisfying<T>(s: Seq<T>, p: spec_fn(T) -> bool) -> nat
    decreases s.len(),
{
    if s.len() == 0 {
        0
    } else {
        count_satisfying(s.drop_last(), p) + if p(s.last()) {
            1nat
        } else {
            0nat
        }
    }
}

/// The predicate "is `b`".
pub open spec fn is_bin(b: int) -> spec_fn(usize) -> bool {
    |x: usize| x == b
}

/// The predicate "lies before `s`".
pub open spec fn is_below(s: int) -> spec_fn(usize) -> bool {
    |x: usize| x < s
}

/// How many entries of `bins` are `b`.
pub open spec fn count_in_bin(bins: Seq<usize>, b: int) -> nat {
    count_satisfying(bins, is_bin(b))
}

/// The sum of `counts[lo..hi]`.
pub open spec fn sum_counts(counts: Seq<u32>, lo: int, hi: int) -> int
    decreases hi - lo,
{
    if hi <= lo {
        0
    } else {
        sum_counts(counts, lo, hi - 1) + counts[hi - 1]
    }
}

proof fn lemma_count_at_most_len<T>(s: Seq<T>, p: spec_fn(T) -> bool)
    ensures
        count_satisfying(s, p) <= s.len(),
    decreases s.len(),
{
    if s.len() > 0 {
        lemma_count_at_most_len(s.drop_last(), p);
    }
}

proof fn lemma_count_push<T>(s: Seq<T>, x: T, p: spec_fn(T) -> bool)
    ensures
        count_satisfying(s.push(x), p) == count_satisfying(s, p) + if p(x) {
            1nat
        } else {
            0nat
        },
{
    assert(s.push(x).drop_last() =~= s);
}

proof fn lemma_count_concat<T>(a: Seq<T>, b: Seq<T>, p: spec_fn(T) -> bool)
    ensures
        count_satisfying(a + b, p) == count_satisfying(a, p) + count_satisfying(b, p),
    decreases b.len(),
{
    if b.len() == 0 {
        assert(a + b =~= a);
    } else {
        lemma_count_concat(a, b.drop_last(), p);
        assert((a + b).drop_last() =~= a + b.drop_last());
    }
}

proof fn lemma_count_all<T>(s: Seq<T>, p: spec_fn(T) -> bool)
    requires
        forall|k: int| 0 <= k < s.len() ==> p(#[trigger] s[k]),
    ensures
        count_satisfying(s, p) == s.len(),
    decreases s.len(),
{
    if s.len() > 0 {
        lemma_count_all(s.drop_last(), p);
    }
}

proof fn lemma_count_none<T>(s: Seq<T>, p: spec_fn(T) -> bool)
    requires
        forall|k: int| 0 <= k < s.len() ==> !p(#[trigger] s[k]),
    ensures
        count_satisfying(s, p) == 0,
    decreases s.len(),
{
    if s.len() > 0 {
        lemma_count_none(s.drop_last(), p);
    }
}

/// Splitting a predicate into two exclusive parts splits the count.
proof fn lemma_count_split<T>(s: Seq<T>, p: spec_fn(T) -> bool, q: spec_fn(T) -> bool, r: spec_fn(T) -> bool)
    requires
        forall|x: T| #[trigger] p(x) == (q(x) || r(x)),
        forall|x: T| !(#[trigger] q(x) && #[trigger] r(x)),
    ensures
        count_satisfying(s, p) == count_satisfying(s, q) + count_satisfying(s, r),
    decreases s.len(),
{
    if s.len() > 0 {
        lemma_count_split(s.drop_last(), p, q, r);
        assert(p(s.last()) == (q(s.last()) || r(s.last())));
        assert(!(q(s.last()) && r(s.last())));
    }
}

/// The count depends only on the multiset of entries.
proof fn lemma_count_is_filtered_multiset_len<T>(s: Seq<T>, p: spec_fn(T) -> bool)
    ensures
        count_satisfying(s, p) == s.to_multiset().filter(p).len(),
    decreases s.len(),
{
    broadcast use {
        vstd::seq_lib::group_to_multiset_ensures,
        vstd::multiset::group_multiset_axioms,
    };

    if s.len() == 0 {
        assert(s.to_multiset().filter(p) =~= vstd::multiset::Multiset::empty());
    } else {
        let t = s.drop_last();
        let x = s.last();
        lemma_count_is_filtered_multiset_len(t, p);
        assert(t.push(x) =~= s);
        assert(s.to_multiset() =~= t.to_multiset().insert(x));
        if p(x) {
            assert(s.to_multiset().filter(p) =~= t.to_multiset().filter(p).insert(x));
        } else {
            assert(s.to_multiset().filter(p) =~= t.to_multiset().filter(p));
        }
    }
}

/// A slice that holds the entries of `before`, grouped so that the entries
/// before `split` satisfy `p` and those after it do not, with the entry at
/// `split` failing `p` unless it is the last, is split at the number of entries
/// of `before` that satisfy `p` (at the last position when all do).
proof fn lemma_partition_point_is_count<T>(before: Seq<T>, after: Seq<T>, split: int, p: spec_fn(T) -> bool)
    requires
        after.to_multiset() == before.to_multiset(),
        0 <= split < after.len(),
        forall|k: int| 0 <= k < split ==> p(#[trigger] after[k]),
        forall|k: int| split < k < after.len() ==> !p(#[trigger] after[k]),
        split == after.len() - 1 || !p(after[split]),
    ensures
        split == if count_satisfying(before, p) == before.len() {
            before.len() - 1
        } else {
            count_satisfying(before, p) as int
        },
{
    broadcast use vstd::seq_lib::group_to_multiset_ensures;

    lemma_count_is_filtered_multiset_len(before, p);
    lemma_count_is_filtered_multiset_len(after, p);
    assert(before.len() == before.to_multiset().len());
    assert(after.len() == after.to_multiset().len());
    let head = after.subrange(0, split);
    let mid = after.subrange(split, split + 1);
    let tail = after.subrange(split + 1, after.len() as int);
    assert(after =~= head + mid + tail);
    lemma_count_all(head, p);
    lemma_count_none(tail, p);
    lemma_count_concat(head, mid, p);
    lemma_count_concat(head + mid, tail, p);
    assert(mid.drop_last() =~= Seq::<T>::empty());
    assert(mid.last() == after[split]);
    assert(count_satisfying(Seq::<T>::empty(), p) == 0);
    assert(count_satisfying(mid, p) == if p(after[split]) { 1nat } else { 0nat });
    assert(count_satisfying(after, p) == split + count_satisfying(mid, p));
    assert(count_satisfying(before, p) == count_satisfying(after, p));
}

/// The law of `partition`: the position it returns is the number of entries
/// that satisfy the predicate, except when every entry does, where it is the
/// last position. Here `before` is the slice that `partition` was given,
/// `after` what it left there and `split` what it returned, and the comparator
/// answers as `p` does.
pub proof fn lemma_partition_returns_count<T, F: Fn(&T) -> bool>(
    comparator: F,
    p: spec_fn(T) -> bool,
    before: Seq<T>,
    after: Seq<T>,
    split: int,
)
    requires
        forall|x: T, b: bool| #[trigger] comparator.ensures((&x,), b) ==> b == p(x),
        after.to_multiset() == before.to_multiset(),
        0 <= split < after.len(),
        forall|k: int| 0 <= k < split ==> #[trigger] comparator.ensures((&after[k],), true),
        forall|k: int| split < k < after.len() ==> #[trigger] comparator.ensures((&after[k],), false),
        split == after.len() - 1 || comparator.ensures((&after[split],), false),
    ensures
        split == if count_satisfying(before, p) == before.len() {
            before.len() - 1
        } else {
            count_satisfying(before, p) as int
        },
{
    assert forall|k: int| 0 <= k < split implies p(#[trigger] after[k]) by {
        assert(comparator.ensures((&after[k],), true));
    }
    assert forall|k: int| split < k < after.len() implies !p(#[trigger] after[k]) by {
        assert(comparator.ensures((&after[k],), false));
    }
    if split != after.len() - 1 {
        assert(comparator.ensures((&after[split],), false));
    }
    lemma_partition_point_is_count(before, after, split, p);
}

/// Partitioning a slice that is already partitioned leaves it as it is: when
/// the predicate holds exactly on the first `k` entries, `partition` moves
/// nothing and returns `k` (the last position when `k` is the length). So a
/// second `partition` with the same comparator changes nothing. Here `before`
/// is the slice that `partition` was given, `after` what it left there and
/// `split` what it returned, and the comparator answers as `p` does.
pub proof fn lemma_partition_of_partitioned<T, F: Fn(&T) -> bool>(
    comparator: F,
    p: spec_fn(T) -> bool,
    before: Seq<T>,
    after: Seq<T>,
    split: int,
    k: int,
)
    requires
        forall|x: T, b: bool| #[trigger] comparator.ensures((&x,), b) ==> b == p(x),
        0 <= k <= before.len(),
        forall|i: int| 0 <= i < k ==> p(#[trigger] before[i]),
        forall|i: int| k <= i < before.len() ==> !p(#[trigger] before[i]),
        after.len() == before.len(),
        after.to_multiset() == before.to_multiset(),
        0 <= split < after.len(),
        forall|i: int| 0 <= i < split ==> #[trigger] comparator.ensures((&after[i],), true),
        forall|i: int| split < i < after.len() ==> #[trigger] comparator.ensures((&after[i],), false),
        split == after.len() - 1 || comparator.ensures((&after[split],), false),
        forall|i: int|
            0 <= i < split ==> #[trigger] after[i] == before[i] || comparator.ensures((&before[i],), false),
        forall|i: int|
            split <= i < after.len() ==> #[trigger] after[i] == before[i] || comparator.ensures(
                (&before[i],),
                true,
            ),
    ensures
        after == before,
        split == if k == before.len() {
            before.len() - 1
        } else {
            k
        },
{
    let n = before.len() as int;
    lemma_partition_returns_count(comparator, p, before, after, split);
    let head = before.subrange(0, k);
    let tail = before.subrange(k, n);
    assert(before =~= head + tail);
    assert forall|i: int| 0 <= i < head.len() implies p(#[trigger] head[i]) by {
        assert(head[i] == before[i]);
    }
    assert forall|i: int| 0 <= i < tail.len() implies !p(#[trigger] tail[i]) by {
        assert(tail[i] == before[k + i]);
    }
    lemma_count_all(head, p);
    lemma_count_none(tail, p);
    lemma_count_concat(head, tail, p);
    assert forall|i: int| 0 <= i < n && i != n - 1 implies #[trigger] after[i] == before[i] by {
        if i < split {
            if after[i] != before[i] {
                assert(comparator.ensures((&before[i],), false));
            }
        } else {
            if after[i] != before[i] {
                assert(comparator.ensures((&before[i],), true));
            }
        }
    }
    if after[n - 1] != before[n - 1] {
        if split < n - 1 {
            assert(comparator.ensures((&before[n - 1],), true));
        }
        assert(split == n - 1);
        assert(after =~= before.update(n - 1, after[n - 1]));
        broadcast use {
            vstd::seq_lib::to_multiset_update,
            vstd::seq_lib::to_multiset_contains,
            vstd::multiset::group_multiset_axioms,
        };
        assert(before.contains(before[n - 1]));
        assert(before.to_multiset().count(before[n - 1]) > 0);
        assert(after.to_multiset() == before.to_multiset().insert(after[n - 1]).remove(before[n - 1]));
        assert(after.to_multiset().count(after[n - 1]) == before.to_multiset().count(after[n - 1]) + 1);
    }
    assert(after =~= before);
}

proof fn lemma_sum_split(counts: Seq<u32>, lo: int, mid: int, hi: int)
    requires
        lo <= mid <= hi,
    ensures
        sum_counts(counts, lo, hi) == sum_counts(counts, lo, mid) + sum_counts(counts, mid, hi),
    decreases hi - mid,
{
    if hi > mid {
        lemma_sum_split(counts, lo, mid, hi - 1);
    }
}

/// Adding up the per-bin counts of the bins before `s` counts the entries whose
/// bin lies before `s`.
proof fn lemma_sum_of_bin_counts(bins: Seq<usize>, counts: Seq<u32>, s: int)
    requires
        0 <= s <= counts.len(),
        forall|b: int| 0 <= b < counts.len() ==> #[trigger] counts[b] == count_in_bin(bins, b),
    ensures
        sum_counts(counts, 0, s) == count_satisfying(bins, is_below(s)),
    decreases s,
{
    if s == 0 {
        lemma_count_none(bins, is_below(s));
    } else {
        lemma_sum_of_bin_counts(bins, counts, s - 1);
        lemma_count_split(bins, is_below(s), is_below(s - 1), is_bin(s - 1));
        assert(counts[s - 1] == count_in_bin(bins, s - 1));
    }
}

/// For every bin, how many entries of `bins` lie in it.
pub fn bin_counts(bins: &[usize], num_bins: usize) -> (counts: Vec<u32>)
    requires
        bins@.len() <= u32::MAX,
        forall|i: int| 0 <= i < bins@.len() ==> #[trigger] bins@[i] < num_bins,
    ensures
        counts@.len() == num_bins,
        forall|b: int| 0 <= b < num_bins ==> #[trigger] counts@[b] == count_in_bin(bins@, b),
{
    let mut counts: Vec<u32> = Vec::with_capacity(num_bins);
    let mut b: usize = 0;
    while b < num_bins
        invariant
            b <= num_bins,
            counts@.len() == b,
            forall|k: int| 0 <= k < b ==> #[trigger] counts@[k] == 0,
        decreases num_bins - b,
    {
        counts.push(0);
        b += 1;
    }
    let mut i: usize = 0;
    while i < bins.len()
        invariant
            bins@.len() <= u32::MAX,
            forall|k: int| 0 <= k < bins@.len() ==> #[trigger] bins@[k] < num_bins,
            i <= bins@.len(),
            counts@.len() == num_bins,
            forall|k: int| 0 <= k < num_bins ==> #[trigger] counts@[k] == count_in_bin(bins@.take(i as int), k),
        decreases bins@.len() - i,
    {
        let bin = bins[i];
        proof {
            assert(bins@.take(i + 1) =~= bins@.take(i as int).push(bin));
            assert forall|k: int| 0 <= k < num_bins implies count_in_bin(bins@.take(i + 1), k) == count_in_bin(bins@.take(i as int), k) + if bin == k { 1nat } else { 0nat } by {
                lemma_count_push(bins@.take(i as int), bin, is_bin(k));
            }
            lemma_count_at_most_len(bins@.take(i as int), is_bin(bin as int));
        }
        let c = counts[bin];
        counts.set(bin, c + 1);
        i += 1;
    }
    proof {
        assert(bins@.take(bins@.len() as int) =~= bins@);
    }
    counts
}

/// For every split position `i` in `1..counts.len()`, at entry `i - 1`: how many
/// entries the bins before `i` hold and how many the bins from `i` on hold.
pub fn split_counts(counts: &[u32]) -> (splits: Vec<(u32, u32)>)
    requires
        counts@.len() >= 1,
        sum_counts(counts@, 0, counts@.len() as int) <= u32::MAX,
    ensures
        splits@.len() == counts@.len() - 1,
        forall|i: int|
            1 <= i < counts@.len() ==> (#[trigger] splits@[i - 1]).0 == sum_counts(counts@, 0, i)
                && splits@[i - 1].1 == sum_counts(counts@, i, counts@.len() as int),
{
    let n = counts.len();
    let ghost total = sum_counts(counts@, 0, n as int);
    let mut total_exec: u32 = 0;
    let mut k: usize = 0;
    while k < n
        invariant
            n == counts@.len(),
            total == sum_counts(counts@, 0, n as int),
            total <= u32::MAX,
            k <= n,
            total_exec == sum_counts(counts@, 0, k as int),
        decreases n - k,
    {
        proof {
            lemma_sum_split(counts@, 0, k + 1, n as int);
            assert(sum_counts(counts@, k as int, k as int) == 0);
            assert(sum_counts(counts@, k as int, k + 1) == counts@[k as int]);
            lemma_sum_split(counts@, 0, k as int, k + 1);
            assert(sum_counts(counts@, k + 1, n as int) >= 0) by {
                lemma_sum_nonneg(counts@, k + 1, n as int);
            }
        }
        total_exec = total_exec + counts[k];
        k += 1;
    }
    let mut splits: Vec<(u32, u32)> = Vec::with_capacity(n - 1);
    let mut left: u32 = counts[0];
    let mut i: usize = 1;
    proof {
        assert(sum_counts(counts@, 0, 0) == 0);
        assert(sum_counts(counts@, 0, 1) == counts@[0]);
    }
    while i < n
        invariant
            n == counts@.len(),
            total_exec == sum_counts(counts@, 0, n as int),
            total_exec <= u32::MAX,
            1 <= i <= n,
            left == sum_counts(counts@, 0, i as int),
            splits@.len() == i - 1,
            forall|j: int|
                1 <= j < i ==> (#[trigger] splits@[j - 1]).0 == sum_counts(counts@, 0, j)
                    && splits@[j - 1].1 == sum_counts(counts@, j, n as int),
        decreases n - i,
    {
        proof {
            lemma_sum_split(counts@, 0, i as int, n as int);
            lemma_sum_nonneg(counts@, i as int, n as int);
            lemma_sum_split(counts@, 0, i + 1, n as int);
            lemma_sum_nonneg(counts@, i + 1, n as int);
            assert(sum_counts(counts@, 0, i + 1) == sum_counts(counts@, 0, i as int) + counts@[i as int]);
        }
        splits.push((left, total_exec - left));
        left = left + counts[i];
        i += 1;
    }
    splits
}

proof fn lemma_sum_nonneg(counts: Seq<u32>, lo: int, hi: int)
    ensures
        sum_counts(counts, lo, hi) >= 0,
    decreases hi - lo,
{
    if hi > lo {
        lemma_sum_nonneg(counts, lo, hi - 1);
    }
}

/// The split that binned SAH keeps, one with entries on both sides, always
/// leaves both children non-empty: partitioning by "bin before `s`" puts exactly
/// the left count of entries first. Here `bin_of` gives each entry's bin,
/// `counts` are the per-bin counts of the entries in `before`, and `after`,
/// `split` are what `partition` left and returned for that predicate.
pub proof fn lemma_sah_split_children_nonempty<T>(
    before: Seq<T>,
    after: Seq<T>,
    split: int,
    bin_of: spec_fn(T) -> usize,
    counts: Seq<u32>,
    s: int,
)
    requires
        0 < s < counts.len(),
        forall|k: int| 0 <= k < before.len() ==> #[trigger] bin_of(before[k]) < counts.len(),
        forall|b: int|
            0 <= b < counts.len() ==> #[trigger] counts[b] == count_in_bin(before.map_values(bin_of), b),
        sum_counts(counts, 0, s) > 0,
        sum_counts(counts, s, counts.len() as int) > 0,
        after.to_multiset() == before.to_multiset(),
        0 <= split < after.len(),
        forall|k: int| 0 <= k < split ==> #[trigger] bin_of(after[k]) < s,
        forall|k: int| split < k < after.len() ==> !(#[trigger] bin_of(after[k]) < s),
        split == after.len() - 1 || !(bin_of(after[split]) < s),
    ensures
        split == sum_counts(counts, 0, s),
        0 < split < before.len(),
{
    let bins = before.map_values(bin_of);
    let p = |x: T| bin_of(x) < s;
    lemma_partition_point_is_count(before, after, split, p);
    lemma_sum_of_bin_counts(bins, counts, s);
    lemma_sum_of_bin_counts(bins, counts, counts.len() as int);
    assert forall|k: int| 0 <= k < bins.len() implies is_below(counts.len() as int)(#[trigger] bins[k]) by {
        assert(bin_of(before[k]) < counts.len());
    }
    lemma_count_all(bins, is_below(counts.len() as int));
    lemma_sum_split(counts, 0, s, counts.len() as int);
    lemma_count_of_map(before, bin_of, is_below(s), p);
}

proof fn lemma_count_of_map<T>(s: Seq<T>, f: spec_fn(T) -> usize, q: spec_fn(usize) -> bool, p: spec_fn(T) -> bool)
    requires
        forall|x: T| #[trigger] p(x) == q(f(x)),
    ensures
        count_satisfying(s.map_values(f), q) == count_satisfying(s, p),
    decreases s.len(),
{
    if s.len() > 0 {
        lemma_count_of_map(s.drop_last(), f, q, p);
        assert(p(s.last()) == q(f(s.last())));
        assert(s.map_values(f).drop_last() =~= s.drop_last().map_values(f));
    }
}

} // verus!
