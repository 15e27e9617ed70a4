//! Nesting of brackets in a sequence of operations.
//!
//! A sequence is looked at through the change of depth that each of its
//! elements makes: `1` for an opening bracket, `-1` for a closing bracket
//! and `0` for anything else.
use vstd::prelude::*;

verus! {

/// Every element changes the depth by one at most.
pub open spec fn is_bracket_word(b: Seq<int>) -> bool {
    forall|i: int| 0 <= i < b.len() ==> -1 <= #[trigger] b[i] <= 1
}

/// The nesting depth in front of position `k`: openings minus closings
/// among the first `k` elements.
pub open spec fn depth(b: Seq<int>, k: int) -> int
    decreases k,
{
    if k <= 0 {
        0
    } else {
        depth(b, k - 1) + b[k - 1]
    }
}

/// No prefix closes more than it opens, and the whole closes all it opens.
pub open spec fn balanced(b: Seq<int>) -> bool {
    &&& forall|k: int| 0 <= k <= b.len() ==> depth(b, k) >= 0
    &&& depth(b, b.len() as int) == 0
}

/// `j` is the first position from `i` on behind which the depth is what it
/// was in front of `i`. For an opening bracket at `i` this is its closing
/// bracket.
pub open spec fn is_match_end(b: Seq<int>, i: int, j: int) -> bool {
    &&& 0 <= i <= j < b.len()
    &&& depth(b, j + 1) == depth(b, i)
    &&& forall|k: int| i < k <= j ==> #[trigger] depth(b, k) != depth(b, i)
}

/// `j` is the last position up to `i` in front of which the depth is what
/// it is behind `i`. For a closing bracket at `i` this is its opening
/// bracket.
pub open spec fn is_match_start(b: Seq<int>, i: int, j: int) -> bool {
    &&& 0 <= j <= i < b.len()
    &&& depth(b, j) == depth(b, i + 1)
    &&& forall|k: int| j < k <= i ==> #[trigger] depth(b, k) != depth(b, i + 1)
}

/// Whether the depth comes back, from `i` on, to what it was in front of
/// `i`.
pub open spec fn has_match_end(b: Seq<int>, i: int) -> bool {
    exists|j: int| is_match_end(b, i, j)
}

/// Whether the depth is, somewhere up to `i`, what it is behind `i`.
pub open spec fn has_match_start(b: Seq<int>, i: int) -> bool {
    exists|j: int| is_match_start(b, i, j)
}

/// The position that `is_match_end` singles out.
pub open spec fn match_end(b: Seq<int>, i: int) -> int {
    choose|j: int| is_match_end(b, i, j)
}

/// The position that `is_match_start` singles out.
pub open spec fn match_start(b: Seq<int>, i: int) -> int {
    choose|j: int| is_match_start(b, i, j)
}

/// Every opening bracket has a closing one and the other way round.
pub open spec fn all_matched(b: Seq<int>) -> bool {
    forall|i: int|
        0 <= i < b.len() ==> (#[trigger] b[i] == 1 ==> has_match_end(b, i)) && (b[i] == -1
            ==> has_match_start(b, i))
}

/// At most one position matches.
pub proof fn lemma_match_end_unique(b: Seq<int>, i: int, j1: int, j2: int)
    requires
        is_match_end(b, i, j1),
        is_match_end(b, i, j2),
    ensures
        j1 == j2,
{
}

/// At most one position matches.
pub proof fn lemma_match_start_unique(b: Seq<int>, i: int, j1: int, j2: int)
    requires
        is_match_start(b, i, j1),
        is_match_start(b, i, j2),
    ensures
        j1 == j2,
{
}

/// The depth in front of a position is no more than the position.
pub proof fn lemma_depth_bound(b: Seq<int>, k: int)
    requires
        is_bracket_word(b),
        0 <= k <= b.len(),
    ensures
        -k <= depth(b, k) <= k,
    decreases k,
{
    if k > 0 {
        lemma_depth_bound(b, k - 1);
    }
}

/// A closing bracket matches an opening bracket exactly if the opening
/// bracket matches it.
pub proof fn lemma_match_symmetric(b: Seq<int>, i: int, j: int)
    ensures
        is_match_end(b, i, j) == is_match_start(b, j, i),
{
}

/// From a position behind which the depth is above `t`, the depth comes
/// back to `t` for the first time at some position before `n`, if it is at
/// most `t` in front of `n`.
proof fn lemma_first_return(b: Seq<int>, i: int, t: int, k: int, n: int) -> (j: int)
    requires
        is_bracket_word(b),
        0 <= i <= k < n <= b.len(),
        depth(b, n) <= t,
        forall|m: int| i < m <= k ==> #[trigger] depth(b, m) > t,
    ensures
        k <= j < n,
        depth(b, j + 1) <= t,
        j > i ==> depth(b, j + 1) == t,
        forall|m: int| i < m <= j ==> #[trigger] depth(b, m) > t,
    decreases n - k,
{
    if depth(b, k + 1) <= t {
        assert(depth(b, k + 1) == depth(b, k) + b[k]);
        assert(k > i ==> depth(b, k) > t);
        k
    } else {
        lemma_first_return(b, i, t, k + 1, n)
    }
}

/// Going back from a position in front of which the depth is above `t`,
/// the depth is `t` for the first time at some position, if it is at most
/// `t` in front of `lo`.
proof fn lemma_last_leave(b: Seq<int>, i: int, t: int, k: int, lo: int) -> (j: int)
    requires
        is_bracket_word(b),
        0 <= lo <= k <= i < b.len(),
        depth(b, lo) <= t,
        forall|m: int| k < m <= i ==> #[trigger] depth(b, m) > t,
    ensures
        lo <= j <= k,
        depth(b, j) <= t,
        j < i ==> depth(b, j) == t,
        forall|m: int| j < m <= i ==> #[trigger] depth(b, m) > t,
    decreases k - lo,
{
    if depth(b, k) <= t {
        assert(depth(b, k + 1) == depth(b, k) + b[k]);
        assert(k < i ==> depth(b, k + 1) > t);
        k
    } else {
        lemma_last_leave(b, i, t, k - 1, lo)
    }
}

/// In a balanced sequence every opening bracket has its closing bracket,
/// which stands behind it.
pub proof fn lemma_balanced_has_match_end(b: Seq<int>, i: int)
    requires
        is_bracket_word(b),
        balanced(b),
        0 <= i < b.len(),
        b[i] == 1,
    ensures
        has_match_end(b, i),
        i < match_end(b, i) < b.len(),
        b[match_end(b, i)] == -1,
        is_match_end(b, i, match_end(b, i)),
{
    let t = depth(b, i);
    let j = lemma_first_return(b, i, t, i, b.len() as int);
    assert(depth(b, i + 1) == t + 1);
    assert(is_match_end(b, i, j));
    let c = match_end(b, i);
    lemma_match_end_unique(b, i, j, c);
    assert(depth(b, c) > t);
}

/// In a balanced sequence every closing bracket has its opening bracket,
/// which stands in front of it.
pub proof fn lemma_balanced_has_match_start(b: Seq<int>, i: int)
    requires
        is_bracket_word(b),
        balanced(b),
        0 <= i < b.len(),
        b[i] == -1,
    ensures
        has_match_start(b, i),
        0 <= match_start(b, i) < i,
        b[match_start(b, i)] == 1,
        is_match_start(b, i, match_start(b, i)),
{
    let t = depth(b, i + 1);
    assert(depth(b, i) == t + 1);
    assert(depth(b, 0) == 0);
    let j = lemma_last_leave(b, i, t, i, 0);
    assert(is_match_start(b, i, j));
    let o = match_start(b, i);
    lemma_match_start_unique(b, i, j, o);
    assert(depth(b, o + 1) > t);
}

/// A balanced sequence has all its brackets matched.
pub proof fn lemma_balanced_all_matched(b: Seq<int>)
    requires
        is_bracket_word(b),
        balanced(b),
    ensures
        all_matched(b),
{
    assert forall|i: int| 0 <= i < b.len() implies (#[trigger] b[i] == 1 ==> has_match_end(b, i))
        && (b[i] == -1 ==> has_match_start(b, i)) by {
        if b[i] == 1 {
            lemma_balanced_has_match_end(b, i);
        }
        if b[i] == -1 {
            lemma_balanced_has_match_start(b, i);
        }
    }
}


/// The sequence with the `w` elements from `lo` on replaced by one element
/// that is no bracket.
pub open spec fn spliced(b: Seq<int>, lo: int, w: int) -> Seq<int> {
    b.subrange(0, lo).push(0) + b.subrange(lo + w, b.len() as int)
}

/// Where a position that is not inside the replaced part is found after
/// the replacement.
pub open spec fn moved(p: int, lo: int, w: int) -> int {
    if p <= lo {
        p
    } else {
        p - (w - 1)
    }
}

/// The `w` elements from `lo` on close all that they open.
pub open spec fn is_level_window(b: Seq<int>, lo: int, w: int) -> bool {
    &&& 0 <= lo
    &&& 1 <= w
    &&& lo + w <= b.len()
    &&& depth(b, lo + w) == depth(b, lo)
}

/// Replacing a part that closes all that it opens keeps the depth at every
/// position outside of it.
pub proof fn lemma_spliced_depth(b: Seq<int>, lo: int, w: int, k: int)
    requires
        is_level_window(b, lo, w),
        0 <= k <= b.len() - (w - 1),
    ensures
        depth(spliced(b, lo, w), k) == depth(
            b,
            if k <= lo {
                k
            } else {
                k + (w - 1)
            },
        ),
    decreases k,
{
    let b2 = spliced(b, lo, w);
    if k > 0 {
        lemma_spliced_depth(b, lo, w, k - 1);
        assert(depth(b2, k) == depth(b2, k - 1) + b2[k - 1]);
        if k <= lo {
            assert(b2[k - 1] == b[k - 1]);
        } else if k == lo + 1 {
            assert(b2[lo] == 0);
        } else {
            assert(b2[k - 1] == b[k - 1 + (w - 1)]);
            assert(depth(b, k + (w - 1)) == depth(b, k - 1 + (w - 1)) + b[k - 1 + (w - 1)]);
        }
    }
}

/// Replacing a part that closes all that it opens keeps the sequence
/// balanced.
pub proof fn lemma_spliced_balanced(b: Seq<int>, lo: int, w: int)
    requires
        is_bracket_word(b),
        balanced(b),
        is_level_window(b, lo, w),
    ensures
        is_bracket_word(spliced(b, lo, w)),
        balanced(spliced(b, lo, w)),
        spliced(b, lo, w).len() == b.len() - (w - 1),
{
    let b2 = spliced(b, lo, w);
    assert forall|i: int| 0 <= i < b2.len() implies -1 <= #[trigger] b2[i] <= 1 by {
        if i < lo {
            assert(b2[i] == b[i]);
        } else if i > lo {
            assert(b2[i] == b[i + (w - 1)]);
        }
    }
    assert forall|k: int| 0 <= k <= b2.len() implies depth(b2, k) >= 0 by {
        lemma_spliced_depth(b, lo, w, k);
    }
    lemma_spliced_depth(b, lo, w, b2.len() as int);
}

/// Brackets outside of a replaced part that closes all that it opens keep
/// their partners.
pub proof fn lemma_spliced_match(b: Seq<int>, lo: int, w: int, i: int, j: int)
    requires
        is_level_window(b, lo, w),
        is_match_end(b, i, j),
        i < lo || i >= lo + w,
        j < lo || j >= lo + w,
    ensures
        is_match_end(spliced(b, lo, w), moved(i, lo, w), moved(j, lo, w)),
{
    let b2 = spliced(b, lo, w);
    let i2 = moved(i, lo, w);
    let j2 = moved(j, lo, w);
    lemma_spliced_depth(b, lo, w, i2);
    lemma_spliced_depth(b, lo, w, j2 + 1);
    assert forall|k: int| i2 < k <= j2 implies #[trigger] depth(b2, k) != depth(b2, i2) by {
        lemma_spliced_depth(b, lo, w, k);
        let back = if k <= lo {
            k
        } else {
            k + (w - 1)
        };
        assert(i < back <= j);
        assert(depth(b, back) != depth(b, i));
    }
}

} // verus!
