//! Lexicographic order on the suffixes of a sequence, and the length of the
//! longest common prefix of two suffixes. These spec functions are the
//! vocabulary of every contract in the crate; the lemmas here are the facts
//! about them that the algorithms rely on.

use vstd::prelude::*;

verus! {

/// The suffix of `a` starting at `i` is strictly lexicographically smaller
/// than the suffix starting at `j`.
pub open spec fn suffix_lt(a: Seq<usize>, i: int, j: int) -> bool
    recommends
        0 <= i <= a.len(),
        0 <= j <= a.len(),
    decreases a.len() - i,
{
    if i >= a.len() {
        j < a.len()
    } else if j >= a.len() {
        false
    } else if a[i] != a[j] {
        a[i] < a[j]
    } else {
        suffix_lt(a, i + 1, j + 1)
    }
}

/// Non-strict order: equal starting positions or strictly smaller.
pub open spec fn suffix_le(a: Seq<usize>, i: int, j: int) -> bool {
    i == j || suffix_lt(a, i, j)
}

/// Length of the longest common prefix of the suffixes of `a` starting at `i`
/// and at `j`.
pub open spec fn lcp_len(a: Seq<usize>, i: int, j: int) -> int
    decreases a.len() - i,
{
    if 0 <= i < a.len() && 0 <= j < a.len() && a[i] == a[j] {
        1 + lcp_len(a, i + 1, j + 1)
    } else {
        0
    }
}

/// A suffix shares with itself exactly its own length.
pub proof fn lemma_lcp_self(a: Seq<usize>, i: int)
    requires
        0 <= i <= a.len(),
    ensures
        lcp_len(a, i, i) == a.len() - i,
    decreases a.len() - i,
{
    if i < a.len() {
        lemma_lcp_self(a, i + 1);
    }
}

/// The longest common prefix does not depend on the order of the two suffixes.
pub proof fn lemma_lcp_sym(a: Seq<usize>, i: int, j: int)
    ensures
        lcp_len(a, i, j) == lcp_len(a, j, i),
    decreases a.len() - i + (a.len() - j),
{
    if 0 <= i < a.len() && 0 <= j < a.len() && a[i] == a[j] {
        lemma_lcp_sym(a, i + 1, j + 1);
    }
}

/// A common prefix is no longer than either suffix.
pub proof fn lemma_lcp_bound(a: Seq<usize>, i: int, j: int)
    requires
        0 <= i <= a.len(),
        0 <= j <= a.len(),
    ensures
        0 <= lcp_len(a, i, j),
        lcp_len(a, i, j) <= a.len() - i,
        lcp_len(a, i, j) <= a.len() - j,
    decreases a.len() - i,
{
    if 0 <= i < a.len() && 0 <= j < a.len() && a[i] == a[j] {
        lemma_lcp_bound(a, i + 1, j + 1);
    }
}

/// `lcp_len` is at least `h` exactly when the two suffixes agree position by
/// position over the first `h` symbols.
pub proof fn lemma_lcp_ge(a: Seq<usize>, i: int, j: int, h: int)
    requires
        0 <= i,
        0 <= j,
        0 <= h,
        i + h <= a.len(),
        j + h <= a.len(),
        forall|p: int| 0 <= p < h ==> #[trigger] a[i + p] == a[j + p],
    ensures
        lcp_len(a, i, j) >= h,
    decreases h,
{
    lemma_lcp_bound(a, i, j);
    if h > 0 {
        assert(a[i] == a[j]) by {
            assert(a[i + 0] == a[j + 0]);
        }
        assert forall|p: int| 0 <= p < h - 1 implies #[trigger] a[(i + 1) + p] == a[(j + 1)
            + p] by {
            assert(a[i + (p + 1)] == a[j + (p + 1)]);
            assert((i + 1) + p == i + (p + 1) && (j + 1) + p == j + (p + 1));
        }
        lemma_lcp_ge(a, i + 1, j + 1, h - 1);
        assert(lcp_len(a, i, j) == 1 + lcp_len(a, i + 1, j + 1));
    }
}

/// Conversely, the two suffixes agree over their longest common prefix, and
/// the first position after it (if both suffixes reach it) differs.
pub proof fn lemma_lcp_agree(a: Seq<usize>, i: int, j: int)
    requires
        0 <= i <= a.len(),
        0 <= j <= a.len(),
    ensures
        forall|p: int|
            0 <= p < lcp_len(a, i, j) ==> i + p < a.len() && j + p < a.len() && #[trigger] a[i + p]
                == a[j + p],
        i + lcp_len(a, i, j) < a.len() && j + lcp_len(a, i, j) < a.len() ==> a[i + lcp_len(a, i, j)]
            != a[j + lcp_len(a, i, j)],
    decreases a.len() - i,
{
    if 0 <= i < a.len() && 0 <= j < a.len() && a[i] == a[j] {
        lemma_lcp_agree(a, i + 1, j + 1);
        let h = lcp_len(a, i, j);
        assert(h == 1 + lcp_len(a, i + 1, j + 1));
        assert forall|p: int| 0 <= p < h implies i + p < a.len() && j + p < a.len()
            && #[trigger] a[i + p] == a[j + p] by {
            if p > 0 {
                assert(0 <= p - 1 < lcp_len(a, i + 1, j + 1));
                assert(a[(i + 1) + (p - 1)] == a[(j + 1) + (p - 1)]);
                assert(i + p == (i + 1) + (p - 1) && j + p == (j + 1) + (p - 1));
            }
        }
        if i + h < a.len() && j + h < a.len() {
            assert((i + 1) + (h - 1) < a.len() && (j + 1) + (h - 1) < a.len());
            assert(a[(i + 1) + (h - 1)] != a[(j + 1) + (h - 1)]);
            assert(i + h == (i + 1) + (h - 1) && j + h == (j + 1) + (h - 1));
        }
    }
}

/// Distinct suffixes of the same sequence are never equal, so the order is
/// total: one of the two strict comparisons holds.
pub proof fn lemma_suffix_total(a: Seq<usize>, i: int, j: int)
    requires
        0 <= i <= a.len(),
        0 <= j <= a.len(),
        i != j,
    ensures
        suffix_lt(a, i, j) || suffix_lt(a, j, i),
        !(suffix_lt(a, i, j) && suffix_lt(a, j, i)),
    decreases a.len() - i + (a.len() - j),
{
    if i < a.len() && j < a.len() && a[i] == a[j] {
        lemma_suffix_total(a, i + 1, j + 1);
    }
}

/// Strict suffix order is transitive.
pub proof fn lemma_suffix_trans(a: Seq<usize>, i: int, j: int, k: int)
    requires
        0 <= i <= a.len(),
        0 <= j <= a.len(),
        0 <= k <= a.len(),
        suffix_lt(a, i, j),
        suffix_lt(a, j, k),
    ensures
        suffix_lt(a, i, k),
    decreases a.len() - j,
{
    if i < a.len() && j < a.len() && k < a.len() && a[i] == a[j] && a[j] == a[k] {
        lemma_suffix_trans(a, i + 1, j + 1, k + 1);
    }
}

/// A suffix lexicographically between two suffixes shares at least their
/// common prefix with both of them.
pub proof fn lemma_lcp_sandwich(a: Seq<usize>, i: int, j: int, k: int)
    requires
        0 <= i <= a.len(),
        0 <= j <= a.len(),
        0 <= k <= a.len(),
        suffix_le(a, i, j),
        suffix_le(a, j, k),
    ensures
        lcp_len(a, i, j) >= lcp_len(a, i, k),
        lcp_len(a, j, k) >= lcp_len(a, i, k),
    decreases a.len() - i,
{
    lemma_lcp_bound(a, i, j);
    lemma_lcp_bound(a, j, k);
    lemma_lcp_bound(a, i, k);
    if 0 <= i < a.len() && 0 <= k < a.len() && a[i] == a[k] && lcp_len(a, i, k) > 0 {
        // The middle suffix must start with that same symbol.
        if j == a.len() {
            assert(!suffix_lt(a, i, j));
            assert(false);
        }
        if a[j] < a[i] {
            assert(i != j && !suffix_lt(a, i, j));
            assert(false);
        }
        if a[j] > a[k] {
            assert(j != k && !suffix_lt(a, j, k));
            assert(false);
        }
        assert(a[i] == a[j] && a[j] == a[k]);
        assert(suffix_le(a, i + 1, j + 1));
        assert(suffix_le(a, j + 1, k + 1));
        lemma_lcp_sandwich(a, i + 1, j + 1, k + 1);
        assert(lcp_len(a, i, j) == 1 + lcp_len(a, i + 1, j + 1));
        assert(lcp_len(a, j, k) == 1 + lcp_len(a, j + 1, k + 1));
        assert(lcp_len(a, i, k) == 1 + lcp_len(a, i + 1, k + 1));
    }
}

/// For suffixes in sorted position `i <= j <= k`, the common prefix of the
/// outer pair is the shorter of the common prefixes of the two inner pairs.
pub proof fn lemma_lcp_min(a: Seq<usize>, i: int, j: int, k: int)
    requires
        0 <= i <= a.len(),
        0 <= j <= a.len(),
        0 <= k <= a.len(),
        suffix_le(a, i, j),
        suffix_le(a, j, k),
    ensures
        lcp_len(a, i, k) == if lcp_len(a, i, j) <= lcp_len(a, j, k) {
            lcp_len(a, i, j)
        } else {
            lcp_len(a, j, k)
        },
{
    lemma_lcp_sandwich(a, i, j, k);
    let m = if lcp_len(a, i, j) <= lcp_len(a, j, k) {
        lcp_len(a, i, j)
    } else {
        lcp_len(a, j, k)
    };
    lemma_lcp_bound(a, i, j);
    lemma_lcp_bound(a, j, k);
    lemma_lcp_agree(a, i, j);
    lemma_lcp_agree(a, j, k);
    assert forall|p: int| 0 <= p < m implies #[trigger] a[i + p] == a[k + p] by {
        assert(a[i + p] == a[j + p]);
        assert(a[j + p] == a[k + p]);
    }
    lemma_lcp_ge(a, i, k, m);
}

} // verus!
