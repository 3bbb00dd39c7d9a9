//! Cartesian trees over an array of keys, and Euler tours of them. The tree
//! is laid out in arrays of child indices; a subtree over the interval
//! `[lo, hi]` of positions has its in-order traversal equal to `lo..=hi`,
//! which pins the shape down completely.

use vstd::prelude::*;

verus! {

/// `v` roots a well-formed binary tree over exactly the positions
/// `lo..=hi`: the left subtree holds the positions before `v`, the right
/// subtree those after it.
pub open spec fn is_tree(
    l: Seq<Option<usize>>,
    r: Seq<Option<usize>>,
    v: usize,
    lo: int,
    hi: int,
) -> bool
    decreases hi - lo,
{
    &&& 0 <= lo <= v <= hi
    &&& hi < l.len()
    &&& l.len() == r.len()
    &&& match l[v as int] {
        Some(c) => lo < v && is_tree(l, r, c, lo, v - 1),
        None => lo == v,
    }
    &&& match r[v as int] {
        Some(c) => v < hi && is_tree(l, r, c, v + 1, hi),
        None => v == hi,
    }
}

/// Every parent's key is at most its children's keys: the root of each
/// subtree carries the least key of its interval.
pub open spec fn heap_ok(
    keys: Seq<usize>,
    l: Seq<Option<usize>>,
    r: Seq<Option<usize>>,
    v: usize,
    lo: int,
    hi: int,
) -> bool
    decreases hi - lo,
{
    &&& match l[v as int] {
        Some(c) => lo < v <= hi && keys[v as int] <= keys[c as int] && heap_ok(
            keys,
            l,
            r,
            c,
            lo,
            v - 1,
        ),
        None => true,
    }
    &&& match r[v as int] {
        Some(c) => lo <= v < hi && keys[v as int] <= keys[c as int] && heap_ok(
            keys,
            l,
            r,
            c,
            v + 1,
            hi,
        ),
        None => true,
    }
}

/// The root's key bounds every key of its interval from below.
#[verifier::rlimit(100)]
pub proof fn lemma_heap_min(
    keys: Seq<usize>,
    l: Seq<Option<usize>>,
    r: Seq<Option<usize>>,
    v: usize,
    lo: int,
    hi: int,
    u: int,
)
    requires
        is_tree(l, r, v, lo, hi),
        heap_ok(keys, l, r, v, lo, hi),
        keys.len() > hi,
        lo <= u <= hi,
    ensures
        keys[v as int] <= keys[u],
    decreases hi - lo,
{
    if u < v {
        let c = l[v as int]->Some_0;
        lemma_heap_min(keys, l, r, c, lo, v - 1, u);
    } else if u > v {
        let c = r[v as int]->Some_0;
        lemma_heap_min(keys, l, r, c, v + 1, hi, u);
    }
}

/// Tree shape only depends on the child pointers inside the interval.
#[verifier::rlimit(100)]
pub proof fn lemma_tree_frame(
    l: Seq<Option<usize>>,
    r: Seq<Option<usize>>,
    l2: Seq<Option<usize>>,
    r2: Seq<Option<usize>>,
    v: usize,
    lo: int,
    hi: int,
)
    requires
        is_tree(l, r, v, lo, hi),
        l2.len() == l.len(),
        r2.len() == r.len(),
        forall|w: int| lo <= w <= hi ==> l2[w] == l[w] && r2[w] == r[w],
    ensures
        is_tree(l2, r2, v, lo, hi),
    decreases hi - lo,
{
    match l[v as int] {
        Some(c) => lemma_tree_frame(l, r, l2, r2, c, lo, v - 1),
        None => {},
    }
    match r[v as int] {
        Some(c) => lemma_tree_frame(l, r, l2, r2, c, v + 1, hi),
        None => {},
    }
}

/// So does the heap ordering.
#[verifier::rlimit(100)]
pub proof fn lemma_heap_frame(
    keys: Seq<usize>,
    l: Seq<Option<usize>>,
    r: Seq<Option<usize>>,
    l2: Seq<Option<usize>>,
    r2: Seq<Option<usize>>,
    v: usize,
    lo: int,
    hi: int,
)
    requires
        is_tree(l, r, v, lo, hi),
        heap_ok(keys, l, r, v, lo, hi),
        l2.len() == l.len(),
        r2.len() == r.len(),
        forall|w: int| lo <= w <= hi ==> l2[w] == l[w] && r2[w] == r[w],
    ensures
        heap_ok(keys, l2, r2, v, lo, hi),
    decreases hi - lo,
{
    match l[v as int] {
        Some(c) => lemma_heap_frame(keys, l, r, l2, r2, c, lo, v - 1),
        None => {},
    }
    match r[v as int] {
        Some(c) => lemma_heap_frame(keys, l, r, l2, r2, c, v + 1, hi),
        None => {},
    }
}

/// Bin tree in array form.
pub struct BinTree {
    pub root: usize,
    pub lefts: Vec<Option<usize>>,
    pub rights: Vec<Option<usize>>,
}

impl BinTree {
    /// A well-formed tree over all of `0..n` whose keys obey the heap order.
    pub open spec fn wf(self, keys: Seq<usize>) -> bool {
        &&& keys.len() >= 1
        &&& self.lefts@.len() == keys.len()
        &&& self.rights@.len() == keys.len()
        &&& self.root < keys.len()
        &&& is_tree(self.lefts@, self.rights@, self.root, 0, keys.len() - 1)
        &&& heap_ok(keys, self.lefts@, self.rights@, self.root, 0, keys.len() - 1)
    }
}

/// What one element of the right spine satisfies during construction: its
/// left subtree is complete, spans everything since the previous spine
/// element, and already obeys the heap order under it.
#[verifier::opaque]
pub open spec fn lspine_ok(
    keys: Seq<usize>,
    l: Seq<Option<usize>>,
    r: Seq<Option<usize>>,
    v: usize,
    lo: int,
) -> bool {
    match l[v as int] {
        Some(c) => lo < v && is_tree(l, r, c, lo, v - 1) && heap_ok(keys, l, r, c, lo, v - 1)
            && keys[v as int] <= keys[c as int],
        None => lo == v,
    }
}

/// Left interval boundary of spine element `p`: one past the previous spine
/// element, or zero for the bottom element.
pub open spec fn spine_lo(spine: Seq<usize>, p: int) -> int {
    if p == 0 {
        0
    } else {
        spine[p - 1] + 1
    }
}

/// The invariant of the whole spine stack.
#[verifier::opaque]
pub open spec fn spine_ok(
    keys: Seq<usize>,
    l: Seq<Option<usize>>,
    r: Seq<Option<usize>>,
    spine: Seq<usize>,
    n: int,
) -> bool {
    &&& spine.len() >= 1
    &&& l.len() == n && r.len() == n && keys.len() == n
    &&& forall|p: int| 0 <= p < spine.len() ==> spine[p] < n
    &&& forall|p: int| #![trigger spine[p - 1], spine[p]] 0 < p < spine.len() ==> spine[p - 1] < spine[p]
    &&& forall|p: int|
        #![trigger keys[spine[p - 1] as int], keys[spine[p] as int]]
        0 < p < spine.len() ==> keys[spine[p - 1] as int] < keys[spine[p] as int]
    &&& forall|p: int|
        #![trigger spine[p], spine[p + 1]]
        0 <= p < spine.len() - 1 ==> r[spine[p] as int] == Some(spine[p + 1])
    &&& r[spine[spine.len() - 1] as int] is None
    &&& forall|p: int|
        0 <= p < spine.len() ==> lspine_ok(keys, l, r, #[trigger] spine[p] as usize, spine_lo(
            spine,
            p,
        ))
}

/// Collapsing the spine right to left yields one well-formed heap-ordered
/// tree per spine element, each spanning from its left boundary to the end.
#[verifier::rlimit(100)]
proof fn lemma_spine_collapse(
    keys: Seq<usize>,
    l: Seq<Option<usize>>,
    r: Seq<Option<usize>>,
    spine: Seq<usize>,
    n: int,
    p: int,
)
    requires
        spine_ok(keys, l, r, spine, n),
        0 <= p < spine.len(),
        spine[spine.len() - 1] == n - 1,
    ensures
        is_tree(l, r, spine[p] as usize, spine_lo(spine, p), n - 1),
        heap_ok(keys, l, r, spine[p] as usize, spine_lo(spine, p), n - 1),
    decreases spine.len() - p,
{
    reveal(spine_ok);
    reveal(lspine_ok);
    let v = spine[p] as usize;
    if p == spine.len() - 1 {
        assert(r[v as int] is None);
    } else {
        lemma_spine_collapse(keys, l, r, spine, n, p + 1);
        assert(r[v as int] == Some(spine[p + 1]));
        assert(keys[v as int] < keys[spine[p + 1] as int]);
    }
}

/// Spine positions increase from bottom to top.
#[verifier::rlimit(100)]
proof fn lemma_spine_increasing(spine: Seq<usize>, p1: int, p2: int)
    requires
        0 <= p1 <= p2 < spine.len(),
        forall|p: int|
            #![trigger spine[p - 1], spine[p]]
            0 < p < spine.len() ==> spine[p - 1] < spine[p],
    ensures
        spine[p1] <= spine[p2],
        p1 < p2 ==> spine[p1] < spine[p2],
    decreases p2 - p1,
{
    if p1 < p2 {
        lemma_spine_increasing(spine, p1, p2 - 1);
        assert(spine[p2 - 1] < spine[p2]);
    }
}

/// A spine element's completed left subtree survives updates outside its
/// interval.
#[verifier::rlimit(100)]
#[verifier::spinoff_prover]
proof fn lemma_lspine_frame(
    keys: Seq<usize>,
    pre_l: Seq<Option<usize>>,
    pre_r: Seq<Option<usize>>,
    l2: Seq<Option<usize>>,
    r2: Seq<Option<usize>>,
    v: usize,
    lo: int,
)
    requires
        lspine_ok(keys, pre_l, pre_r, v, lo),
        l2.len() == pre_l.len(),
        r2.len() == pre_r.len(),
        v < pre_l.len(),
        forall|w: int| lo <= w < v ==> l2[w] == pre_l[w] && r2[w] == pre_r[w],
        l2[v as int] == pre_l[v as int],
    ensures
        lspine_ok(keys, l2, r2, v, lo),
{
    reveal(lspine_ok);
    match pre_l[v as int] {
        Some(c) => {
            lemma_tree_frame(pre_l, pre_r, l2, r2, c, lo, v - 1);
            lemma_heap_frame(keys, pre_l, pre_r, l2, r2, c, lo, v - 1);
            assert(l2[v as int] == pre_l[v as int]);
        },
        None => {
            assert(l2[v as int] == pre_l[v as int]);
        },
    }
}

/// One kept spine element keeps its completed left subtree.
#[verifier::rlimit(100)]
#[verifier::spinoff_prover]
proof fn lemma_spine_kept_one(
    keys: Seq<usize>,
    pre_l: Seq<Option<usize>>,
    pre_r: Seq<Option<usize>>,
    l2: Seq<Option<usize>>,
    r2: Seq<Option<usize>>,
    pre_spine: Seq<usize>,
    spine2: Seq<usize>,
    k: int,
    i: usize,
    lp: Option<usize>,
    n: int,
    q: int,
)
    requires
        spine2.len() == k + 1,
        forall|q0: int| 0 <= q0 < k ==> spine2[q0] == pre_spine[q0],
        pre_spine.len() >= 1,
        pre_l.len() == n,
        pre_r.len() == n,
        keys.len() == n,
        forall|p: int| 0 <= p < pre_spine.len() ==> pre_spine[p] < n,
        forall|p: int|
            #![trigger pre_spine[p - 1], pre_spine[p]]
            0 < p < pre_spine.len() ==> pre_spine[p - 1] < pre_spine[p],
        forall|p: int|
            0 <= p < pre_spine.len() ==> lspine_ok(keys, pre_l, pre_r, #[trigger] pre_spine[p] as usize, spine_lo(
                pre_spine,
                p,
            )),
        1 <= i < n,
        0 <= k <= pre_spine.len(),
        0 <= q < k,
        pre_spine[pre_spine.len() - 1] == i - 1,
        l2 == pre_l.update(i as int, lp),
        r2 == if k > 0 {
            pre_r.update(pre_spine[k - 1] as int, Some(i))
        } else {
            pre_r
        },
    ensures
        lspine_ok(keys, l2, r2, spine2[q] as usize, spine_lo(spine2, q)),
{
    assert(spine_lo(spine2, q) == spine_lo(pre_spine, q));
    lemma_spine_increasing(pre_spine, q, k - 1);
    lemma_spine_increasing(pre_spine, q, pre_spine.len() - 1);
    assert(pre_spine[q] <= i - 1);
    assert(forall|w: int|
        spine_lo(pre_spine, q) <= w < pre_spine[q] ==> l2[w] == pre_l[w] && r2[w] == pre_r[w]);
    assert(l2[pre_spine[q] as int] == pre_l[pre_spine[q] as int]);
    lemma_lspine_frame(keys, pre_l, pre_r, l2, r2, pre_spine[q] as usize, spine_lo(pre_spine, q));
}

/// One kept spine element's right child after the update: unchanged below
/// the new joint, the new position at the joint.
#[verifier::rlimit(100)]
#[verifier::spinoff_prover]
proof fn lemma_spine_chain_one(
    pre_r: Seq<Option<usize>>,
    r2: Seq<Option<usize>>,
    pre_spine: Seq<usize>,
    spine2: Seq<usize>,
    k: int,
    i: usize,
    q: int,
)
    requires
        spine2.len() == k + 1,
        forall|q0: int| 0 <= q0 < k ==> spine2[q0] == pre_spine[q0],
        spine2[k] == i,
        0 <= k <= pre_spine.len(),
        0 <= q < spine2.len() - 1,
        forall|p: int|
            #![trigger pre_spine[p - 1], pre_spine[p]]
            0 < p < pre_spine.len() ==> pre_spine[p - 1] < pre_spine[p],
        forall|p: int|
            #![trigger pre_spine[p], pre_spine[p + 1]]
            0 <= p < pre_spine.len() - 1 ==> pre_r[pre_spine[p] as int] == Some(pre_spine[p + 1]),
        forall|p: int| 0 <= p < pre_spine.len() ==> pre_spine[p] < pre_r.len(),
        r2 == if k > 0 {
            pre_r.update(pre_spine[k - 1] as int, Some(i))
        } else {
            pre_r
        },
    ensures
        r2[spine2[q] as int] == Some(spine2[q + 1]),
{
    if q < k - 1 {
        lemma_spine_increasing(pre_spine, q, k - 1);
        assert(pre_spine[q] != pre_spine[k - 1]);
        assert(r2[spine2[q] as int] == pre_r[pre_spine[q] as int]);
    } else {
        assert(spine2[q] == pre_spine[k - 1] && spine2[q + 1] == i);
    }
}

/// The kept spine elements keep their completed left subtrees and their
/// right-child chain after the two pointer updates for the new position.
#[verifier::rlimit(100)]
#[verifier::spinoff_prover]
proof fn lemma_spine_parts(
    keys: Seq<usize>,
    pre_l: Seq<Option<usize>>,
    pre_r: Seq<Option<usize>>,
    l2: Seq<Option<usize>>,
    r2: Seq<Option<usize>>,
    pre_spine: Seq<usize>,
    spine2: Seq<usize>,
    k: int,
    i: usize,
    lp: Option<usize>,
    n: int,
)
    requires
        spine2.len() == k + 1,
        forall|q: int| 0 <= q < k ==> spine2[q] == pre_spine[q],
        spine2[k] == i,
        pre_spine.len() >= 1,
        pre_l.len() == n,
        pre_r.len() == n,
        keys.len() == n,
        forall|p: int| 0 <= p < pre_spine.len() ==> pre_spine[p] < n,
        forall|p: int|
            #![trigger pre_spine[p - 1], pre_spine[p]]
            0 < p < pre_spine.len() ==> pre_spine[p - 1] < pre_spine[p],
        forall|p: int|
            0 <= p < pre_spine.len() ==> lspine_ok(keys, pre_l, pre_r, #[trigger] pre_spine[p] as usize, spine_lo(
                pre_spine,
                p,
            )),
        forall|p: int|
            #![trigger pre_spine[p], pre_spine[p + 1]]
            0 <= p < pre_spine.len() - 1 ==> pre_r[pre_spine[p] as int] == Some(pre_spine[p + 1]),
        pre_spine[pre_spine.len() - 1] == i - 1,
        1 <= i < n,
        0 <= k <= pre_spine.len(),
        forall|w: int| i <= w < n ==> pre_l[w] is None && pre_r[w] is None,
        match lp {
            Some(c) => k < pre_spine.len() && c == pre_spine[k] && is_tree(
                pre_l,
                pre_r,
                c,
                spine_lo(pre_spine, k),
                i - 1,
            ) && heap_ok(keys, pre_l, pre_r, c, spine_lo(pre_spine, k), i - 1) && keys[c as int]
                >= keys[i as int],
            None => k == pre_spine.len(),
        },
        l2 == pre_l.update(i as int, lp),
        r2 == if k > 0 {
            pre_r.update(pre_spine[k - 1] as int, Some(i))
        } else {
            pre_r
        },
    ensures
        forall|q: int|
            0 <= q < k ==> lspine_ok(keys, l2, r2, #[trigger] spine2[q] as usize, spine_lo(
                spine2,
                q,
            )),
        lspine_ok(keys, l2, r2, i, spine_lo(spine2, k)),
        forall|q: int|
            0 <= q < spine2.len() - 1 ==> r2[#[trigger] spine2[q] as int] == Some(spine2[q + 1]),
        r2[i as int] is None,
{
    assert forall|q: int|
        0 <= q < spine2.len() - 1 implies r2[#[trigger] spine2[q] as int] == Some(
        spine2[q + 1],
    ) by {
        lemma_spine_chain_one(pre_r, r2, pre_spine, spine2, k, i, q);
    }
    assert(r2[i as int] is None);
    assert forall|q: int| 0 <= q < k implies lspine_ok(
        keys,
        l2,
        r2,
        #[trigger] spine2[q] as usize,
        spine_lo(spine2, q),
    ) by {
        lemma_spine_kept_one(keys, pre_l, pre_r, l2, r2, pre_spine, spine2, k, i, lp, n, q);
    }
    // The new top i carries the popped chain as its completed left subtree.
    lemma_spine_newtop(keys, pre_l, pre_r, l2, r2, pre_spine, k, i, lp, n);
    assert(spine_lo(spine2, k) == spine_lo(pre_spine.subrange(0, k).push(i), k)) by {
        if k > 0 {
            assert(spine2[k - 1] == pre_spine[k - 1]);
            assert(pre_spine.subrange(0, k).push(i)[k - 1] == pre_spine[k - 1]);
        }
    }
}

/// The new top of the spine carries the popped chain, framed into the
/// updated arrays, as its completed left subtree.
#[verifier::rlimit(100)]
#[verifier::spinoff_prover]
proof fn lemma_spine_newtop(
    keys: Seq<usize>,
    pre_l: Seq<Option<usize>>,
    pre_r: Seq<Option<usize>>,
    l2: Seq<Option<usize>>,
    r2: Seq<Option<usize>>,
    pre_spine: Seq<usize>,
    k: int,
    i: usize,
    lp: Option<usize>,
    n: int,
)
    requires
        pre_spine.len() >= 1,
        pre_l.len() == n,
        pre_r.len() == n,
        keys.len() == n,
        forall|p: int| 0 <= p < pre_spine.len() ==> pre_spine[p] < n,
        forall|p: int|
            #![trigger pre_spine[p - 1], pre_spine[p]]
            0 < p < pre_spine.len() ==> pre_spine[p - 1] < pre_spine[p],
        pre_spine[pre_spine.len() - 1] == i - 1,
        1 <= i < n,
        0 <= k <= pre_spine.len(),
        forall|w: int| i <= w < n ==> pre_l[w] is None && pre_r[w] is None,
        match lp {
            Some(c) => k < pre_spine.len() && c == pre_spine[k] && is_tree(
                pre_l,
                pre_r,
                c,
                spine_lo(pre_spine, k),
                i - 1,
            ) && heap_ok(keys, pre_l, pre_r, c, spine_lo(pre_spine, k), i - 1) && keys[c as int]
                >= keys[i as int],
            None => k == pre_spine.len(),
        },
        l2 == pre_l.update(i as int, lp),
        r2 == if k > 0 {
            pre_r.update(pre_spine[k - 1] as int, Some(i))
        } else {
            pre_r
        },
    ensures
        lspine_ok(keys, l2, r2, i, spine_lo(pre_spine.subrange(0, k).push(i), k)),
{
    let spine2 = pre_spine.subrange(0, k).push(i);
    match lp {
        Some(c) => {
            assert(l2[i as int] == Some(c));
            let clo = spine_lo(pre_spine, k);
            assert(forall|w: int| clo <= w <= i - 1 ==> l2[w] == pre_l[w] && r2[w] == pre_r[w]);
            lemma_tree_frame(pre_l, pre_r, l2, r2, c, clo, i - 1);
            lemma_heap_frame(keys, pre_l, pre_r, l2, r2, c, clo, i - 1);
            assert(spine_lo(spine2, k) == clo);
            assert(lspine_ok(keys, l2, r2, i, spine_lo(spine2, k))) by {
                reveal(lspine_ok);
            }
        },
        None => {
            assert(l2[i as int] is None);
            assert(spine_lo(spine2, k) == i);
            assert(lspine_ok(keys, l2, r2, i, spine_lo(spine2, k))) by {
                reveal(lspine_ok);
            }
        },
    }
}

/// After the pops for a new position `i`, attaching the popped chain as
/// `i`'s left subtree and `i` as the surviving top's right child yields a
/// valid spine again.
#[verifier::rlimit(100)]
#[verifier::spinoff_prover]
proof fn lemma_spine_reestablish(
    keys: Seq<usize>,
    pre_l: Seq<Option<usize>>,
    pre_r: Seq<Option<usize>>,
    l2: Seq<Option<usize>>,
    r2: Seq<Option<usize>>,
    pre_spine: Seq<usize>,
    k: int,
    i: usize,
    lp: Option<usize>,
    n: int,
)
    requires
        spine_ok(keys, pre_l, pre_r, pre_spine, n),
        pre_spine[pre_spine.len() - 1] == i - 1,
        1 <= i < n,
        0 <= k <= pre_spine.len(),
        forall|w: int| i <= w < n ==> pre_l[w] is None && pre_r[w] is None,
        match lp {
            Some(c) => k < pre_spine.len() && c == pre_spine[k] && is_tree(
                pre_l,
                pre_r,
                c,
                spine_lo(pre_spine, k),
                i - 1,
            ) && heap_ok(keys, pre_l, pre_r, c, spine_lo(pre_spine, k), i - 1) && keys[c as int]
                >= keys[i as int],
            None => k == pre_spine.len(),
        },
        k > 0 ==> keys[pre_spine[k - 1] as int] < keys[i as int],
        l2 == pre_l.update(i as int, lp),
        r2 == if k > 0 {
            pre_r.update(pre_spine[k - 1] as int, Some(i))
        } else {
            pre_r
        },
    ensures
        spine_ok(keys, l2, r2, pre_spine.subrange(0, k).push(i), n),
{
    let spine2 = pre_spine.subrange(0, k).push(i);
    // Unpack the old spine's facts once.
    assert(pre_spine.len() >= 1 && pre_l.len() == n && pre_r.len() == n && keys.len() == n
        && (forall|p: int| 0 <= p < pre_spine.len() ==> pre_spine[p] < n) && (forall|p: int|
        #![trigger pre_spine[p - 1], pre_spine[p]]
        0 < p < pre_spine.len() ==> pre_spine[p - 1] < pre_spine[p]) && (forall|p: int|
        #![trigger keys[pre_spine[p - 1] as int], keys[pre_spine[p] as int]]
        0 < p < pre_spine.len() ==> keys[pre_spine[p - 1] as int] < keys[pre_spine[p] as int])
        && (forall|p: int|
        #![trigger pre_spine[p], pre_spine[p + 1]]
        0 <= p < pre_spine.len() - 1 ==> pre_r[pre_spine[p] as int] == Some(
            pre_spine[p + 1],
        )) && pre_r[pre_spine[pre_spine.len() - 1] as int] is None && (forall|p: int|
        0 <= p < pre_spine.len() ==> lspine_ok(keys, pre_l, pre_r, #[trigger] pre_spine[p] as usize, spine_lo(
            pre_spine,
            p,
        )))) by {
        reveal(spine_ok);
    }
    assert(spine2.len() == k + 1);
    assert(forall|q: int| 0 <= q < k ==> spine2[q] == pre_spine[q]);
    assert(spine2[k] == i);
    lemma_spine_parts(keys, pre_l, pre_r, l2, r2, pre_spine, spine2, k, i, lp, n);
    // Positions and keys stay strictly increasing up the new spine.
    assert forall|p: int|
        #![trigger spine2[p - 1], spine2[p]]
        #![trigger keys[spine2[p - 1] as int], keys[spine2[p] as int]]
        0 < p < spine2.len() implies spine2[p - 1] < spine2[p] && keys[spine2[p - 1] as int]
        < keys[spine2[p] as int] by {
        if p == k {
            assert(spine2[p] == i);
            assert(pre_spine[k - 1] <= pre_spine[pre_spine.len() - 1]) by {
                lemma_spine_increasing(pre_spine, k - 1, pre_spine.len() - 1);
            }
        }
    }
    assert(spine_ok(keys, l2, r2, spine2, n)) by {
        reveal(spine_ok);
    }
}

/// Cartesian tree on `0..n` by the given keys: the root holds a least key,
/// and the two sides of it hold the recursively built trees of the key
/// ranges before and after it.
/// Right-spine construction, linear time.
#[verifier::spinoff_prover]
#[verifier::rlimit(100)]
pub fn cartesian_tree(keys: &Vec<usize>) -> (t: BinTree)
    requires
        keys@.len() >= 1,
    ensures
        t.wf(keys@),
{
    let n = keys.len();
    let mut lefts: Vec<Option<usize>> = vec![None; n];
    let mut rights: Vec<Option<usize>> = vec![None; n];
    let mut spine: Vec<usize> = Vec::new();
    spine.push(0);
    proof {
        reveal(spine_ok);
        reveal(lspine_ok);
        assert(spine_ok(keys@, lefts@, rights@, spine@, n as int));
    }
    let mut i: usize = 1;
    while i < n
        invariant
            1 <= i <= n,
            n == keys@.len(),
            lefts@.len() == n,
            rights@.len() == n,
            spine_ok(keys@, lefts@, rights@, spine@, n as int),
            spine@.len() >= 1,
            forall|p: int| 0 <= p < spine@.len() ==> spine@[p] < n,
            spine@[spine@.len() - 1] == i - 1,
            forall|w: int| i <= w < n ==> lefts@[w] is None && rights@[w] is None,
            forall|w: int|
                0 <= w < n ==> (lefts@[w] is Some ==> lefts@[w]->Some_0 < i) && (rights@[w] is Some
                    ==> rights@[w]->Some_0 < i),
        decreases n - i,
    {
        let ghost pre_spine = spine@;
        let mut last_popped: Option<usize> = None;
        while spine.len() > 0 && keys[spine[spine.len() - 1]] >= keys[i]
            invariant
                1 <= i < n,
                n == keys@.len(),
                lefts@.len() == n,
                rights@.len() == n,
                spine@.len() <= pre_spine.len(),
                spine@ == pre_spine.subrange(0, spine@.len() as int),
                forall|w: int| i <= w < n ==> lefts@[w] is None && rights@[w] is None,
                forall|w: int|
                    0 <= w < n ==> (lefts@[w] is Some ==> lefts@[w]->Some_0 < i) && (rights@[w]
                        is Some ==> rights@[w]->Some_0 < i),
                spine_ok(keys@, lefts@, rights@, pre_spine, n as int),
                pre_spine.len() >= 1,
                forall|p: int| 0 <= p < pre_spine.len() ==> pre_spine[p] < n,
                pre_spine[pre_spine.len() - 1] == i - 1,
                match last_popped {
                    Some(c) => {
                        &&& spine@.len() < pre_spine.len()
                        &&& c == pre_spine[spine@.len() as int]
                        &&& is_tree(lefts@, rights@, c, spine_lo(pre_spine, spine@.len() as int), i - 1)
                        &&& heap_ok(keys@, lefts@, rights@, c, spine_lo(pre_spine, spine@.len() as int), i - 1)
                        &&& keys@[c as int] >= keys@[i as int]
                    },
                    None => spine@.len() == pre_spine.len(),
                },
            decreases spine@.len(),
        {
            let v = spine[spine.len() - 1];
            spine.pop();
            proof {
                reveal(spine_ok);
                reveal(lspine_ok);
                let p = spine@.len() as int;
                assert(v == pre_spine[p]);
                assert(lspine_ok(keys@, lefts@, rights@, v, spine_lo(pre_spine, p)));
                // The popped prefix chain forms a complete subtree of v.
                match last_popped {
                    Some(c) => {
                        assert(c == pre_spine[p + 1]);
                        assert(pre_spine[(p + 1) - 1] == v);
                        assert(rights@[pre_spine[p] as int] == Some(pre_spine[p + 1]));
                        assert(rights@[v as int] == Some(c));
                        assert(keys@[pre_spine[(p + 1) - 1] as int] < keys@[pre_spine[p
                            + 1] as int]);
                        assert(keys@[v as int] < keys@[c as int]);
                    },
                    None => {
                        assert(rights@[v as int] is None);
                        assert(v == i - 1);
                    },
                }
                assert(is_tree(lefts@, rights@, v, spine_lo(pre_spine, p), i - 1));
                assert(heap_ok(keys@, lefts@, rights@, v, spine_lo(pre_spine, p), i - 1));
            }
            last_popped = Some(v);
        }
        // The popped chain becomes the left subtree of i; the surviving top,
        // if any, adopts i as its new right child.
        let ghost pre_l = lefts@;
        let ghost pre_r = rights@;
        let ghost k = spine@.len() as int;
        lefts.set(i, last_popped);
        if spine.len() > 0 {
            let top = spine[spine.len() - 1];
            rights.set(top, Some(i));
        }
        spine.push(i);
        proof {
            lemma_spine_reestablish(
                keys@,
                pre_l,
                pre_r,
                lefts@,
                rights@,
                pre_spine,
                k,
                i,
                last_popped,
                n as int,
            );
            assert(spine@ =~= pre_spine.subrange(0, k).push(i));
            assert forall|p: int| 0 <= p < spine@.len() implies spine@[p] < n by {
                if p < k {
                    assert(spine@[p] == pre_spine[p]);
                }
            }
        }
        i += 1;
    }
    proof {
        lemma_spine_collapse(keys@, lefts@, rights@, spine@, n as int, 0);
    }
    let root = spine[0];
    BinTree { root, lefts, rights }
}


/// The Euler tour of a subtree: the root, then for each child in order the
/// child's tour followed by the root again.
pub open spec fn euler_seq(
    l: Seq<Option<usize>>,
    r: Seq<Option<usize>>,
    v: usize,
    lo: int,
    hi: int,
) -> Seq<usize>
    decreases hi - lo, 1int,
{
    seq![v] + euler_left(l, r, v, lo, hi) + euler_right(l, r, v, lo, hi)
}

/// The part of the tour contributed by the left child, if any.
pub open spec fn euler_left(
    l: Seq<Option<usize>>,
    r: Seq<Option<usize>>,
    v: usize,
    lo: int,
    hi: int,
) -> Seq<usize>
    decreases hi - lo, 0int,
{
    match l[v as int] {
        Some(c) => if lo < v && v <= hi {
            euler_seq(l, r, c, lo, v - 1).push(v)
        } else {
            Seq::empty()
        },
        None => Seq::empty(),
    }
}

/// The part of the tour contributed by the right child, if any.
pub open spec fn euler_right(
    l: Seq<Option<usize>>,
    r: Seq<Option<usize>>,
    v: usize,
    lo: int,
    hi: int,
) -> Seq<usize>
    decreases hi - lo, 0int,
{
    match r[v as int] {
        Some(c) => if lo <= v && v < hi {
            euler_seq(l, r, c, v + 1, hi).push(v)
        } else {
            Seq::empty()
        },
        None => Seq::empty(),
    }
}

/// The depths along the Euler tour, starting from depth `dep` at the root.
pub open spec fn euler_depths(
    l: Seq<Option<usize>>,
    r: Seq<Option<usize>>,
    v: usize,
    lo: int,
    hi: int,
    dep: int,
) -> Seq<int>
    decreases hi - lo, 1int,
{
    seq![dep] + euler_depths_left(l, r, v, lo, hi, dep) + euler_depths_right(l, r, v, lo, hi, dep)
}

/// Depths of the left child's part of the tour.
pub open spec fn euler_depths_left(
    l: Seq<Option<usize>>,
    r: Seq<Option<usize>>,
    v: usize,
    lo: int,
    hi: int,
    dep: int,
) -> Seq<int>
    decreases hi - lo, 0int,
{
    match l[v as int] {
        Some(c) => if lo < v && v <= hi {
            euler_depths(l, r, c, lo, v - 1, dep + 1).push(dep)
        } else {
            Seq::empty()
        },
        None => Seq::empty(),
    }
}

/// Depths of the right child's part of the tour.
pub open spec fn euler_depths_right(
    l: Seq<Option<usize>>,
    r: Seq<Option<usize>>,
    v: usize,
    lo: int,
    hi: int,
    dep: int,
) -> Seq<int>
    decreases hi - lo, 0int,
{
    match r[v as int] {
        Some(c) => if lo <= v && v < hi {
            euler_depths(l, r, c, v + 1, hi, dep + 1).push(dep)
        } else {
            Seq::empty()
        },
        None => Seq::empty(),
    }
}

/// The basic shape of a tour: its length, its end points, the range of its
/// entries, and the fact that the tour visits the root exactly at the
/// positions where the depth comes back to the root's depth.
#[verifier::rlimit(100)]
#[verifier::spinoff_prover]
pub proof fn lemma_euler_basic(
    l: Seq<Option<usize>>,
    r: Seq<Option<usize>>,
    v: usize,
    lo: int,
    hi: int,
    dep: int,
)
    requires
        is_tree(l, r, v, lo, hi),
    ensures
        euler_seq(l, r, v, lo, hi).len() == 2 * (hi - lo + 1) - 1,
        euler_depths(l, r, v, lo, hi, dep).len() == 2 * (hi - lo + 1) - 1,
        euler_seq(l, r, v, lo, hi)[0] == v,
        euler_depths(l, r, v, lo, hi, dep)[0] == dep,
        euler_seq(l, r, v, lo, hi).last() == v,
        euler_depths(l, r, v, lo, hi, dep).last() == dep,
        forall|t: int|
            0 <= t < euler_seq(l, r, v, lo, hi).len() ==> lo <= #[trigger] euler_seq(
                l,
                r,
                v,
                lo,
                hi,
            )[t] <= hi,
        forall|t: int|
            0 <= t < euler_depths(l, r, v, lo, hi, dep).len() ==> dep <= #[trigger] euler_depths(
                l,
                r,
                v,
                lo,
                hi,
                dep,
            )[t] <= dep + (hi - lo),
        forall|t: int|
            0 <= t < euler_seq(l, r, v, lo, hi).len() ==> ((euler_depths(l, r, v, lo, hi, dep)[t]
                == dep) <==> #[trigger] euler_seq(l, r, v, lo, hi)[t] == v),
    decreases hi - lo,
{
    let es = euler_seq(l, r, v, lo, hi);
    let ed = euler_depths(l, r, v, lo, hi, dep);
    let el = euler_left(l, r, v, lo, hi);
    let er = euler_right(l, r, v, lo, hi);
    let edl = euler_depths_left(l, r, v, lo, hi, dep);
    let edr = euler_depths_right(l, r, v, lo, hi, dep);
    match l[v as int] {
        Some(c) => {
            lemma_euler_basic(l, r, c, lo, v - 1, dep + 1);
        },
        None => {},
    }
    match r[v as int] {
        Some(c) => {
            lemma_euler_basic(l, r, c, v + 1, hi, dep + 1);
        },
        None => {},
    }
    assert forall|t: int| 0 <= t < es.len() implies lo <= #[trigger] es[t] <= hi && (dep <= ed[t]
        <= dep + (hi - lo)) && ((ed[t] == dep) <==> es[t] == v) by {
        if t == 0 {
        } else if t < 1 + el.len() {
            let tl = t - 1;
            if tl < el.len() - 1 + 1 {
                match l[v as int] {
                    Some(c) => {
                        if tl < euler_seq(l, r, c, lo, v - 1).len() {
                            assert(es[t] == euler_seq(l, r, c, lo, v - 1)[tl]);
                            assert(ed[t] == euler_depths(l, r, c, lo, v - 1, dep + 1)[tl]);
                        } else {
                            assert(es[t] == v && ed[t] == dep);
                        }
                    },
                    None => {},
                }
            }
        } else {
            let tr = t - 1 - el.len();
            match r[v as int] {
                Some(c) => {
                    if tr < euler_seq(l, r, c, v + 1, hi).len() {
                        assert(es[t] == euler_seq(l, r, c, v + 1, hi)[tr]);
                        assert(ed[t] == euler_depths(l, r, c, v + 1, hi, dep + 1)[tr]);
                    } else {
                        assert(es[t] == v && ed[t] == dep);
                    }
                },
                None => {},
            }
        }
    }
    assert(es.len() == ed.len());
    assert(es.len() == 2 * (hi - lo + 1) - 1);
    assert(es[0] == v && ed[0] == dep);
    if er.len() > 0 {
        assert(es.last() == er.last() && ed.last() == edr.last());
        assert(es.last() == v && ed.last() == dep);
    } else if el.len() > 0 {
        assert(es.last() == el.last() && ed.last() == edl.last());
        assert(es.last() == v && ed.last() == dep);
    } else {
        assert(es.last() == v && ed.last() == dep);
    }
}

/// Every position of the subtree's interval appears on its tour.
#[verifier::rlimit(100)]
#[verifier::spinoff_prover]
pub proof fn lemma_euler_occurs(
    l: Seq<Option<usize>>,
    r: Seq<Option<usize>>,
    v: usize,
    lo: int,
    hi: int,
    u: int,
)
    requires
        is_tree(l, r, v, lo, hi),
        lo <= u <= hi,
    ensures
        exists|t: int|
            0 <= t < euler_seq(l, r, v, lo, hi).len() && #[trigger] euler_seq(l, r, v, lo, hi)[t]
                == u,
    decreases hi - lo,
{
    let es = euler_seq(l, r, v, lo, hi);
    let el = euler_left(l, r, v, lo, hi);
    if u == v {
        assert(es[0] == u);
    } else if u < v {
        let c = l[v as int]->Some_0;
        lemma_euler_occurs(l, r, c, lo, v - 1, u);
        let t0 = choose|t0: int|
            0 <= t0 < euler_seq(l, r, c, lo, v - 1).len() && #[trigger] euler_seq(
                l,
                r,
                c,
                lo,
                v - 1,
            )[t0] == u;
        assert(es[1 + t0] == u);
    } else {
        let c = r[v as int]->Some_0;
        lemma_euler_occurs(l, r, c, v + 1, hi, u);
        let t0 = choose|t0: int|
            0 <= t0 < euler_seq(l, r, c, v + 1, hi).len() && #[trigger] euler_seq(
                l,
                r,
                c,
                v + 1,
                hi,
            )[t0] == u;
        assert(es[1 + el.len() + t0] == u);
    }
}

/// Consecutive entries differ by exactly one.
pub open spec fn steps_pm1(s: Seq<int>) -> bool {
    forall|t: int|
        #![trigger s[t], s[t + 1]]
        0 <= t < s.len() - 1 ==> (s[t + 1] == s[t] + 1 || s[t + 1] == s[t] - 1)
}

/// Concatenation keeps unit steps when the seam also steps by one.
#[verifier::rlimit(100)]
#[verifier::spinoff_prover]
proof fn lemma_pm1_concat(s1: Seq<int>, s2: Seq<int>)
    requires
        steps_pm1(s1),
        steps_pm1(s2),
        s1.len() > 0 && s2.len() > 0 ==> (s2[0] == s1.last() + 1 || s2[0] == s1.last() - 1),
    ensures
        steps_pm1(s1 + s2),
{
    let s = s1 + s2;
    assert forall|t: int|
        #![trigger s[t], s[t + 1]]
        0 <= t < s.len() - 1 implies (s[t + 1] == s[t] + 1 || s[t + 1] == s[t] - 1) by {
        if t + 1 < s1.len() {
            assert(s[t] == s1[t] && s[t + 1] == s1[t + 1]);
        } else if t + 1 == s1.len() {
            assert(s[t] == s1[t] && s[t + 1] == s2[0]);
            assert(s1[t] == s1.last());
        } else {
            assert(s[t] == s2[t - s1.len()] && s[t + 1] == s2[t + 1 - s1.len()]);
            assert(s2[(t - s1.len()) + 1] == s2[t - s1.len()] + 1 || s2[(t - s1.len()) + 1] == s2[t
                - s1.len()] - 1);
        }
    }
}

/// Along a tour, consecutive depths differ by exactly one: each step of the
/// walk crosses exactly one edge of the tree.
#[verifier::rlimit(100)]
#[verifier::spinoff_prover]
pub proof fn lemma_euler_pm1(
    l: Seq<Option<usize>>,
    r: Seq<Option<usize>>,
    v: usize,
    lo: int,
    hi: int,
    dep: int,
)
    requires
        is_tree(l, r, v, lo, hi),
    ensures
        steps_pm1(euler_depths(l, r, v, lo, hi, dep)),
    decreases hi - lo,
{
    let ed = euler_depths(l, r, v, lo, hi, dep);
    let edl = euler_depths_left(l, r, v, lo, hi, dep);
    let edr = euler_depths_right(l, r, v, lo, hi, dep);
    lemma_euler_basic(l, r, v, lo, hi, dep);
    match l[v as int] {
        Some(c) => {
            lemma_euler_pm1(l, r, c, lo, v - 1, dep + 1);
            lemma_euler_basic(l, r, c, lo, v - 1, dep + 1);
            let dl = euler_depths(l, r, c, lo, v - 1, dep + 1);
            assert(edl == dl + seq![dep]) by {
                assert(edl == dl.push(dep));
                assert(dl.push(dep) =~= dl + seq![dep]);
            }
            assert(steps_pm1(seq![dep])) by {
                assert(seq![dep].len() == 1);
            }
            lemma_pm1_concat(dl, seq![dep]);
            assert(steps_pm1(edl));
        },
        None => {
            assert(edl =~= Seq::<int>::empty());
            assert(steps_pm1(edl));
        },
    }
    match r[v as int] {
        Some(c) => {
            lemma_euler_pm1(l, r, c, v + 1, hi, dep + 1);
            lemma_euler_basic(l, r, c, v + 1, hi, dep + 1);
            let dr = euler_depths(l, r, c, v + 1, hi, dep + 1);
            assert(edr == dr + seq![dep]) by {
                assert(edr == dr.push(dep));
                assert(dr.push(dep) =~= dr + seq![dep]);
            }
            assert(steps_pm1(seq![dep])) by {
                assert(seq![dep].len() == 1);
            }
            lemma_pm1_concat(dr, seq![dep]);
            assert(steps_pm1(edr));
        },
        None => {
            assert(edr =~= Seq::<int>::empty());
            assert(steps_pm1(edr));
        },
    }
    assert(steps_pm1(seq![dep])) by {
        assert(seq![dep].len() == 1);
    }
    // The first element of each child's stretch is one deeper than v.
    if edl.len() > 0 {
        let c = l[v as int]->Some_0;
        assert(edl[0] == euler_depths(l, r, c, lo, v - 1, dep + 1)[0]);
        assert(edl[0] == dep + 1);
    }
    lemma_pm1_concat(seq![dep], edl);
    if edr.len() > 0 {
        let c = r[v as int]->Some_0;
        assert(edr[0] == euler_depths(l, r, c, v + 1, hi, dep + 1)[0]);
        assert(edr[0] == dep + 1);
    }
    assert((seq![dep] + edl).len() > 0);
    if edl.len() > 0 {
        assert((seq![dep] + edl).last() == edl.last());
        assert(edl.last() == dep);
    } else {
        assert((seq![dep] + edl).last() == dep) by {
            assert(seq![dep] + edl =~= seq![dep]);
        }
    }
    lemma_pm1_concat(seq![dep] + edl, edr);
    assert(ed == (seq![dep] + edl) + edr);
}

} // verus!
