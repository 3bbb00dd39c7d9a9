//! Euler tours of Cartesian trees: the tour sequence, the depths along it,
//! the iterative walk that produces them, and the range-minimum-to-ancestor
//! correspondence that lets depth minima answer key minima.

use vstd::prelude::*;

use crate::sa::occurs_below;
use crate::tree::{euler_depths, euler_depths_left, euler_depths_right, euler_left, euler_right,
    euler_seq, heap_ok, is_tree, lemma_euler_basic, lemma_euler_occurs, lemma_heap_min, BinTree};

verus! {

/// A value found among the first entries is still there after the sequence
/// grows on the right.
#[verifier::rlimit(100)]
proof fn lemma_occurs_grow(s1: Seq<usize>, s2: Seq<usize>, m1: int, m2: int, u: int)
    requires
        occurs_below(s1, m1, u),
        m1 <= m2 <= s2.len(),
        m1 <= s1.len(),
        forall|t: int| 0 <= t < m1 ==> s2[t] == s1[t],
    ensures
        occurs_below(s2, m2, u),
{
    let k0 = choose|k0: int| 0 <= k0 < m1 && #[trigger] s1[k0] == u;
    assert(s2[k0] == u);
}

/// The tour written as the root, the children's tours and the returns to the
/// root, one concatenation per shape of the node.
#[verifier::rlimit(100)]
#[verifier::spinoff_prover]
proof fn lemma_tour_unfold(
    l: Seq<Option<usize>>,
    r: Seq<Option<usize>>,
    v: usize,
    lo: int,
    hi: int,
    dep: int,
)
    requires
        is_tree(l, r, v, lo, hi),
    ensures
        l[v as int] is Some && r[v as int] is Some ==> euler_seq(l, r, v, lo, hi) == seq![v]
            + euler_seq(l, r, l[v as int]->Some_0, lo, v - 1) + seq![v] + euler_seq(
            l,
            r,
            r[v as int]->Some_0,
            v + 1,
            hi,
        ) + seq![v] && euler_depths(l, r, v, lo, hi, dep) == seq![dep] + euler_depths(
            l,
            r,
            l[v as int]->Some_0,
            lo,
            v - 1,
            dep + 1,
        ) + seq![dep] + euler_depths(l, r, r[v as int]->Some_0, v + 1, hi, dep + 1) + seq![dep],
        l[v as int] is Some && r[v as int] is None ==> euler_seq(l, r, v, lo, hi) == seq![v]
            + euler_seq(l, r, l[v as int]->Some_0, lo, v - 1) + seq![v] && euler_depths(
            l,
            r,
            v,
            lo,
            hi,
            dep,
        ) == seq![dep] + euler_depths(l, r, l[v as int]->Some_0, lo, v - 1, dep + 1) + seq![dep],
        l[v as int] is None && r[v as int] is Some ==> euler_seq(l, r, v, lo, hi) == seq![v]
            + euler_seq(l, r, r[v as int]->Some_0, v + 1, hi) + seq![v] && euler_depths(
            l,
            r,
            v,
            lo,
            hi,
            dep,
        ) == seq![dep] + euler_depths(l, r, r[v as int]->Some_0, v + 1, hi, dep + 1) + seq![dep],
        l[v as int] is None && r[v as int] is None ==> euler_seq(l, r, v, lo, hi) == seq![v]
            && euler_depths(l, r, v, lo, hi, dep) == seq![dep],
{
    match (l[v as int], r[v as int]) {
        (Some(lc), Some(rc)) => {
            assert(euler_seq(l, r, v, lo, hi) =~= seq![v] + euler_seq(l, r, lc, lo, v - 1)
                + seq![v] + euler_seq(l, r, rc, v + 1, hi) + seq![v]);
            assert(euler_depths(l, r, v, lo, hi, dep) =~= seq![dep] + euler_depths(
                l,
                r,
                lc,
                lo,
                v - 1,
                dep + 1,
            ) + seq![dep] + euler_depths(l, r, rc, v + 1, hi, dep + 1) + seq![dep]);
        },
        (Some(lc), None) => {
            assert(euler_seq(l, r, v, lo, hi) =~= seq![v] + euler_seq(l, r, lc, lo, v - 1)
                + seq![v]);
            assert(euler_depths(l, r, v, lo, hi, dep) =~= seq![dep] + euler_depths(
                l,
                r,
                lc,
                lo,
                v - 1,
                dep + 1,
            ) + seq![dep]);
        },
        (None, Some(rc)) => {
            assert(euler_seq(l, r, v, lo, hi) =~= seq![v] + euler_seq(l, r, rc, v + 1, hi)
                + seq![v]);
            assert(euler_depths(l, r, v, lo, hi, dep) =~= seq![dep] + euler_depths(
                l,
                r,
                rc,
                v + 1,
                hi,
                dep + 1,
            ) + seq![dep]);
        },
        (None, None) => {
            assert(euler_seq(l, r, v, lo, hi) =~= seq![v]);
            assert(euler_depths(l, r, v, lo, hi, dep) =~= seq![dep]);
        },
    }
}

/// Traversal order on a binary tree where a node is visited up to three
/// times, when entering and then when re-entering from its kids, with mapped
/// first occurrences of each node and depths.
pub struct Euler {
    pub euler: Vec<usize>,
    pub first_occ: Vec<usize>,
    pub depth: Vec<usize>,
}

/// The tour still owed by one stack entry: a whole subtree for an entry not
/// yet entered, one more visit of the node otherwise.
pub open spec fn owed_part(
    l: Seq<Option<usize>>,
    r: Seq<Option<usize>>,
    e: (usize, bool),
    bd: (int, int, int),
) -> Seq<usize> {
    if e.1 {
        euler_seq(l, r, e.0, bd.0, bd.1)
    } else {
        seq![e.0]
    }
}

/// The depths of that owed part of the tour.
pub open spec fn owed_depths(
    l: Seq<Option<usize>>,
    r: Seq<Option<usize>>,
    e: (usize, bool),
    bd: (int, int, int),
) -> Seq<int> {
    if e.1 {
        euler_depths(l, r, e.0, bd.0, bd.1, bd.2)
    } else {
        seq![bd.2]
    }
}

/// Everything the walk still owes: the owed parts of all stack entries, top
/// of the stack first.
pub open spec fn pending(
    l: Seq<Option<usize>>,
    r: Seq<Option<usize>>,
    st: Seq<(usize, bool)>,
    bds: Seq<(int, int, int)>,
) -> Seq<usize>
    decreases st.len(),
{
    if st.len() == 0 {
        Seq::empty()
    } else {
        owed_part(l, r, st.last(), bds.last()) + pending(l, r, st.drop_last(), bds.drop_last())
    }
}

/// The depths of everything the walk still owes.
pub open spec fn pending_d(
    l: Seq<Option<usize>>,
    r: Seq<Option<usize>>,
    st: Seq<(usize, bool)>,
    bds: Seq<(int, int, int)>,
) -> Seq<int>
    decreases st.len(),
{
    if st.len() == 0 {
        Seq::empty()
    } else {
        owed_depths(l, r, st.last(), bds.last()) + pending_d(l, r, st.drop_last(), bds.drop_last())
    }
}

/// Pushing one entry owes its part in front of everything owed before.
#[verifier::rlimit(100)]
proof fn lemma_pending_push(
    l: Seq<Option<usize>>,
    r: Seq<Option<usize>>,
    st: Seq<(usize, bool)>,
    bds: Seq<(int, int, int)>,
    e: (usize, bool),
    bd: (int, int, int),
)
    ensures
        pending(l, r, st.push(e), bds.push(bd)) == owed_part(l, r, e, bd) + pending(l, r, st, bds),
        pending_d(l, r, st.push(e), bds.push(bd)) == owed_depths(l, r, e, bd) + pending_d(
            l,
            r,
            st,
            bds,
        ),
{
    assert(st.push(e).drop_last() =~= st);
    assert(bds.push(bd).drop_last() =~= bds);
    assert(st.push(e).last() == e);
    assert(bds.push(bd).last() == bd);
}

/// Emitting the node and queueing both children's tours and the two
/// revisits owes exactly what the whole subtree's tour owed.
#[verifier::rlimit(100)]
#[verifier::spinoff_prover]
proof fn lemma_requeue2<A>(e_old: Seq<A>, x: A, s1: Seq<A>, s2: Seq<A>, rest: Seq<A>, e0: Seq<A>)
    requires
        e_old + ((seq![x] + s1 + seq![x] + s2 + seq![x]) + rest) == e0,
    ensures
        e_old.push(x) + (s1 + (seq![x] + (s2 + (seq![x] + rest)))) == e0,
{
    assert(e_old.push(x) + (s1 + (seq![x] + (s2 + (seq![x] + rest)))) =~= e_old + ((seq![x] + s1
        + seq![x] + s2 + seq![x]) + rest));
}

/// The same with a single child.
#[verifier::rlimit(100)]
#[verifier::spinoff_prover]
proof fn lemma_requeue1<A>(e_old: Seq<A>, x: A, s1: Seq<A>, rest: Seq<A>, e0: Seq<A>)
    requires
        e_old + ((seq![x] + s1 + seq![x]) + rest) == e0,
    ensures
        e_old.push(x) + (s1 + (seq![x] + rest)) == e0,
{
    assert(e_old.push(x) + (s1 + (seq![x] + rest)) =~= e_old + ((seq![x] + s1 + seq![x]) + rest));
}

/// The same with no children.
#[verifier::rlimit(100)]
#[verifier::spinoff_prover]
proof fn lemma_requeue0<A>(e_old: Seq<A>, x: A, rest: Seq<A>, e0: Seq<A>)
    requires
        e_old + (seq![x] + rest) == e0,
    ensures
        e_old.push(x) + rest == e0,
{
    assert(e_old.push(x) + rest =~= e_old + (seq![x] + rest));
}

/// The depth bookkeeping of `lemma_requeue2`, phrased over the suffix of the
/// full depth sequence that is still owed.
#[verifier::rlimit(100)]
#[verifier::spinoff_prover]
proof fn lemma_requeue_skip2(full: Seq<int>, ln: int, d: int, s1: Seq<int>, s2: Seq<int>, rest: Seq<int>)
    requires
        0 <= ln < full.len(),
        full.skip(ln) == (seq![d] + s1 + seq![d] + s2 + seq![d]) + rest,
    ensures
        full.skip(ln + 1) == s1 + (seq![d] + (s2 + (seq![d] + rest))),
{
    let lhs = (seq![d] + s1 + seq![d] + s2 + seq![d]) + rest;
    assert(full.skip(ln).len() == full.len() - ln);
    assert(full.skip(ln + 1).len() == full.len() - ln - 1);
    assert forall|q: int|
        0 <= q < full.skip(ln + 1).len() implies #[trigger] full.skip(ln + 1)[q] == (s1 + (
        seq![d] + (s2 + (seq![d] + rest))))[q] by {
        assert(full.skip(ln + 1)[q] == full[q + (ln + 1)]);
        assert(full.skip(ln)[q + 1] == full[(q + 1) + ln]);
        assert(full[q + (ln + 1)] == full[(q + 1) + ln]);
        assert(full.skip(ln)[q + 1] == lhs[q + 1]);
        assert(lhs[q + 1] == (s1 + (seq![d] + (s2 + (seq![d] + rest))))[q]);
    }
    assert(full.skip(ln + 1) =~= s1 + (seq![d] + (s2 + (seq![d] + rest))));
}

/// The same with a single child.
#[verifier::rlimit(100)]
#[verifier::spinoff_prover]
proof fn lemma_requeue_skip1(full: Seq<int>, ln: int, d: int, s1: Seq<int>, rest: Seq<int>)
    requires
        0 <= ln < full.len(),
        full.skip(ln) == (seq![d] + s1 + seq![d]) + rest,
    ensures
        full.skip(ln + 1) == s1 + (seq![d] + rest),
{
    let lhs = (seq![d] + s1 + seq![d]) + rest;
    assert(full.skip(ln).len() == full.len() - ln);
    assert(full.skip(ln + 1).len() == full.len() - ln - 1);
    assert forall|q: int|
        0 <= q < full.skip(ln + 1).len() implies #[trigger] full.skip(ln + 1)[q] == (s1 + (
        seq![d] + rest))[q] by {
        assert(full.skip(ln + 1)[q] == full[q + (ln + 1)]);
        assert(full.skip(ln)[q + 1] == full[(q + 1) + ln]);
        assert(full[q + (ln + 1)] == full[(q + 1) + ln]);
        assert(full.skip(ln)[q + 1] == lhs[q + 1]);
        assert(lhs[q + 1] == (s1 + (seq![d] + rest))[q]);
    }
    assert(full.skip(ln + 1) =~= s1 + (seq![d] + rest));
}

/// The same with no children.
#[verifier::rlimit(100)]
#[verifier::spinoff_prover]
proof fn lemma_requeue_skip0(full: Seq<int>, ln: int, d: int, rest: Seq<int>)
    requires
        0 <= ln < full.len(),
        full.skip(ln) == seq![d] + rest,
    ensures
        full.skip(ln + 1) == rest,
{
    let lhs = seq![d] + rest;
    assert(full.skip(ln).len() == full.len() - ln);
    assert(full.skip(ln + 1).len() == full.len() - ln - 1);
    assert forall|q: int|
        0 <= q < full.skip(ln + 1).len() implies #[trigger] full.skip(ln + 1)[q] == rest[q] by {
        assert(full.skip(ln + 1)[q] == full[q + (ln + 1)]);
        assert(full.skip(ln)[q + 1] == full[(q + 1) + ln]);
        assert(full[q + (ln + 1)] == full[(q + 1) + ln]);
        assert(full.skip(ln)[q + 1] == lhs[q + 1]);
        assert(lhs[q + 1] == rest[q]);
    }
    assert(full.skip(ln + 1) =~= rest);
}

impl BinTree {
    /// Produces the traversal order in which a node is visited when entered
    /// and again after each of its kids, together with the position of each
    /// node's first visit and each node's depth.
    #[verifier::loop_isolation(false)]
    #[verifier::rlimit(100)]
    #[verifier::spinoff_prover]
    pub fn euler_walk(&self) -> (res: Euler)
        requires
            self.lefts@.len() == self.rights@.len(),
            1 <= self.lefts@.len() < crate::MAX_LEN,
            self.root < self.lefts@.len(),
            is_tree(self.lefts@, self.rights@, self.root, 0, self.lefts@.len() - 1),
        ensures
            res.euler@ == euler_seq(
                self.lefts@,
                self.rights@,
                self.root,
                0,
                self.lefts@.len() - 1,
            ),
            res.depth@.len() == self.lefts@.len(),
            res.first_occ@.len() == self.lefts@.len(),
            forall|t: int|
                0 <= t < res.euler@.len() ==> #[trigger] res.depth@[res.euler@[t] as int] as int
                    == euler_depths(
                    self.lefts@,
                    self.rights@,
                    self.root,
                    0,
                    self.lefts@.len() - 1,
                    0,
                )[t],
            forall|u: int|
                0 <= u < self.lefts@.len() ==> #[trigger] res.first_occ@[u] < res.euler@.len()
                    && res.euler@[res.first_occ@[u] as int] == u,
            forall|u: int, t: int|
                #![trigger res.first_occ@[u], res.euler@[t]]
                0 <= u < self.lefts@.len() && 0 <= t < res.first_occ@[u] ==> res.euler@[t] != u,
    {
        let ghost ll = self.lefts@;
        let ghost rr = self.rights@;
        let n = self.lefts.len();
        let ghost e0 = euler_seq(ll, rr, self.root, 0, n - 1);
        let ghost ed0 = euler_depths(ll, rr, self.root, 0, n - 1, 0);
        let mut depth: Vec<usize> = vec![0; n];
        let mut first_occ: Vec<usize> = vec![0; n];
        let mut euler: Vec<usize> = Vec::new();
        let mut stack: Vec<(usize, bool)> = Vec::new();
        stack.push((self.root, true));
        let ghost mut bds: Seq<(int, int, int)> = seq![(0int, n - 1 as int, 0int)];
        depth.set(self.root, 0);
        proof {
            lemma_euler_basic(ll, rr, self.root, 0, n - 1, 0);
            assert(stack@.drop_last() =~= Seq::<(usize, bool)>::empty());
            assert(bds.drop_last() =~= Seq::<(int, int, int)>::empty());
            assert(pending(ll, rr, stack@.drop_last(), bds.drop_last()) =~= Seq::<usize>::empty());
            assert(pending_d(ll, rr, stack@.drop_last(), bds.drop_last()) =~= Seq::<int>::empty());
            assert(stack@.last() == (self.root, true) && bds.last() == (0int, n - 1 as int, 0int));
            assert(pending(ll, rr, stack@, bds) =~= e0);
            assert(pending_d(ll, rr, stack@, bds) =~= ed0);
            assert(ed0.skip(0) =~= ed0);
        }
        while stack.len() > 0
            invariant
                stack@.len() == bds.len(),
                depth@.len() == n,
                first_occ@.len() == n,
                euler@.len() <= e0.len(),
                euler@ + pending(ll, rr, stack@, bds) == e0,
                ed0.skip(euler@.len() as int) == pending_d(ll, rr, stack@, bds),
                forall|t: int|
                    0 <= t < euler@.len() ==> #[trigger] depth@[euler@[t] as int] as int == ed0[t],
                forall|i: int|
                    0 <= i < stack@.len() ==> (#[trigger] stack@[i]).0 < n && depth@[stack@[i].0 as int] as int
                        == bds[i].2 && 0 <= bds[i].2 <= n - 1,
                forall|i: int|
                    0 <= i < stack@.len() && (#[trigger] stack@[i]).1 ==> is_tree(
                        ll,
                        rr,
                        stack@[i].0,
                        bds[i].0,
                        bds[i].1,
                    ) && 0 <= bds[i].0 && bds[i].1 <= n - 1 && bds[i].2 + (bds[i].1 - bds[i].0)
                        <= n - 1,
                forall|i: int, t: int|
                    0 <= i < stack@.len() && (#[trigger] stack@[i]).1 && 0 <= t < euler@.len()
                        ==> !(bds[i].0 <= #[trigger] euler@[t] <= bds[i].1),
                forall|i: int, j: int|
                    0 <= i < stack@.len() && (#[trigger] stack@[i]).1 && 0 <= j < stack@.len() && j
                        != i ==> !(bds[i].0 <= (#[trigger] stack@[j]).0 <= bds[i].1),
                forall|i: int, j: int|
                    0 <= i < stack@.len() && (#[trigger] stack@[i]).1 && 0 <= j < stack@.len()
                        && (#[trigger] stack@[j]).1 && j != i ==> (bds[i].1 < bds[j].0 || bds[j].1
                        < bds[i].0),
                forall|u: int|
                    0 <= u < n && #[trigger] occurs_below(
                        euler@,
                        euler@.len() as int,
                        u,
                    ) ==> first_occ@[u] < euler@.len() && euler@[first_occ@[u] as int] == u,
                forall|u: int, t: int|
                    #![trigger first_occ@[u], euler@[t]]
                    0 <= u < n && occurs_below(euler@, euler@.len() as int, u) && 0 <= t
                        < first_occ@[u] ==> euler@[t] != u,
                forall|i: int|
                    0 <= i < stack@.len() && !(#[trigger] stack@[i]).1 ==> occurs_below(
                        euler@,
                        euler@.len() as int,
                        stack@[i].0 as int,
                    ),
            decreases pending(ll, rr, stack@, bds).len(),
        {
            let ghost old_stack = stack@;
            let ghost old_bds = bds;
            let ghost old_euler = euler@;
            let ghost old_depth = depth@;
            let popped = stack.pop();
            let xe = popped.unwrap();
            let x = xe.0;
            let entering = xe.1;
            let ghost bd = old_bds.last();
            proof {
                bds = bds.drop_last();
                assert(old_stack.last() == xe && stack@ =~= old_stack.drop_last());
                assert(pending(ll, rr, old_stack, old_bds) == owed_part(ll, rr, xe, bd) + pending(
                    ll,
                    rr,
                    stack@,
                    bds,
                ));
                assert(pending_d(ll, rr, old_stack, old_bds) == owed_depths(ll, rr, xe, bd)
                    + pending_d(ll, rr, stack@, bds));
                if entering {
                    lemma_euler_basic(ll, rr, x, bd.0, bd.1, bd.2);
                }
            }
            euler.push(x);
            proof {
                // The first owed element is this node at its depth.
                assert(owed_part(ll, rr, xe, bd)[0] == x);
                assert(owed_depths(ll, rr, xe, bd)[0] == bd.2);
                assert(e0[old_euler.len() as int] == x);
                assert(ed0[old_euler.len() as int] == bd.2) by {
                    assert(ed0.skip(old_euler.len() as int)[0] == bd.2);
                }
                assert(depth@[x as int] as int == bd.2);
            }
            if entering {
                first_occ.set(x, euler.len() - 1);
                proof {
                    assert(euler@[euler@.len() - 1] == x);
                    assert forall|u: int|
                        0 <= u < n && #[trigger] occurs_below(
                            euler@,
                            euler@.len() as int,
                            u,
                        ) implies first_occ@[u] < euler@.len() && euler@[first_occ@[u] as int]
                        == u by {
                        if u != x {
                            let k0 = choose|k0: int|
                                0 <= k0 < euler@.len() && #[trigger] euler@[k0] == u;
                            assert(k0 < old_euler.len());
                            assert(occurs_below(old_euler, old_euler.len() as int, u));
                        }
                    }
                    // This really is the first visit of x: everything emitted
                    // before lies outside the subtree just entered.
                    assert forall|u: int, t: int|
                        #![trigger first_occ@[u], euler@[t]]
                        0 <= u < n && occurs_below(euler@, euler@.len() as int, u) && 0 <= t
                            < first_occ@[u] implies euler@[t] != u by {
                        if u == x {
                            assert(t < old_euler.len());
                            assert(euler@[t] == old_euler[t]);
                            assert(!(bd.0 <= old_euler[t] <= bd.1));
                            assert(bd.0 <= x <= bd.1);
                        } else {
                            assert(occurs_below(old_euler, old_euler.len() as int, u)) by {
                                let k0 = choose|k0: int|
                                    0 <= k0 < euler@.len() && #[trigger] euler@[k0] == u;
                                assert(k0 < old_euler.len());
                            }
                            assert(first_occ@[u] < old_euler.len());
                            assert(euler@[t] == old_euler[t]);
                        }
                    }
                }
                let rx = self.rights[x];
                match rx {
                    Some(right) => {
                        stack.push((x, false));
                        stack.push((right, true));
                        proof {
                            lemma_pending_push(ll, rr, stack@.drop_last().drop_last(), bds, (x, false), (0int, 0int, bd.2));
                            bds = bds.push((0int, 0int, bd.2));
                            lemma_pending_push(ll, rr, stack@.drop_last(), bds, (right, true), (x + 1 as int, bd.1, bd.2 + 1));
                            bds = bds.push((x + 1 as int, bd.1, bd.2 + 1));
                            assert(stack@.drop_last().drop_last() =~= old_stack.drop_last());
                            assert(stack@.drop_last() =~= old_stack.drop_last().push((x, false)));
                        }
                        proof {
                            assert(is_tree(ll, rr, right, x + 1, bd.1));
                            assert(right < n && bd.2 + 1 <= n - 1);
                        }
                        let dx = depth[x];
                        depth.set(right, dx + 1);
                    },
                    None => {},
                }
                let lx = self.lefts[x];
                match lx {
                    Some(left) => {
                        stack.push((x, false));
                        stack.push((left, true));
                        proof {
                            lemma_pending_push(ll, rr, stack@.drop_last().drop_last(), bds, (x, false), (0int, 0int, bd.2));
                            bds = bds.push((0int, 0int, bd.2));
                            lemma_pending_push(ll, rr, stack@.drop_last(), bds, (left, true), (bd.0, x - 1 as int, bd.2 + 1));
                            bds = bds.push((bd.0, x - 1 as int, bd.2 + 1));
                        }
                        proof {
                            assert(is_tree(ll, rr, left, bd.0, x - 1));
                            assert(left < n && bd.2 + 1 <= n - 1);
                        }
                        let dx = depth[x];
                        depth.set(left, dx + 1);
                    },
                    None => {},
                }
                proof {
                    lemma_tour_unfold(ll, rr, x, bd.0, bd.1, bd.2);
                    // Every revisit entry on the stack names a node that the
                    // walk has already emitted.
                    assert(euler@[euler@.len() - 1] == x);
                    assert(occurs_below(euler@, euler@.len() as int, x as int));
                    assert forall|idx: int|
                        0 <= idx < stack@.len() && !(#[trigger] stack@[idx]).1 implies occurs_below(
                        euler@,
                        euler@.len() as int,
                        stack@[idx].0 as int,
                    ) by {
                        if idx < old_stack.len() - 1 {
                            assert(stack@[idx] == old_stack[idx]);
                            lemma_occurs_grow(
                                old_euler,
                                euler@,
                                old_euler.len() as int,
                                euler@.len() as int,
                                stack@[idx].0 as int,
                            );
                        } else {
                            assert(stack@[idx].0 == x || stack@[idx].1);
                        }
                    }
                    let rest = pending(ll, rr, old_stack.drop_last(), old_bds.drop_last());
                    let rest_d = pending_d(ll, rr, old_stack.drop_last(), old_bds.drop_last());
                    let ln = old_euler.len() as int;
                    assert(ed0.skip(ln) == owed_depths(ll, rr, xe, bd) + rest_d);
                    assert(ln < ed0.len()) by {
                        assert(ed0.skip(ln).len() >= 1);
                    }
                    match (ll[x as int], rr[x as int]) {
                        (Some(lc), Some(rc)) => {
                            lemma_euler_basic(ll, rr, lc, bd.0, x - 1, bd.2 + 1);
                            lemma_euler_basic(ll, rr, rc, x + 1, bd.1, bd.2 + 1);
                            let s1 = euler_seq(ll, rr, lc, bd.0, x - 1);
                            let s2 = euler_seq(ll, rr, rc, x + 1, bd.1);
                            let s1d = euler_depths(ll, rr, lc, bd.0, x - 1, bd.2 + 1);
                            let s2d = euler_depths(ll, rr, rc, x + 1, bd.1, bd.2 + 1);
                            let st0 = old_stack.drop_last();
                            let bd0 = old_bds.drop_last();
                            let e_rf = (x, false);
                            let b_rf = (0int, 0int, bd.2);
                            let e_r = (rc, true);
                            let b_r = (x + 1 as int, bd.1, bd.2 + 1);
                            let e_lf = (x, false);
                            let b_lf = (0int, 0int, bd.2);
                            let e_l = (lc, true);
                            let b_l = (bd.0, x - 1 as int, bd.2 + 1);
                            assert(stack@ =~= st0.push(e_rf).push(e_r).push(e_lf).push(e_l));
                            assert(bds =~= bd0.push(b_rf).push(b_r).push(b_lf).push(b_l));
                            lemma_pending_push(ll, rr, st0, bd0, e_rf, b_rf);
                            lemma_pending_push(ll, rr, st0.push(e_rf), bd0.push(b_rf), e_r, b_r);
                            lemma_pending_push(ll, rr, st0.push(e_rf).push(e_r), bd0.push(b_rf).push(b_r), e_lf, b_lf);
                            lemma_pending_push(ll, rr, st0.push(e_rf).push(e_r).push(e_lf), bd0.push(b_rf).push(b_r).push(b_lf), e_l, b_l);
                            lemma_requeue2(old_euler, x, s1, s2, rest, e0);
                            assert(pending(ll, rr, stack@, bds) == s1 + (seq![x] + (s2 + (
                            seq![x] + rest))));
                            assert(euler@ + pending(ll, rr, stack@, bds) == e0);
                            lemma_requeue_skip2(ed0, ln, bd.2, s1d, s2d, rest_d);
                            assert(pending_d(ll, rr, stack@, bds) == s1d + (seq![bd.2] + (s2d + (
                            seq![bd.2] + rest_d))));
                            assert(ed0.skip(euler@.len() as int) == pending_d(ll, rr, stack@, bds));
                        },
                        (Some(lc), None) => {
                            lemma_euler_basic(ll, rr, lc, bd.0, x - 1, bd.2 + 1);
                            let s1 = euler_seq(ll, rr, lc, bd.0, x - 1);
                            let s1d = euler_depths(ll, rr, lc, bd.0, x - 1, bd.2 + 1);
                            let st0 = old_stack.drop_last();
                            let bd0 = old_bds.drop_last();
                            let e_lf = (x, false);
                            let b_lf = (0int, 0int, bd.2);
                            let e_l = (lc, true);
                            let b_l = (bd.0, x - 1 as int, bd.2 + 1);
                            assert(stack@ =~= st0.push(e_lf).push(e_l));
                            assert(bds =~= bd0.push(b_lf).push(b_l));
                            lemma_pending_push(ll, rr, st0, bd0, e_lf, b_lf);
                            lemma_pending_push(ll, rr, st0.push(e_lf), bd0.push(b_lf), e_l, b_l);
                            lemma_requeue1(old_euler, x, s1, rest, e0);
                            assert(pending(ll, rr, stack@, bds) == s1 + (seq![x] + rest));
                            assert(euler@ + pending(ll, rr, stack@, bds) == e0);
                            lemma_requeue_skip1(ed0, ln, bd.2, s1d, rest_d);
                            assert(pending_d(ll, rr, stack@, bds) == s1d + (seq![bd.2] + rest_d));
                            assert(ed0.skip(euler@.len() as int) == pending_d(ll, rr, stack@, bds));
                        },
                        (None, Some(rc)) => {
                            lemma_euler_basic(ll, rr, rc, x + 1, bd.1, bd.2 + 1);
                            let s2 = euler_seq(ll, rr, rc, x + 1, bd.1);
                            let s2d = euler_depths(ll, rr, rc, x + 1, bd.1, bd.2 + 1);
                            let st0 = old_stack.drop_last();
                            let bd0 = old_bds.drop_last();
                            let e_rf = (x, false);
                            let b_rf = (0int, 0int, bd.2);
                            let e_r = (rc, true);
                            let b_r = (x + 1 as int, bd.1, bd.2 + 1);
                            assert(stack@ =~= st0.push(e_rf).push(e_r));
                            assert(bds =~= bd0.push(b_rf).push(b_r));
                            lemma_pending_push(ll, rr, st0, bd0, e_rf, b_rf);
                            lemma_pending_push(ll, rr, st0.push(e_rf), bd0.push(b_rf), e_r, b_r);
                            lemma_requeue1(old_euler, x, s2, rest, e0);
                            assert(pending(ll, rr, stack@, bds) == s2 + (seq![x] + rest));
                            assert(euler@ + pending(ll, rr, stack@, bds) == e0);
                            lemma_requeue_skip1(ed0, ln, bd.2, s2d, rest_d);
                            assert(pending_d(ll, rr, stack@, bds) == s2d + (seq![bd.2] + rest_d));
                            assert(ed0.skip(euler@.len() as int) == pending_d(ll, rr, stack@, bds));
                        },
                        (None, None) => {
                            assert(stack@ =~= old_stack.drop_last());
                            assert(bds =~= old_bds.drop_last());
                            lemma_requeue0(old_euler, x, rest, e0);
                            assert(pending(ll, rr, stack@, bds) == rest);
                            assert(euler@ + pending(ll, rr, stack@, bds) == e0);
                            lemma_requeue_skip0(ed0, ln, bd.2, rest_d);
                            assert(pending_d(ll, rr, stack@, bds) == rest_d);
                            assert(ed0.skip(euler@.len() as int) == pending_d(ll, rr, stack@, bds));
                        },
                    }
                    // The two depth assignments hit only nodes inside the
                    // entered subtree's interval, which no emitted position
                    // and no other stack entry names.
                    assert(forall|w: int|
                        0 <= w < n && !(bd.0 <= w <= bd.1) ==> depth@[w] == old_depth[w]);
                    assert(depth@[x as int] as int == bd.2);
                    assert forall|idx: int|
                        0 <= idx < stack@.len() implies (#[trigger] stack@[idx]).0 < n
                        && depth@[stack@[idx].0 as int] as int == bds[idx].2 && 0 <= bds[idx].2
                        <= n - 1 by {
                        if idx < old_stack.len() - 1 {
                            assert(stack@[idx] == old_stack[idx] && bds[idx] == old_bds[idx]);
                            assert(!(bd.0 <= old_stack[idx].0 <= bd.1));
                            assert(depth@[old_stack[idx].0 as int] == old_depth[old_stack[idx].0 as int]);
                        }
                    }
                    assert forall|t: int|
                        0 <= t < euler@.len() implies #[trigger] depth@[euler@[t] as int] as int
                        == ed0[t] by {
                        if t < old_euler.len() {
                            assert(euler@[t] == old_euler[t]);
                            assert(!(bd.0 <= old_euler[t] <= bd.1));
                            assert(old_euler[t] == e0[t]) by {
                                assert((old_euler + pending(ll, rr, old_stack, old_bds))[t]
                                    == old_euler[t]);
                            }
                            assert(0 <= old_euler[t] <= n - 1);
                            assert(depth@[old_euler[t] as int] == old_depth[old_euler[t] as int]);
                        } else {
                            assert(euler@[t] == x);
                            assert(!(bd.0 <= x <= bd.1) || depth@[x as int] as int == bd.2);
                        }
                    }
                }
            } else {
                proof {
                    assert(euler@ =~= old_euler.push(x));
                    assert(euler@ + pending(ll, rr, stack@, bds) =~= e0);
                    assert(owed_depths(ll, rr, xe, bd) =~= seq![bd.2]);
                    assert(ed0.skip(old_euler.len() as int) == seq![bd.2] + pending_d(
                        ll,
                        rr,
                        stack@,
                        bds,
                    ));
                    assert forall|q: int|
                        0 <= q < pending_d(ll, rr, stack@, bds).len() implies ed0.skip(
                        euler@.len() as int,
                    )[q] == pending_d(ll, rr, stack@, bds)[q] by {
                        assert(ed0.skip(old_euler.len() as int)[q + 1] == pending_d(
                            ll,
                            rr,
                            stack@,
                            bds,
                        )[q]);
                        assert(ed0.skip(old_euler.len() as int)[q + 1] == ed0[old_euler.len() + q
                            + 1]);
                        assert(ed0.skip(euler@.len() as int)[q] == ed0[euler@.len() + q]);
                    }
                    assert(ed0.skip(euler@.len() as int) =~= pending_d(ll, rr, stack@, bds));
                    assert forall|u: int|
                        0 <= u < n && #[trigger] occurs_below(
                            euler@,
                            euler@.len() as int,
                            u,
                        ) implies first_occ@[u] < euler@.len() && euler@[first_occ@[u] as int]
                        == u by {
                        let k0 = choose|k0: int|
                            0 <= k0 < euler@.len() && #[trigger] euler@[k0] == u;
                        if k0 < old_euler.len() {
                            assert(occurs_below(old_euler, old_euler.len() as int, u));
                        } else {
                            assert(u == x);
                            assert(occurs_below(old_euler, old_euler.len() as int, u));
                        }
                    }
                    assert forall|idx: int|
                        0 <= idx < stack@.len() && !(#[trigger] stack@[idx]).1 implies occurs_below(
                        euler@,
                        euler@.len() as int,
                        stack@[idx].0 as int,
                    ) by {
                        assert(stack@[idx] == old_stack[idx]);
                        lemma_occurs_grow(
                            old_euler,
                            euler@,
                            old_euler.len() as int,
                            euler@.len() as int,
                            stack@[idx].0 as int,
                        );
                    }
                    assert forall|u: int, t: int|
                        #![trigger first_occ@[u], euler@[t]]
                        0 <= u < n && occurs_below(euler@, euler@.len() as int, u) && 0 <= t
                            < first_occ@[u] implies euler@[t] != u by {
                        assert(occurs_below(old_euler, old_euler.len() as int, u)) by {
                            if u == x {
                                assert(occurs_below(old_euler, old_euler.len() as int, x as int));
                            } else {
                                let k0 = choose|k0: int|
                                    0 <= k0 < euler@.len() && #[trigger] euler@[k0] == u;
                                assert(k0 < old_euler.len());
                            }
                        }
                        assert(first_occ@[u] < old_euler.len());
                        assert(euler@[t] == old_euler[t]);
                    }
                }
            }
        }
        proof {
            assert(pending(ll, rr, stack@, bds) =~= Seq::<usize>::empty());
            assert(euler@ =~= e0);
            lemma_euler_basic(ll, rr, self.root, 0, n - 1, 0);
            assert forall|u: int|
                0 <= u < n implies #[trigger] first_occ@[u] < euler@.len()
                && euler@[first_occ@[u] as int] == u by {
                lemma_euler_occurs(ll, rr, self.root, 0, n - 1, u);
                assert(occurs_below(euler@, euler@.len() as int, u));
            }
            assert forall|u: int, t: int|
                #![trigger first_occ@[u], euler@[t]]
                0 <= u < n && 0 <= t < first_occ@[u] implies euler@[t] != u by {
                lemma_euler_occurs(ll, rr, self.root, 0, n - 1, u);
                assert(occurs_below(euler@, euler@.len() as int, u));
            }
        }
        Euler { euler, first_occ, depth }
    }
}


/// Where each kind of tour position sits and what it shows: visits of the
/// root are exactly the positions at the root's depth; smaller values sit
/// inside the left child's stretch, larger values inside the right child's.
#[verifier::spinoff_prover]
#[verifier::rlimit(100)]
proof fn lemma_tour_index(
    l: Seq<Option<usize>>,
    r: Seq<Option<usize>>,
    v: usize,
    lo: int,
    hi: int,
    dep: int,
)
    requires
        is_tree(l, r, v, lo, hi),
    ensures
        forall|t: int|
            l[v as int] is Some && 1 <= t < 1 + euler_seq(
                l,
                r,
                l[v as int]->Some_0,
                lo,
                v - 1,
            ).len() ==> #[trigger] euler_seq(l, r, v, lo, hi)[t] == euler_seq(
                l,
                r,
                l[v as int]->Some_0,
                lo,
                v - 1,
            )[t - 1] && euler_depths(l, r, v, lo, hi, dep)[t] == euler_depths(
                l,
                r,
                l[v as int]->Some_0,
                lo,
                v - 1,
                dep + 1,
            )[t - 1],
        forall|t: int|
            r[v as int] is Some && 1 + euler_left(l, r, v, lo, hi).len() <= t < 1 + euler_left(
                l,
                r,
                v,
                lo,
                hi,
            ).len() + euler_seq(l, r, r[v as int]->Some_0, v + 1, hi).len()
                ==> #[trigger] euler_seq(l, r, v, lo, hi)[t] == euler_seq(
                l,
                r,
                r[v as int]->Some_0,
                v + 1,
                hi,
            )[t - 1 - euler_left(l, r, v, lo, hi).len()] && euler_depths(l, r, v, lo, hi, dep)[t]
                == euler_depths(l, r, r[v as int]->Some_0, v + 1, hi, dep + 1)[t - 1 - euler_left(
                l,
                r,
                v,
                lo,
                hi,
            ).len()],
        forall|t: int|
            0 <= t < euler_seq(l, r, v, lo, hi).len() && #[trigger] euler_seq(l, r, v, lo, hi)[t]
                < v ==> l[v as int] is Some && 1 <= t < 1 + euler_seq(
                l,
                r,
                l[v as int]->Some_0,
                lo,
                v - 1,
            ).len(),
        forall|t: int|
            0 <= t < euler_seq(l, r, v, lo, hi).len() && #[trigger] euler_seq(l, r, v, lo, hi)[t]
                > v ==> r[v as int] is Some && 1 + euler_left(l, r, v, lo, hi).len() <= t < 1
                + euler_left(l, r, v, lo, hi).len() + euler_seq(
                l,
                r,
                r[v as int]->Some_0,
                v + 1,
                hi,
            ).len(),
        l[v as int] is Some ==> euler_seq(l, r, v, lo, hi)[1 + euler_seq(
            l,
            r,
            l[v as int]->Some_0,
            lo,
            v - 1,
        ).len() as int] == v,
{
    let es = euler_seq(l, r, v, lo, hi);
    let ed = euler_depths(l, r, v, lo, hi, dep);
    let el = euler_left(l, r, v, lo, hi);
    let er = euler_right(l, r, v, lo, hi);
    let edl = euler_depths_left(l, r, v, lo, hi, dep);
    lemma_euler_basic(l, r, v, lo, hi, dep);
    assert(es == seq![v] + el + er);
    assert(ed == seq![dep] + edl + euler_depths_right(l, r, v, lo, hi, dep));
    match l[v as int] {
        Some(c) => {
            lemma_euler_basic(l, r, c, lo, v - 1, dep + 1);
            assert(el == euler_seq(l, r, c, lo, v - 1).push(v));
            assert(edl == euler_depths(l, r, c, lo, v - 1, dep + 1).push(dep));
            assert(es[1 + euler_seq(l, r, c, lo, v - 1).len() as int] == el[el.len() - 1]);
        },
        None => {
            assert(el =~= Seq::<usize>::empty());
        },
    }
    match r[v as int] {
        Some(c) => {
            lemma_euler_basic(l, r, c, v + 1, hi, dep + 1);
            assert(er == euler_seq(l, r, c, v + 1, hi).push(v));
        },
        None => {
            assert(er =~= Seq::<usize>::empty());
        },
    }
    // A value below v can only come from the left child's stretch.
    assert forall|t: int|
        0 <= t < es.len() && #[trigger] es[t] < v implies l[v as int] is Some && 1 <= t < 1
        + euler_seq(l, r, l[v as int]->Some_0, lo, v - 1).len() by {
        if t == 0 {
            assert(es[t] == v);
        } else if t < 1 + el.len() {
            match l[v as int] {
                Some(c) => {
                    if t == el.len() {
                        assert(es[t] == v);
                    }
                },
                None => {},
            }
        } else {
            match r[v as int] {
                Some(c) => {
                    if t - 1 - el.len() < euler_seq(l, r, c, v + 1, hi).len() {
                        assert(es[t] == euler_seq(l, r, c, v + 1, hi)[t - 1 - el.len()]);
                        assert(es[t] >= v + 1);
                    } else {
                        assert(es[t] == v);
                    }
                },
                None => {},
            }
        }
    }
    // A value above v can only come from the right child's stretch.
    assert forall|t: int|
        0 <= t < es.len() && #[trigger] es[t] > v implies r[v as int] is Some && 1 + el.len() <= t
        < 1 + el.len() + euler_seq(l, r, r[v as int]->Some_0, v + 1, hi).len() by {
        if t == 0 {
            assert(es[t] == v);
        } else if t < 1 + el.len() {
            match l[v as int] {
                Some(c) => {
                    if t < 1 + euler_seq(l, r, c, lo, v - 1).len() {
                        assert(es[t] == euler_seq(l, r, c, lo, v - 1)[t - 1]);
                        assert(es[t] <= v - 1);
                    } else {
                        assert(es[t] == v);
                    }
                },
                None => {},
            }
        } else {
            match r[v as int] {
                Some(c) => {
                    if t - 1 - el.len() >= euler_seq(l, r, c, v + 1, hi).len() {
                        assert(es[t] == v);
                    }
                },
                None => {},
            }
        }
    }
}

/// The range-minimum over depths finds the lowest common ancestor: on any
/// stretch of the tour whose ends visit `a` and `b`, a position of least
/// depth visits a node between `a` and `b` whose key is least among the keys
/// of `a..=b`.
#[verifier::spinoff_prover]
#[verifier::rlimit(100)]
pub proof fn lemma_lca(
    l: Seq<Option<usize>>,
    r: Seq<Option<usize>>,
    keys: Seq<usize>,
    v: usize,
    lo: int,
    hi: int,
    dep: int,
    a: int,
    b: int,
    t1: int,
    t2: int,
    ts: int,
)
    requires
        is_tree(l, r, v, lo, hi),
        heap_ok(keys, l, r, v, lo, hi),
        keys.len() > hi,
        lo <= a <= b <= hi,
        0 <= t1 <= ts <= t2 < euler_seq(l, r, v, lo, hi).len(),
        (euler_seq(l, r, v, lo, hi)[t1] == a && euler_seq(l, r, v, lo, hi)[t2] == b) || (euler_seq(
            l,
            r,
            v,
            lo,
            hi,
        )[t1] == b && euler_seq(l, r, v, lo, hi)[t2] == a),
        forall|t: int|
            t1 <= t <= t2 ==> euler_depths(l, r, v, lo, hi, dep)[ts] <= #[trigger] euler_depths(
                l,
                r,
                v,
                lo,
                hi,
                dep,
            )[t],
    ensures
        a <= euler_seq(l, r, v, lo, hi)[ts] <= b,
        forall|u: int|
            a <= u <= b ==> keys[euler_seq(l, r, v, lo, hi)[ts] as int] <= #[trigger] keys[u],
    decreases hi - lo,
{
    let es = euler_seq(l, r, v, lo, hi);
    let ed = euler_depths(l, r, v, lo, hi, dep);
    let el = euler_left(l, r, v, lo, hi);
    lemma_euler_basic(l, r, v, lo, hi, dep);
    lemma_tour_index(l, r, v, lo, hi, dep);
    let nl: int = match l[v as int] {
        Some(c) => euler_seq(l, r, c, lo, v - 1).len() as int,
        None => 0,
    };
    let nr: int = match r[v as int] {
        Some(c) => euler_seq(l, r, c, v + 1, hi).len() as int,
        None => 0,
    };
    let in_left = l[v as int] is Some && 1 <= t1 && t2 < 1 + nl;
    let in_right = r[v as int] is Some && 1 + el.len() <= t1 && t2 < 1 + el.len() + nr;
    if in_left {
        let c = l[v as int]->Some_0;
        assert(lo <= a && b <= v - 1) by {
            lemma_euler_basic(l, r, c, lo, v - 1, dep + 1);
            assert(es[t1] == euler_seq(l, r, c, lo, v - 1)[t1 - 1]);
            assert(es[t2] == euler_seq(l, r, c, lo, v - 1)[t2 - 1]);
            assert(lo <= es[t1] <= v - 1 && lo <= es[t2] <= v - 1);
        }
        assert forall|t: int|
            t1 - 1 <= t <= t2 - 1 implies euler_depths(l, r, c, lo, v - 1, dep + 1)[ts - 1]
            <= #[trigger] euler_depths(l, r, c, lo, v - 1, dep + 1)[t] by {
            assert(es[t + 1] == euler_seq(l, r, c, lo, v - 1)[(t + 1) - 1]);
            assert(ed[t + 1] == euler_depths(l, r, c, lo, v - 1, dep + 1)[(t + 1) - 1]);
            assert(es[ts] == euler_seq(l, r, c, lo, v - 1)[ts - 1]);
            assert(ed[ts] == euler_depths(l, r, c, lo, v - 1, dep + 1)[ts - 1]);
            assert(ed[ts] <= ed[t + 1]);
        }
        lemma_lca(l, r, keys, c, lo, v - 1, dep + 1, a, b, t1 - 1, t2 - 1, ts - 1);
        assert(es[ts] == euler_seq(l, r, c, lo, v - 1)[ts - 1]);
    } else if in_right {
        let c = r[v as int]->Some_0;
        let off = 1 + el.len() as int;
        assert(v + 1 <= a && b <= hi) by {
            lemma_euler_basic(l, r, c, v + 1, hi, dep + 1);
            assert(es[t1] == euler_seq(l, r, c, v + 1, hi)[t1 - off]);
            assert(es[t2] == euler_seq(l, r, c, v + 1, hi)[t2 - off]);
            assert(v + 1 <= es[t1] <= hi && v + 1 <= es[t2] <= hi);
        }
        assert forall|t: int|
            t1 - off <= t <= t2 - off implies euler_depths(l, r, c, v + 1, hi, dep + 1)[ts - off]
            <= #[trigger] euler_depths(l, r, c, v + 1, hi, dep + 1)[t] by {
            assert(es[t + off] == euler_seq(l, r, c, v + 1, hi)[(t + off) - off]);
            assert(ed[t + off] == euler_depths(l, r, c, v + 1, hi, dep + 1)[(t + off) - off]);
            assert(es[ts] == euler_seq(l, r, c, v + 1, hi)[ts - off]);
            assert(ed[ts] == euler_depths(l, r, c, v + 1, hi, dep + 1)[ts - off]);
            assert(ed[ts] <= ed[t + off]);
        }
        lemma_lca(l, r, keys, c, v + 1, hi, dep + 1, a, b, t1 - off, t2 - off, ts - off);
        assert(es[ts] == euler_seq(l, r, c, v + 1, hi)[ts - off]);
    } else {
        // The stretch passes through a visit of v, so its least depth is v's
        // depth, reached only at visits of v.
        let tv: int = if es[t1] == v {
            t1
        } else if es[t2] == v {
            t2
        } else {
            1 + nl
        };
        assert(t1 <= tv <= t2 && es[tv] == v) by {
            if es[t1] != v && es[t2] != v {
                if es[t1] < v && es[t2] < v {
                    assert(in_left);
                    assert(false);
                } else if es[t1] > v && es[t2] > v {
                    assert(in_right);
                    assert(false);
                } else if es[t1] < v {
                    // t1 in the left stretch, t2 in the right stretch.
                    assert(1 <= t1 && t1 < 1 + nl);
                    assert(1 + el.len() <= t2);
                    assert(es[1 + nl] == v);
                    assert(t1 < 1 + nl <= t2);
                } else {
                    // es[t1] > v: then t1 is in the right stretch, and t2
                    // cannot be before it.
                    assert(1 + el.len() <= t1);
                    assert(es[t2] < v ==> t2 < 1 + nl);
                    assert(es[t2] >= v);
                    assert(es[t2] > v);
                    assert(in_right);
                    assert(false);
                }
            }
        }
        assert(ed[tv] == dep);
        assert(ed[ts] == dep) by {
            assert(ed[ts] <= ed[tv]);
            assert(ed[ts] >= dep);
        }
        assert(es[ts] == v);
        // v lies between a and b: otherwise both tour ends would sit in the
        // same child's stretch.
        assert(a <= v) by {
            if a > v {
                assert(es[t1] > v && es[t2] > v);
                assert(in_right);
                assert(false);
            }
        }
        assert(v <= b) by {
            if b < v {
                assert(es[t1] < v && es[t2] < v);
                assert(in_left);
                assert(false);
            }
        }
        assert forall|u: int| a <= u <= b implies keys[es[ts] as int] <= #[trigger] keys[u] by {
            lemma_heap_min(keys, l, r, v, lo, hi, u);
        }
    }
}

} // verus!
