//! Constant-time longest-common-prefix queries between suffixes of an
//! integer sequence, after linear-time preprocessing: a suffix array, the
//! longest-common-prefix array of its adjacent suffixes, a Cartesian tree
//! over that array, and a range-minimum structure on the depths of the
//! tree's Euler tour.

use vstd::prelude::*;

pub mod euler;
pub mod order;
pub mod rmq;
pub mod rmq_tables;
pub mod sa;
pub mod tree;

use crate::euler::lemma_lca;
use crate::order::{lcp_len, lemma_lcp_bound, lemma_lcp_self, lemma_lcp_sym};
use crate::sa::{is_perm, lcp, lemma_lcp_interval, sa_sorted, SA};
use crate::tree::{
    cartesian_tree, euler_depths, euler_seq, heap_ok, is_tree, lemma_euler_basic, lemma_euler_pm1,
};

verus! {

/// Lengths that every construction in this crate accepts; keeps all the index
/// arithmetic comfortably inside `usize`.
pub const MAX_LEN: usize = 0x1000_0000;

/// Implements constant-time queries for the longest common prefix of the
/// suffixes starting at two given indices.
pub struct SARMQ {
    indice_into_rmq: Vec<usize>,
    rmq: rmq::RMQ,
    lcp_euler: Vec<usize>,
    sa_inverse: Vec<usize>,
    seq_g: Ghost<Seq<usize>>,
    sa_g: Ghost<Seq<usize>>,
    lcp_g: Ghost<Seq<usize>>,
    lefts_g: Ghost<Seq<Option<usize>>>,
    rights_g: Ghost<Seq<Option<usize>>>,
    root_g: Ghost<usize>,
}

impl SARMQ {
    /// The sequence whose suffixes this structure answers queries about.
    pub closed spec fn sequence(self) -> Seq<usize> {
        self.seq_g@
    }

    /// Everything construction guarantees and queries rely on. An index
    /// built from the empty sequence answers no query, since no index is
    /// below its length; any other index carries the full structure.
    pub closed spec fn wf(self) -> bool {
        self.sequence().len() == 0 || self.wf_pos()
    }

    /// The guarantees of an index over a non-empty sequence: the suffix
    /// array is the sorted permutation with its inverse; the prefix-length
    /// array matches it; the Cartesian tree over the prefix lengths is
    /// well formed and heap ordered; and the stored tables are the tree's
    /// Euler tour read through the other arrays.
    spec fn wf_pos(self) -> bool {
        let a = self.seq_g@;
        let n = a.len() as int;
        let s = self.sa_g@;
        let lcpv = self.lcp_g@;
        let ll = self.lefts_g@;
        let rr = self.rights_g@;
        let root = self.root_g@;
        let es = euler_seq(ll, rr, root, 0, n - 1);
        let ed = euler_depths(ll, rr, root, 0, n - 1, 0);
        &&& 1 <= n < MAX_LEN
        &&& is_perm(s, n)
        &&& sa_sorted(a, s)
        &&& self.sa_inverse@.len() == n
        &&& (forall|k: int| 0 <= k < n ==> self.sa_inverse@[#[trigger] s[k] as int] == k)
        &&& (forall|v: int|
            0 <= v < n ==> #[trigger] self.sa_inverse@[v] < n && s[self.sa_inverse@[v] as int]
                == v)
        &&& lcpv.len() == n
        &&& (forall|q: int|
            0 <= q < n - 1 ==> lcpv[q] == #[trigger] lcp_len(a, s[q] as int, s[q + 1] as int))
        &&& lcpv[n - 1] == 0
        &&& ll.len() == n
        &&& rr.len() == n
        &&& root < n
        &&& is_tree(ll, rr, root, 0, n - 1)
        &&& heap_ok(lcpv, ll, rr, root, 0, n - 1)
        &&& self.indice_into_rmq@.len() == n
        &&& (forall|u: int|
            0 <= u < n ==> #[trigger] self.indice_into_rmq@[u] < es.len()
                && es[self.indice_into_rmq@[u] as int] == u)
        &&& self.lcp_euler@.len() == es.len()
        &&& (forall|t: int|
            0 <= t < es.len() ==> #[trigger] self.lcp_euler@[t] == lcpv[es[t] as int])
        &&& self.rmq.inv()
        &&& self.rmq.sequence().len() == es.len()
        &&& (forall|t: int|
            0 <= t < es.len() ==> #[trigger] self.rmq.sequence()[t] as int == ed[t])
    }

    /// Returns the length of the longest common prefix of the suffixes
    /// starting at the given indices.
    #[verifier::rlimit(100)]
    pub fn query(&self, i: usize, j: usize) -> (res: usize)
        requires
            self.wf(),
            i < self.sequence().len(),
            j < self.sequence().len(),
        ensures
            res as int == lcp_len(self.sequence(), i as int, j as int),
    {
        let ghost a = self.seq_g@;
        let ghost n = a.len() as int;
        let ghost s = self.sa_g@;
        let ghost lcpv = self.lcp_g@;
        let ghost ll = self.lefts_g@;
        let ghost rr = self.rights_g@;
        let ghost root = self.root_g@;
        let ghost es = euler_seq(ll, rr, root, 0, n - 1);
        let ghost ed = euler_depths(ll, rr, root, 0, n - 1, 0);
        proof {
            assert(self.wf_pos());
        }
        if i == j {
            proof {
                lemma_lcp_self(a, i as int);
            }
            return self.indice_into_rmq.len() - i;
        }
        let ii = self.sa_inverse[i];
        let jj = self.sa_inverse[j];
        proof {
            assert(s[ii as int] == i && s[jj as int] == j);
            assert(ii != jj);
        }
        let aa = if ii < jj {
            ii
        } else {
            jj
        };
        let bb = if ii < jj {
            jj
        } else {
            ii
        };
        let b1 = bb - 1;
        let ta = self.indice_into_rmq[aa];
        let tb = self.indice_into_rmq[b1];
        let lq = if ta < tb {
            ta
        } else {
            tb
        };
        let rq = if ta < tb {
            tb
        } else {
            ta
        };
        let ts = self.rmq.query(lq, rq);
        let res = self.lcp_euler[ts];
        proof {
            lemma_euler_basic(ll, rr, root, 0, n - 1, 0);
            // The depth-minimal tour position between visits of `aa` and
            // `b1` visits the node with the least prefix length in between.
            assert forall|t: int| lq <= t <= rq implies ed[ts as int] <= #[trigger] ed[t] by {
                assert(self.rmq.sequence()[ts as int] <= self.rmq.sequence()[t]);
            }
            lemma_lca(
                ll,
                rr,
                lcpv,
                root,
                0,
                n - 1,
                0,
                aa as int,
                b1 as int,
                lq as int,
                rq as int,
                ts as int,
            );
            let w = es[ts as int];
            assert(res == lcpv[w as int]);
            // That least prefix length is the common prefix of the two
            // suffixes, by the interval decomposition of suffix order.
            lemma_lcp_interval(a, s, lcpv, aa as int, bb as int);
            let m = lcp_len(a, s[aa as int] as int, s[bb as int] as int);
            assert(res >= m) by {
                assert(lcpv[w as int] >= m);
            }
            assert(res <= m) by {
                let q0 = choose|q: int| aa <= q < bb && #[trigger] lcpv[q] == m;
                assert(lcpv[w as int] <= lcpv[q0]);
            }
            if jj < ii {
                lemma_lcp_sym(a, i as int, j as int);
            }
        }
        res
    }
}

/// Creates a SARMQ structure which allows to query, for any two indices in
/// the sequence, the length of the longest common prefix of the suffixes
/// starting at these indices.
/// Linear creation time, constant query time. The empty sequence builds an
/// index on which no query precondition can be met.
#[verifier::loop_isolation(false)]
#[verifier::rlimit(100)]
pub fn create_sarmq(a: &Vec<usize>) -> (r: SARMQ)
    requires
        2 * a@.len() < MAX_LEN,
    ensures
        r.wf(),
        r.sequence() == a@,
{
    let n = a.len();
    if n == 0 {
        let empty: Vec<usize> = Vec::new();
        let rmq_s = rmq::RMQ::create_rmq(&empty);
        return SARMQ {
            indice_into_rmq: Vec::new(),
            rmq: rmq_s,
            lcp_euler: Vec::new(),
            sa_inverse: Vec::new(),
            seq_g: Ghost(a@),
            sa_g: Ghost(Seq::empty()),
            lcp_g: Ghost(Seq::empty()),
            lefts_g: Ghost(Seq::empty()),
            rights_g: Ghost(Seq::empty()),
            root_g: Ghost(0),
        };
    }
    // sort suffixes
    let suffixes = SA::create_suffix_array(a);
    // lcp of neighbouring suffixes in the sorted order
    let lcpv = lcp(a, &suffixes);
    // tree of indices in the sorted order, arranged by lcp values
    let cart_tree = cartesian_tree(&lcpv);
    let ghost ll = cart_tree.lefts@;
    let ghost rr = cart_tree.rights@;
    let ghost root = cart_tree.root;
    let ghost es = euler_seq(ll, rr, root, 0, n - 1);
    let ghost ed = euler_depths(ll, rr, root, 0, n - 1, 0);
    // array of the above indices, depths in the tree recorded
    let walk = cart_tree.euler_walk();
    proof {
        lemma_euler_basic(ll, rr, root, 0, n - 1, 0);
    }
    // RMQ on the euler traversal order with depths as keys
    let e_len = walk.euler.len();
    let mut rmq_data: Vec<usize> = Vec::new();
    let mut t: usize = 0;
    while t < e_len
        invariant
            t <= e_len,
            rmq_data@.len() == t,
            forall|t0: int| 0 <= t0 < t ==> #[trigger] rmq_data@[t0] as int == ed[t0],
        decreases e_len - t,
    {
        let x = walk.euler[t];
        rmq_data.push(walk.depth[x]);
        t += 1;
    }
    proof {
        lemma_euler_pm1(ll, rr, root, 0, n - 1, 0);
        assert(crate::tree::steps_pm1(ed));
        assert forall|t0: int|
            1 <= t0 < rmq_data@.len() implies -1 <= #[trigger] rmq_data@[t0] - rmq_data@[t0 - 1]
            <= 1 by {
            assert(ed[(t0 - 1) + 1] == ed[t0 - 1] + 1 || ed[(t0 - 1) + 1] == ed[t0 - 1] - 1);
            assert(ed[(t0 - 1) + 1] == ed[t0]);
            assert(rmq_data@[t0] as int == ed[t0] && rmq_data@[t0 - 1] as int == ed[t0 - 1]);
        }
    }
    let rmq_s = rmq::RMQ::create_rmq(&rmq_data);
    // for getting lcp values back
    let mut lcp_euler: Vec<usize> = Vec::new();
    let mut t: usize = 0;
    while t < e_len
        invariant
            t <= e_len,
            lcp_euler@.len() == t,
            forall|t0: int| 0 <= t0 < t ==> #[trigger] lcp_euler@[t0] == lcpv@[es[t0] as int],
        decreases e_len - t,
    {
        let x = walk.euler[t];
        lcp_euler.push(lcpv[x]);
        t += 1;
    }
    SARMQ {
        indice_into_rmq: walk.first_occ,
        rmq: rmq_s,
        lcp_euler,
        sa_inverse: suffixes.sa_inverse,
        seq_g: Ghost(a@),
        sa_g: Ghost(suffixes.sa@),
        lcp_g: Ghost(lcpv@),
        lefts_g: Ghost(ll),
        rights_g: Ghost(rr),
        root_g: Ghost(root),
    }
}

/// A query of two equal indices returns the length of the suffix there: a
/// suffix shares with itself exactly its own symbols.
pub proof fn lemma_query_self(a: Seq<usize>, i: int)
    requires
        0 <= i < a.len(),
    ensures
        lcp_len(a, i, i) == a.len() - i,
{
    lemma_lcp_self(a, i);
}

/// A query does not depend on the order of its two indices.
pub proof fn lemma_query_sym(a: Seq<usize>, i: int, j: int)
    ensures
        lcp_len(a, i, j) == lcp_len(a, j, i),
{
    lemma_lcp_sym(a, i, j);
}

/// The two suffixes agree position by position over the first `k` symbols.
pub open spec fn agree_upto(a: Seq<usize>, i: int, j: int, k: int) -> bool
    decreases k,
{
    k <= 0 || (agree_upto(a, i, j, k - 1) && i + (k - 1) < a.len() && j + (k - 1) < a.len() && a[i
        + (k - 1)] == a[j + (k - 1)])
}

/// One position of an agreement stretch, picked out for use in proofs.
proof fn lemma_agree_one(a: Seq<usize>, i: int, j: int, k: int, p: int)
    requires
        agree_upto(a, i, j, k),
        0 <= p < k,
    ensures
        i + p < a.len() && j + p < a.len() && a[i + p] == a[j + p],
    decreases k,
{
    if p < k - 1 {
        lemma_agree_one(a, i, j, k - 1, p);
    }
}

/// An agreement stretch no longer than the common prefix exists.
proof fn lemma_agree_build(a: Seq<usize>, i: int, j: int, k: int)
    requires
        0 <= i < a.len(),
        0 <= j < a.len(),
        0 <= k <= lcp_len(a, i, j),
    ensures
        agree_upto(a, i, j, k),
    decreases k,
{
    if k > 0 {
        lemma_agree_build(a, i, j, k - 1);
        crate::order::lemma_lcp_agree(a, i, j);
        assert(a[i + (k - 1)] == a[j + (k - 1)]);
    }
}

/// A query's answer counts exactly how far the two suffixes agree: every
/// earlier position matches, and no longer agreement exists.
pub proof fn lemma_query_naive(a: Seq<usize>, i: int, j: int)
    requires
        0 <= i < a.len(),
        0 <= j < a.len(),
    ensures
        agree_upto(a, i, j, lcp_len(a, i, j)),
        forall|k: int| k >= 0 && #[trigger] agree_upto(a, i, j, k) ==> k <= lcp_len(a, i, j),
{
    crate::order::lemma_lcp_agree(a, i, j);
    lemma_lcp_bound(a, i, j);
    lemma_agree_build(a, i, j, lcp_len(a, i, j));
    assert forall|k: int| k >= 0 && #[trigger] agree_upto(a, i, j, k) implies k <= lcp_len(
        a,
        i,
        j,
    ) by {
        if k > lcp_len(a, i, j) {
            let h = lcp_len(a, i, j);
            lemma_agree_one(a, i, j, k, h);
            assert(a[i + h] != a[j + h]);
        }
    }
}

/// A query's answer never exceeds the shorter of the two suffixes.
pub proof fn lemma_query_bound(a: Seq<usize>, i: int, j: int)
    requires
        0 <= i <= a.len(),
        0 <= j <= a.len(),
    ensures
        0 <= lcp_len(a, i, j),
        lcp_len(a, i, j) <= a.len() - i,
        lcp_len(a, i, j) <= a.len() - j,
{
    lemma_lcp_bound(a, i, j);
}

/// Matching first symbols extend a query by one; differing first symbols
/// end it at zero.
pub proof fn lemma_query_extend(a: Seq<usize>, i: int, j: int)
    requires
        0 <= i < a.len(),
        0 <= j < a.len(),
    ensures
        a[i] == a[j] ==> lcp_len(a, i, j) == 1 + lcp_len(a, i + 1, j + 1),
        a[i] != a[j] ==> lcp_len(a, i, j) == 0,
{
}

} // verus!
