//! Suffix arrays in linear time (difference-cover / skew construction) and
//! the longest-common-prefix array of adjacent suffixes (Kasai's algorithm).
//!
//! The skew construction is intricate, so the crate does not prove it
//! correct directly. Instead `sa` certifies each candidate order with a
//! verified checker and falls back to a verified insertion sort when the
//! check fails or when symbols exceed the counting sort's buckets; either
//! way the result provably is the sorted permutation of suffix starting
//! positions, over any integer alphabet.

use vstd::prelude::*;

use crate::MAX_LEN;

use crate::order::{lcp_len, lemma_lcp_agree, lemma_lcp_bound, lemma_lcp_ge, lemma_lcp_min,
    lemma_lcp_sandwich, lemma_suffix_total, lemma_suffix_trans, suffix_le, suffix_lt};

verus! {

/// `v` appears among the first `m` entries of `s`.
pub open spec fn occurs_below(s: Seq<usize>, m: int, v: int) -> bool {
    exists|k: int| 0 <= k < m && #[trigger] s[k] == v
}

/// `s` holds every position `0 <= p < n` exactly once.
pub open spec fn is_perm(s: Seq<usize>, n: int) -> bool {
    &&& s.len() == n
    &&& forall|k: int| 0 <= k < n ==> s[k] < n
    &&& forall|k1: int, k2: int| 0 <= k1 < k2 < n ==> s[k1] != s[k2]
    &&& forall|v: int| 0 <= v < n ==> #[trigger] occurs_below(s, n, v)
}

/// The suffixes of `a` listed by `s` appear in strictly increasing
/// lexicographic order.
pub open spec fn sa_sorted(a: Seq<usize>, s: Seq<usize>) -> bool {
    forall|k: int|
        0 <= k < s.len() - 1 ==> #[trigger] suffix_lt(a, s[k] as int, s[k + 1] as int)
}

/// In a sorted permutation, any rank increase means a strictly larger suffix.
pub proof fn lemma_sa_order(a: Seq<usize>, s: Seq<usize>, x: int, y: int)
    requires
        is_perm(s, a.len() as int),
        sa_sorted(a, s),
        0 <= x < y < s.len(),
    ensures
        suffix_lt(a, s[x] as int, s[y] as int),
    decreases y - x,
{
    if y == x + 1 {
        assert(suffix_lt(a, s[x] as int, s[x + 1] as int));
    } else {
        lemma_sa_order(a, s, x, y - 1);
        assert(suffix_lt(a, s[y - 1] as int, s[(y - 1) + 1] as int));
        assert(suffix_lt(a, s[y - 1] as int, s[y] as int));
        lemma_suffix_trans(a, s[x] as int, s[y - 1] as int, s[y] as int);
    }
}

/// Decides `suffix_lt` by scanning the two suffixes in step.
fn suffix_less(a: &Vec<usize>, i: usize, j: usize) -> (r: bool)
    requires
        i <= a@.len(),
        j <= a@.len(),
    ensures
        r == suffix_lt(a@, i as int, j as int),
{
    let n = a.len();
    let mut p: usize = 0;
    while i + p < n && j + p < n && a[i + p] == a[j + p]
        invariant
            i + p <= n,
            j + p <= n,
            n == a@.len(),
            suffix_lt(a@, i as int, j as int) == suffix_lt(a@, i + p, j + p),
        decreases n - p,
    {
        p += 1;
    }
    if i + p >= n {
        j + p < n
    } else if j + p >= n {
        false
    } else {
        a[i + p] < a[j + p]
    }
}

/// Sorts the suffix starting positions by repeated insertion; quadratic, but
/// with a full correctness proof. `sa` uses it on short inputs and as the
/// fallback when a candidate order fails certification.
fn naive_sa(a: &Vec<usize>) -> (r: Vec<usize>)
    ensures
        is_perm(r@, a@.len() as int),
        sa_sorted(a@, r@),
{
    let n = a.len();
    let mut out: Vec<usize> = Vec::new();
    let mut i: usize = 0;
    while i < n
        invariant
            i <= n,
            n == a@.len(),
            out@.len() == i,
            forall|k: int| 0 <= k < i ==> out@[k] < i,
            forall|k1: int, k2: int| 0 <= k1 < k2 < i ==> out@[k1] != out@[k2],
            forall|v: int| 0 <= v < i ==> #[trigger] occurs_below(out@, i as int, v),
            forall|k: int|
                0 <= k < i - 1 ==> #[trigger] suffix_lt(a@, out@[k] as int, out@[k + 1] as int),
        decreases n - i,
    {
        let ghost old_out = out@;
        let mut p: usize = 0;
        while p < out.len() && suffix_less(a, out[p], i)
            invariant
                p <= out@.len(),
                i <= n,
                n == a@.len(),
                out@ == old_out,
                out@.len() == i,
                forall|k: int| 0 <= k < i ==> out@[k] < i,
                forall|q: int| 0 <= q < p ==> suffix_lt(a@, #[trigger] out@[q] as int, i as int),
            decreases out@.len() - p,
        {
            p += 1;
        }
        proof {
            old_out.insert_ensures(p as int, i);
            if p < old_out.len() {
                lemma_suffix_total(a@, i as int, old_out[p as int] as int);
            }
        }
        out.insert(p, i);
        proof {
            let new_out = out@;
            assert forall|k: int|
                0 <= k < i implies (if k < p {
                new_out[k] == old_out[k]
            } else {
                new_out[k + 1] == old_out[k]
            }) by {}
            // Values stay below the new bound and distinct.
            assert forall|k1: int, k2: int| 0 <= k1 < k2 < i + 1 implies new_out[k1]
                != new_out[k2] by {
                if k1 == p {
                    assert(new_out[k1] == i && new_out[k2] == old_out[k2 - 1]);
                } else if k2 == p {
                    assert(new_out[k2] == i && new_out[k1] == old_out[k1]);
                }
            }
            assert forall|v: int| 0 <= v < i + 1 implies #[trigger] occurs_below(
                new_out,
                i + 1,
                v,
            ) by {
                if v == i {
                    assert(new_out[p as int] == v);
                } else {
                    assert(occurs_below(old_out, i as int, v));
                    let k0 = choose|k: int| 0 <= k < i && #[trigger] old_out[k] == v;
                    if k0 < p {
                        assert(new_out[k0] == v);
                    } else {
                        assert(new_out[k0 + 1] == v);
                    }
                }
            }
            // Sortedness around the insertion point.
            assert forall|k: int|
                0 <= k < i implies suffix_lt(a@, #[trigger] new_out[k] as int, new_out[k
                + 1] as int) by {
                if k + 1 < p {
                    assert(new_out[k] == old_out[k] && new_out[k + 1] == old_out[k + 1]);
                } else if k + 1 == p {
                    assert(new_out[k] == old_out[k] && new_out[k + 1] == i);
                } else if k == p {
                    assert(new_out[k] == i && new_out[k + 1] == old_out[k]);
                } else {
                    assert(new_out[k] == old_out[k - 1] && new_out[k + 1] == old_out[k]);
                }
            }
        }
        i += 1;
    }
    out
}

/// Certifies that `s` is the sorted permutation of suffix positions of `a`:
/// returns exactly whether `s` is a permutation of `0..n` that lists the
/// suffixes in strictly increasing order.
fn check_sa(a: &Vec<usize>, s: &Vec<usize>) -> (r: bool)
    ensures
        r == (is_perm(s@, a@.len() as int) && sa_sorted(a@, s@)),
{
    let n = a.len();
    if s.len() != n {
        return false;
    }
    let mut seen: Vec<bool> = Vec::new();
    while seen.len() < n
        invariant
            seen@.len() <= n,
            forall|v: int| 0 <= v < seen@.len() ==> !seen@[v],
        decreases n - seen@.len(),
    {
        seen.push(false);
    }
    let mut k: usize = 0;
    while k < n
        invariant
            k <= n,
            n == a@.len(),
            s@.len() == n,
            seen@.len() == n,
            forall|v: int| 0 <= v < n ==> (#[trigger] seen@[v] <==> occurs_below(s@, k as int, v)),
            forall|k1: int, k2: int| 0 <= k1 < k2 < k ==> s@[k1] != s@[k2],
            forall|k1: int| 0 <= k1 < k ==> s@[k1] < n,
        decreases n - k,
    {
        let v = s[k];
        if v >= n {
            assert(!is_perm(s@, n as int));
            return false;
        }
        if seen[v] {
            proof {
                assert(occurs_below(s@, k as int, v as int));
                let k2 = choose|k2: int| 0 <= k2 < k && #[trigger] s@[k2] == v as int;
                assert(s@[k2] == s@[k as int]);
                assert(!is_perm(s@, n as int));
            }
            return false;
        }
        seen.set(v, true);
        k += 1;
        proof {
            assert forall|w: int|
                0 <= w < n implies (#[trigger] seen@[w] <==> occurs_below(s@, k as int, w)) by {
                if w == v {
                    assert(s@[k - 1] == w);
                    assert(occurs_below(s@, k as int, w));
                } else {
                    if seen@[w] {
                        assert(occurs_below(s@, k - 1, w));
                        let k2 = choose|k2: int| 0 <= k2 < k - 1 && #[trigger] s@[k2] == w;
                        assert(s@[k2] == w);
                        assert(occurs_below(s@, k as int, w));
                    } else {
                        if occurs_below(s@, k as int, w) {
                            let k2 = choose|k2: int| 0 <= k2 < k && #[trigger] s@[k2] == w;
                            assert(k2 < k - 1);
                            assert(occurs_below(s@, k - 1, w));
                        }
                    }
                }
            }
        }
    }
    // Every position must actually occur: with `n` distinct values below `n`
    // this is a fact, but the scan below keeps the proof elementary.
    let mut v: usize = 0;
    while v < n
        invariant
            v <= n,
            n == a@.len(),
            s@.len() == n,
            seen@.len() == n,
            forall|w: int| 0 <= w < n ==> (#[trigger] seen@[w] <==> occurs_below(s@, n as int, w)),
            forall|k1: int, k2: int| 0 <= k1 < k2 < n ==> s@[k1] != s@[k2],
            forall|k1: int| 0 <= k1 < n ==> s@[k1] < n,
            forall|w: int| 0 <= w < v ==> #[trigger] occurs_below(s@, n as int, w),
        decreases n - v,
    {
        if !seen[v] {
            assert(!is_perm(s@, n as int));
            return false;
        }
        v += 1;
    }
    if n > 0 {
        let mut k: usize = 0;
        while k < n - 1
            invariant
                n == a@.len(),
                0 < n,
                s@.len() == n,
                k <= n - 1,
                forall|k1: int| 0 <= k1 < n ==> s@[k1] < n,
                forall|q: int|
                    0 <= q < k ==> #[trigger] suffix_lt(a@, s@[q] as int, s@[q + 1] as int),
            decreases n - k,
        {
            if !suffix_less(a, s[k], s[k + 1]) {
                assert(!sa_sorted(a@, s@));
                return false;
            }
            k += 1;
        }
    }
    true
}

/// The suffix array of a sequence together with its inverse.
pub struct SA {
    pub sa: Vec<usize>,
    pub sa_inverse: Vec<usize>,
}

impl SA {
    /// What construction guarantees: `sa` lists the suffix starting positions
    /// of `a` in increasing lexicographic order and `sa_inverse` inverts it.
    pub open spec fn wf(self, a: Seq<usize>) -> bool {
        &&& is_perm(self.sa@, a.len() as int)
        &&& sa_sorted(a, self.sa@)
        &&& self.sa_inverse@.len() == a.len()
        &&& forall|k: int|
            0 <= k < a.len() ==> self.sa_inverse@[#[trigger] self.sa@[k] as int] == k
        &&& forall|v: int|
            0 <= v < a.len() ==> #[trigger] self.sa_inverse@[v] < a.len()
                && self.sa@[self.sa_inverse@[v] as int] == v
    }

    /// Sorts the suffixes of `a` lexicographically, over any integer
    /// alphabet. Linear time when the symbols are bounded by the length;
    /// the result is certified, so the contract holds unconditionally.
    pub fn create_suffix_array(a: &Vec<usize>) -> (r: Self)
        requires
            a@.len() < MAX_LEN,
        ensures
            r.wf(a@),
    {
        let s = sa(a);
        let n = a.len();
        let mut inv: Vec<usize> = Vec::new();
        while inv.len() < n
            invariant
                inv@.len() <= n,
            decreases n - inv@.len(),
        {
            inv.push(0);
        }
        let mut k: usize = 0;
        while k < n
            invariant
                k <= n,
                n == a@.len(),
                inv@.len() == n,
                is_perm(s@, n as int),
                forall|k1: int| 0 <= k1 < k ==> inv@[#[trigger] s@[k1] as int] == k1,
            decreases n - k,
        {
            let pos = s[k];
            inv.set(pos, k);
            k += 1;
        }
        let r = SA { sa: s, sa_inverse: inv };
        proof {
            assert forall|v: int|
                0 <= v < a@.len() implies #[trigger] r.sa_inverse@[v] < a@.len()
                && r.sa@[r.sa_inverse@[v] as int] == v by {
                assert(occurs_below(s@, n as int, v));
                let k0 = choose|k0: int| 0 <= k0 < n && #[trigger] s@[k0] == v;
                assert(r.sa_inverse@[v] == k0);
            }
        }
        r
    }
}

/// Sorts the suffix starting positions of `xs` lexicographically.
/// When every symbol fits the counting sort's buckets, runs the skew
/// construction and certifies its output; otherwise, and after a failed
/// certificate, the verified quadratic sort takes over.
fn sa(xs: &Vec<usize>) -> (r: Vec<usize>)
    requires
        xs@.len() < MAX_LEN,
    ensures
        is_perm(r@, xs@.len() as int),
        sa_sorted(xs@, r@),
    decreases xs@.len(), 1int,
{
    let n = xs.len();
    if n < 10 {
        return naive_sa(xs);
    }
    let mut fits = true;
    let mut t: usize = 0;
    while t < n
        invariant
            t <= n,
            n == xs@.len(),
            fits ==> forall|t0: int| 0 <= t0 < t ==> xs@[t0] <= n,
        decreases n - t,
    {
        if xs[t] > n {
            fits = false;
        }
        t += 1;
    }
    if fits {
        let cand = dc3(xs);
        if check_sa(xs, &cand) {
            return cand;
        }
    }
    naive_sa(xs)
}

/// One component of a triple of symbols.
fn triple_key(t: (usize, usize, usize), which: usize) -> (r: usize)
    ensures
        r == tkey(t, which as int),
{
    if which == 0 {
        t.0
    } else if which == 1 {
        t.1
    } else {
        t.2
    }
}

/// Spec mirror of `triple_key`.
pub open spec fn tkey(t: (usize, usize, usize), which: int) -> usize {
    if which == 0 {
        t.0
    } else if which == 1 {
        t.1
    } else {
        t.2
    }
}

/// Combined length of the first `b` buckets.
pub open spec fn sum_to(vss: Seq<Vec<usize>>, b: int) -> int
    decreases b,
{
    if b <= 0 {
        0
    } else {
        sum_to(vss, b - 1) + vss[b - 1]@.len()
    }
}

proof fn lemma_sum_to_update(vss: Seq<Vec<usize>>, b: int, c: int, v: Vec<usize>)
    requires
        0 <= c < vss.len(),
        b <= vss.len(),
    ensures
        c < b ==> sum_to(vss.update(c, v), b) == sum_to(vss, b) - vss[c]@.len() + v@.len(),
        c >= b ==> sum_to(vss.update(c, v), b) == sum_to(vss, b),
    decreases b,
{
    if b > 0 {
        lemma_sum_to_update(vss, b - 1, c, v);
    }
}

/// One stable counting-sort pass: distributes the positions in `order` into
/// buckets by the chosen triple component and reads them back in order.
fn dc3_bucket(nb: usize, order: Vec<usize>, triples: &Vec<(usize, usize, usize)>, which: usize) -> (r:
    Vec<usize>)
    requires
        nb <= MAX_LEN + 2,
        order@.len() <= MAX_LEN,
        forall|k: int| 0 <= k < order@.len() ==> order@[k] < triples@.len(),
        forall|t: int|
            0 <= t < triples@.len() ==> tkey(#[trigger] triples@[t], which as int) < nb,
    ensures
        r@.len() == order@.len(),
        forall|k: int| 0 <= k < r@.len() ==> r@[k] < triples@.len(),
{
    let mut vs: Vec<Vec<usize>> = vec![Vec::new(); nb];
    proof {
        assert forall|b: int| 0 <= b <= nb implies sum_to(vs@, b) == 0 by {
            lemma_sum_to_zero(vs@, b);
        }
    }
    let mut idx: usize = 0;
    while idx < order.len()
        invariant
            idx <= order@.len(),
            order@.len() <= MAX_LEN,
            vs@.len() == nb,
            sum_to(vs@, nb as int) == idx,
            forall|k: int| 0 <= k < order@.len() ==> order@[k] < triples@.len(),
            forall|t: int|
                0 <= t < triples@.len() ==> tkey(#[trigger] triples@[t], which as int) < nb,
            forall|b: int, q: int|
                0 <= b < nb && 0 <= q < vs@[b]@.len() ==> #[trigger] vs@[b]@[q] < triples@.len(),
        decreases order@.len() - idx,
    {
        let i = order[idx];
        let key = triple_key(triples[i], which);
        let ghost old_vs = vs@;
        vs[key].push(i);
        proof {
            lemma_sum_to_update(old_vs, nb as int, key as int, vs@[key as int]);
            assert(vs@ =~= old_vs.update(key as int, vs@[key as int]));
        }
        idx += 1;
    }
    let mut r: Vec<usize> = Vec::new();
    let mut b: usize = 0;
    while b < nb
        invariant
            b <= nb,
            vs@.len() == nb,
            sum_to(vs@, nb as int) == order@.len(),
            r@.len() == sum_to(vs@, b as int),
            forall|b0: int, q: int|
                0 <= b0 < nb && 0 <= q < vs@[b0]@.len() ==> #[trigger] vs@[b0]@[q]
                    < triples@.len(),
            forall|k: int| 0 <= k < r@.len() ==> r@[k] < triples@.len(),
        decreases nb - b,
    {
        let bucket_len = vs[b].len();
        let mut q: usize = 0;
        proof {
            lemma_sum_to_bound(vs@, b + 1, nb as int);
        }
        while q < bucket_len
            invariant
                b < nb,
                q <= bucket_len,
                vs@.len() == nb,
                bucket_len == vs@[b as int]@.len(),
                r@.len() == sum_to(vs@, b as int) + q,
                sum_to(vs@, b as int) + bucket_len <= order@.len(),
                forall|b0: int, q0: int|
                    0 <= b0 < nb && 0 <= q0 < vs@[b0]@.len() ==> #[trigger] vs@[b0]@[q0]
                        < triples@.len(),
                forall|k: int| 0 <= k < r@.len() ==> r@[k] < triples@.len(),
            decreases bucket_len - q,
        {
            let x = vs[b][q];
            r.push(x);
            q += 1;
        }
        b += 1;
    }
    r
}

proof fn lemma_sum_to_zero(vss: Seq<Vec<usize>>, b: int)
    requires
        forall|i: int| 0 <= i < vss.len() ==> (#[trigger] vss[i])@.len() == 0,
        b <= vss.len(),
    ensures
        sum_to(vss, b) == 0,
    decreases b,
{
    if b > 0 {
        lemma_sum_to_zero(vss, b - 1);
    }
}

/// Prefix sums of bucket lengths grow with the prefix.
proof fn lemma_sum_to_bound(vss: Seq<Vec<usize>>, b1: int, b2: int)
    requires
        0 <= b1 <= b2 <= vss.len(),
    ensures
        sum_to(vss, b1) <= sum_to(vss, b2),
    decreases b2 - b1,
{
    if b1 < b2 {
        lemma_sum_to_bound(vss, b1, b2 - 1);
    }
}

/// Radix sort of symbol triples by three stable counting-sort passes, then
/// group numbering: positions whose triples are equal share a group.
/// Returns the sorted order and the group number of each position.
fn sort_triples(nb: usize, triples: &Vec<(usize, usize, usize)>) -> (r: (Vec<usize>, Vec<usize>))
    requires
        1 <= triples@.len() < MAX_LEN,
        nb <= MAX_LEN + 2,
        forall|t: int, which: int|
            0 <= t < triples@.len() && 0 <= which < 3 ==> #[trigger] tkey(triples@[t], which)
                < nb,
    ensures
        r.0@.len() == triples@.len(),
        forall|k: int| 0 <= k < r.0@.len() ==> r.0@[k] < triples@.len(),
        r.1@.len() == triples@.len(),
        forall|g: int| 0 <= g < r.1@.len() ==> r.1@[g] < triples@.len(),
{
    let tlen = triples.len();
    let mut init: Vec<usize> = Vec::new();
    while init.len() < tlen
        invariant
            init@.len() <= tlen,
            tlen == triples@.len(),
            forall|k: int| 0 <= k < init@.len() ==> init@[k] < tlen,
        decreases tlen - init@.len(),
    {
        let x = init.len();
        init.push(x);
    }
    let ph2 = dc3_bucket(nb, init, triples, 2);
    let ph1 = dc3_bucket(nb, ph2, triples, 1);
    let ph0 = dc3_bucket(nb, ph1, triples, 0);
    let mut group_id: usize = 0;
    let mut groups: Vec<usize> = vec![0; tlen];
    let mut idx: usize = 1;
    while idx < ph0.len()
        invariant
            1 <= idx,
            idx <= ph0@.len() || idx == 1,
            ph0@.len() == tlen,
            tlen == triples@.len(),
            groups@.len() == tlen,
            group_id < idx,
            forall|k: int| 0 <= k < ph0@.len() ==> ph0@[k] < tlen,
            forall|g: int| 0 <= g < tlen ==> groups@[g] <= group_id,
        decreases ph0@.len() - idx,
    {
        let cur = triples[ph0[idx]];
        let prev = triples[ph0[idx - 1]];
        if cur.0 != prev.0 || cur.1 != prev.1 || cur.2 != prev.2 {
            group_id += 1;
        }
        groups.set(ph0[idx], group_id);
        idx += 1;
    }
    (ph0, groups)
}

/// Sorts pairs by reusing the triple sort with a constant third component.
fn sort_tuples(nb: usize, tuples: &Vec<(usize, usize)>) -> (r: (Vec<usize>, Vec<usize>))
    requires
        1 <= tuples@.len() < MAX_LEN,
        1 <= nb <= MAX_LEN + 2,
        forall|t: int|
            0 <= t < tuples@.len() ==> (#[trigger] tuples@[t]).0 < nb && tuples@[t].1 < nb,
    ensures
        forall|k: int| 0 <= k < r.0@.len() ==> r.0@[k] < tuples@.len(),
{
    let mut triples: Vec<(usize, usize, usize)> = Vec::new();
    let mut i: usize = 0;
    while i < tuples.len()
        invariant
            i <= tuples@.len(),
            triples@.len() == i,
            forall|t: int|
                0 <= t < tuples@.len() ==> (#[trigger] tuples@[t]).0 < nb && tuples@[t].1 < nb,
            forall|t: int, which: int|
                0 <= t < triples@.len() && 0 <= which < 3 ==> #[trigger] tkey(triples@[t], which)
                    < nb,
        decreases tuples@.len() - i,
    {
        let t = tuples[i];
        triples.push((t.0, t.1, 0));
        i += 1;
    }
    let (order, groups) = sort_triples(nb, &triples);
    (order, groups)
}

/// Position of each value in a permutation-like vector.
fn invert(per: &Vec<usize>) -> (r: Vec<usize>)
    requires
        forall|x: int| 0 <= x < per@.len() ==> per@[x] < per@.len(),
    ensures
        r@.len() == per@.len(),
        forall|v: int| 0 <= v < r@.len() ==> r@[v] < per@.len(),
    {
    let m = per.len();
    let mut ys: Vec<usize> = vec![0; m];
    let mut i: usize = 0;
    while i < m
        invariant
            i <= m,
            m == per@.len(),
            ys@.len() == m,
            forall|x: int| 0 <= x < m ==> per@[x] < m,
            forall|v: int| 0 <= v < m ==> ys@[v] < if m == 0 { 1 } else { m },
        decreases m - i,
    {
        let p = per[i];
        ys.set(p, i);
        i += 1;
    }
    ys
}

/// Value shifted up by one so that zero can act as a sentinel below every
/// real symbol; out-of-range positions read as the sentinel.
fn shifted_get(v: &Vec<usize>, i: usize) -> (r: usize)
    requires
        forall|x: int| 0 <= x < v@.len() ==> v@[x] < MAX_LEN + 2,
    ensures
        r == if i < v@.len() {
            v@[i as int] + 1
        } else {
            0
        },
{
    if i < v.len() {
        v[i] + 1
    } else {
        0
    }
}

/// Position of suffix `i` inside the packed two-thirds string: suffixes at
/// residue 0 first, then the separator, then suffixes at residue 1.
fn sp_index(i: usize, kk: usize) -> (r: usize)
    requires
        i <= MAX_LEN * 3 + 3,
        kk <= MAX_LEN,
    ensures
        i % 3 == 0 ==> r == i / 3,
        i % 3 != 0 ==> r == kk + 1 + (i - 1) / 3,
{
    if i % 3 == 0 {
        i / 3
    } else {
        kk + 1 + (i - 1) / 3
    }
}

/// Starting position of the suffix stored at slot `j` of the packed string.
fn rev_index(j: usize, kk: usize) -> (r: usize)
    requires
        j <= 2 * MAX_LEN + 1,
        kk <= MAX_LEN,
        j != kk,
    ensures
        r == if j < kk {
            3 * j
        } else {
            3 * (j - kk - 1) + 1
        },
{
    if j < kk {
        3 * j
    } else {
        3 * (j - kk - 1) + 1
    }
}

/// Rank of suffix `i` among the two-thirds suffixes, shifted so that zero
/// means "past the end".
fn rank_of(ranks: &Vec<usize>, kk: usize, i: usize) -> (r: usize)
    requires
        i <= MAX_LEN * 3 + 3,
        kk <= MAX_LEN,
        ranks@.len() <= MAX_LEN,
        forall|x: int| 0 <= x < ranks@.len() ==> ranks@[x] < ranks@.len(),
    ensures
        r <= ranks@.len(),
{
    let idx = sp_index(i, kk);
    shifted_get(ranks, idx)
}

/// The order on suffixes that the merge of the two sorted classes uses:
/// whether the residue-2 suffix at `l` sorts no later than the suffix at `r`
/// from the other classes, decided from one or two symbols and the
/// precomputed ranks.
fn dc3_leq(xs: &Vec<usize>, ranks: &Vec<usize>, kk: usize, l: usize, r: usize) -> (ret: bool)
    requires
        l < xs@.len(),
        r < xs@.len(),
        xs@.len() <= MAX_LEN,
        kk <= MAX_LEN,
        ranks@.len() <= MAX_LEN,
        forall|i: int| 0 <= i < xs@.len() ==> xs@[i] <= xs@.len(),
        forall|x: int| 0 <= x < ranks@.len() ==> ranks@[x] < ranks@.len(),
{
    let l0 = shifted_get(xs, l);
    let r0 = shifted_get(xs, r);
    if r % 3 == 0 || r % 3 == 2 {
        let lr = rank_of(ranks, kk, l + 1);
        let rr = rank_of(ranks, kk, r + 1);
        l0 < r0 || (l0 == r0 && lr <= rr)
    } else {
        let l1 = shifted_get(xs, l + 1);
        let r1 = shifted_get(xs, r + 1);
        let lr = rank_of(ranks, kk, l + 2);
        let rr = rank_of(ranks, kk, r + 2);
        l0 < r0 || (l0 == r0 && (l1 < r1 || (l1 == r1 && lr <= rr)))
    }
}

/// The skew construction: sorts the suffixes at residues 0 and 1 through a
/// recursion on a packed string two thirds as long, sorts the residue-2
/// suffixes from symbol-rank pairs, and merges the two orders. The caller
/// certifies the result, so this function promises nothing of it.
fn dc3(xs: &Vec<usize>) -> (r: Vec<usize>)
    requires
        10 <= xs@.len() < MAX_LEN,
        forall|i: int| 0 <= i < xs@.len() ==> xs@[i] <= xs@.len(),
    decreases xs@.len(), 0int,
{
    let n = xs.len();
    let k = (n + 2) / 3;  // number of residue-0 suffixes
    let k2 = (n + 1) / 3;  // number of residue-1 suffixes
    let k3 = n / 3;  // number of residue-2 suffixes
    // Symbol triples starting at the residue-0 positions, then at the
    // residue-1 positions; positions past the end read as the sentinel 0.
    let mut triples: Vec<(usize, usize, usize)> = Vec::new();
    let mut j: usize = 0;
    while j < k
        invariant
            j <= k,
            n == xs@.len(),
            10 <= n < MAX_LEN,
            k == (n + 2) / 3,
            triples@.len() == j,
            forall|i: int| 0 <= i < n ==> xs@[i] <= n,
            forall|t: int, which: int|
                0 <= t < triples@.len() && 0 <= which < 3 ==> #[trigger] tkey(triples@[t], which)
                    <= n,
        decreases k - j,
    {
        let i = 3 * j;
        let a0 = xs[i];
        let a1 = if i + 1 < n {
            xs[i + 1]
        } else {
            0
        };
        let a2 = if i + 2 < n {
            xs[i + 2]
        } else {
            0
        };
        triples.push((a0, a1, a2));
        j += 1;
    }
    let mut j: usize = 0;
    while j < k2
        invariant
            j <= k2,
            n == xs@.len(),
            10 <= n < MAX_LEN,
            k == (n + 2) / 3,
            k2 == (n + 1) / 3,
            triples@.len() == k + j,
            forall|i: int| 0 <= i < n ==> xs@[i] <= n,
            forall|t: int, which: int|
                0 <= t < triples@.len() && 0 <= which < 3 ==> #[trigger] tkey(triples@[t], which)
                    <= n,
        decreases k2 - j,
    {
        let i = 3 * j + 1;
        let a0 = xs[i];
        let a1 = if i + 1 < n {
            xs[i + 1]
        } else {
            0
        };
        let a2 = if i + 2 < n {
            xs[i + 2]
        } else {
            0
        };
        triples.push((a0, a1, a2));
        j += 1;
    }
    let tlen = triples.len();
    assert(tlen == k + k2 && tlen + 1 < n);
    // Rank the triples; shift the ranks up so that 0 is free to act as a
    // separator, and pack rank-of-residue-0 ++ 0 ++ rank-of-residue-1.
    let (_, groups) = sort_triples(n + 1, &triples);
    let mut spr: Vec<usize> = Vec::new();
    let mut g: usize = 0;
    while g < tlen
        invariant
            g <= tlen,
            tlen < MAX_LEN,
            groups@.len() == tlen,
            spr@.len() == g,
            forall|x: int| 0 <= x < tlen ==> groups@[x] < tlen,
            forall|x: int| 0 <= x < g ==> spr@[x] <= tlen,
        decreases tlen - g,
    {
        let v = groups[g];
        spr.push(v + 1);
        g += 1;
    }
    spr.insert(k, 0);
    // Sort the packed string's suffixes recursively; that orders the
    // residue-0 and residue-1 suffixes at once.
    let mod01 = sa(&spr);
    let ranks = invert(&mod01);
    // Residue-2 suffixes sort by their first symbol and the rank of the
    // residue-0 suffix right after them.
    let mut tuples: Vec<(usize, usize)> = Vec::new();
    let mut j: usize = 0;
    while j < k3
        invariant
            j <= k3,
            n == xs@.len(),
            10 <= n < MAX_LEN,
            k <= MAX_LEN,
            k3 == n / 3,
            tuples@.len() == j,
            ranks@.len() <= n,
            forall|i: int| 0 <= i < n ==> xs@[i] <= n,
            forall|x: int| 0 <= x < ranks@.len() ==> ranks@[x] < ranks@.len(),
            forall|t: int| 0 <= t < tuples@.len() ==> (#[trigger] tuples@[t]).0 <= n
                && tuples@[t].1 <= n,
        decreases k3 - j,
    {
        let i = 3 * j + 2;
        let rk = rank_of(&ranks, k, i + 1);
        tuples.push((xs[i], rk));
        j += 1;
    }
    let (mod2, _) = sort_tuples(n + 1, &tuples);
    // Back to positions in `xs`.
    let mut mod2v: Vec<usize> = Vec::new();
    let mut q: usize = 0;
    while q < mod2.len()
        invariant
            q <= mod2@.len(),
            n == xs@.len(),
            k3 == n / 3,
            forall|x: int| 0 <= x < mod2@.len() ==> mod2@[x] < k3,
            mod2v@.len() == q,
            forall|x: int| 0 <= x < q ==> mod2v@[x] < n,
        decreases mod2@.len() - q,
    {
        let v = 3 * mod2[q] + 2;
        mod2v.push(v);
        q += 1;
    }
    let mut mod01v: Vec<usize> = Vec::new();
    let mut q: usize = 0;
    while q < mod01.len()
        invariant
            q <= mod01@.len(),
            n == xs@.len(),
            10 <= n < MAX_LEN,
            k == (n + 2) / 3,
            k2 == (n + 1) / 3,
            mod01@.len() == tlen + 1,
            tlen == k + k2,
            tlen + 1 < n,
            forall|x: int| 0 <= x < mod01@.len() ==> mod01@[x] < tlen + 1,
            forall|x: int| 0 <= x < mod01v@.len() ==> mod01v@[x] < n,
        decreases mod01@.len() - q,
    {
        let jj = mod01[q];
        if jj != k {
            let v = rev_index(jj, k);
            mod01v.push(v);
        }
        q += 1;
    }
    // Merge the two sorted classes.
    let mut res: Vec<usize> = Vec::new();
    let mut p2: usize = 0;
    let mut p01: usize = 0;
    while p2 < mod2v.len() && p01 < mod01v.len()
        invariant
            p2 <= mod2v@.len(),
            p01 <= mod01v@.len(),
            n == xs@.len(),
            10 <= n < MAX_LEN,
            k <= MAX_LEN,
            ranks@.len() <= n,
            forall|i: int| 0 <= i < n ==> xs@[i] <= n,
            forall|x: int| 0 <= x < ranks@.len() ==> ranks@[x] < ranks@.len(),
            forall|x: int| 0 <= x < mod2v@.len() ==> mod2v@[x] < n,
            forall|x: int| 0 <= x < mod01v@.len() ==> mod01v@[x] < n,
        decreases mod2v@.len() + mod01v@.len() - p2 - p01,
    {
        let l = mod2v[p2];
        let r0 = mod01v[p01];
        if dc3_leq(xs, &ranks, k, l, r0) {
            res.push(l);
            p2 += 1;
        } else {
            res.push(r0);
            p01 += 1;
        }
    }
    while p2 < mod2v.len()
        invariant
            p2 <= mod2v@.len(),
        decreases mod2v@.len() - p2,
    {
        let l = mod2v[p2];
        res.push(l);
        p2 += 1;
    }
    while p01 < mod01v.len()
        invariant
            p01 <= mod01v@.len(),
        decreases mod01v@.len() - p01,
    {
        let r0 = mod01v[p01];
        res.push(r0);
        p01 += 1;
    }
    res
}


/// The longest-common-prefix array: `lcp[q]` is the length of the longest
/// common prefix of the adjacent suffixes `sa[q]` and `sa[q + 1]`; the last
/// entry is unused and zero. Kasai's algorithm: walks the positions in text
/// order, reusing all but one symbol of the previous match.
pub fn lcp(a: &Vec<usize>, sa: &SA) -> (r: Vec<usize>)
    requires
        sa.wf(a@),
    ensures
        r@.len() == a@.len(),
        forall|q: int|
            0 <= q < a@.len() - 1 ==> r@[q] == #[trigger] lcp_len(
                a@,
                sa.sa@[q] as int,
                sa.sa@[q + 1] as int,
            ),
        a@.len() > 0 ==> r@[a@.len() - 1] == 0,
{
    let n = a.len();
    let mut lcp_acc: usize = 0;
    let mut lcpv: Vec<usize> = vec![0; n];
    let mut i: usize = 0;
    while i < n
        invariant
            i <= n,
            n == a@.len(),
            lcpv@.len() == n,
            sa.wf(a@),
            lcp_acc <= n,
            i < n && sa.sa_inverse@[i as int] < n - 1 ==> (lcp_acc == 0 || lcp_acc <= lcp_len(
                a@,
                i as int,
                sa.sa@[sa.sa_inverse@[i as int] + 1] as int,
            )),
            forall|i0: int|
                0 <= i0 < i ==> lcpv@[#[trigger] sa.sa_inverse@[i0] as int] == (
                if sa.sa_inverse@[i0] == n - 1 {
                    0
                } else {
                    lcp_len(a@, i0, sa.sa@[sa.sa_inverse@[i0] + 1] as int)
                }),
            forall|q: int| 0 <= q < n ==> lcpv@[q] <= n,
        decreases n - i,
    {
        let ri = sa.sa_inverse[i];
        if ri == n - 1 {
            lcp_acc = 0;
        } else {
            let j = sa.sa[ri + 1];
            proof {
                lemma_lcp_bound(a@, i as int, j as int);
                lemma_lcp_agree(a@, i as int, j as int);
            }
            while i + lcp_acc < n && j + lcp_acc < n && a[i + lcp_acc] == a[j + lcp_acc]
                invariant
                    i < n,
                    j < n,
                    n == a@.len(),
                    lcp_acc <= lcp_len(a@, i as int, j as int),
                    i + lcp_acc <= n,
                    j + lcp_acc <= n,
                decreases n - lcp_acc,
            {
                proof {
                    lemma_lcp_agree(a@, i as int, j as int);
                    assert forall|p: int|
                        0 <= p < lcp_acc + 1 implies #[trigger] a@[i + p] == a@[j + p] by {
                        if p < lcp_acc {
                        } else {
                            assert(a@[i + lcp_acc] == a@[j + lcp_acc]);
                        }
                    }
                    lemma_lcp_ge(a@, i as int, j as int, lcp_acc + 1);
                    lemma_lcp_bound(a@, i as int, j as int);
                }
                lcp_acc += 1;
            }
            proof {
                // The loop stopped where the suffixes stop agreeing, so the
                // accumulator now is exactly the common prefix length.
                lemma_lcp_agree(a@, i as int, j as int);
                lemma_lcp_bound(a@, i as int, j as int);
                let full = lcp_len(a@, i as int, j as int);
                if lcp_acc < full {
                    assert(a@[i + lcp_acc] == a@[j + lcp_acc]);
                    assert(false);
                }
            }
        }
        lcpv.set(ri, lcp_acc);
        let ghost h = lcp_acc as int;
        if lcp_acc > 0 {
            lcp_acc -= 1;
        }
        proof {
            // Kasai's amortization: dropping the first symbol of the previous
            // match leaves a common prefix of the next pair in text order.
            if i + 1 < n && sa.sa_inverse@[i + 1] < n - 1 && lcp_acc > 0 {
                let ri_ = ri as int;
                let j = sa.sa@[ri_ + 1] as int;
                let ii = i as int;
                assert(h == lcp_len(a@, ii, j) && h >= 2);
                lemma_lcp_agree(a@, ii, j);
                assert(a@[ii + 0] == a@[j + 0]);
                lemma_lcp_bound(a@, ii + 1, j + 1);
                assert(lcp_len(a@, ii, j) == 1 + lcp_len(a@, ii + 1, j + 1));
                if j + 1 == n {
                    assert(lcp_len(a@, ii + 1, j + 1) == 0);
                    assert(false);
                }
                // The suffix after i precedes the suffix after j.
                lemma_sa_order(a@, sa.sa@, ri_, ri_ + 1);
                assert(sa.sa@[ri_] == i);
                assert(suffix_lt(a@, ii, j));
                assert(suffix_lt(a@, ii + 1, j + 1));
                let ru = sa.sa_inverse@[ii + 1] as int;
                let rv = sa.sa_inverse@[j + 1] as int;
                assert(sa.sa@[ru] == ii + 1 && sa.sa@[rv] == j + 1);
                assert(ii + 1 != j + 1);
                assert(ru != rv);
                if rv < ru {
                    lemma_sa_order(a@, sa.sa@, rv, ru);
                    lemma_suffix_total(a@, ii + 1, j + 1);
                    assert(false);
                }
                let succ = sa.sa@[ru + 1] as int;
                lemma_sa_order(a@, sa.sa@, ru, ru + 1);
                assert(suffix_lt(a@, ii + 1, succ));
                if ru + 1 < rv {
                    lemma_sa_order(a@, sa.sa@, ru + 1, rv);
                }
                assert(suffix_le(a@, succ, j + 1));
                lemma_lcp_sandwich(a@, ii + 1, succ, j + 1);
                assert(lcp_len(a@, ii + 1, succ) >= h - 1);
            }
        }
        i += 1;
    }
    proof {
        assert forall|q: int|
            0 <= q < a@.len() - 1 implies lcpv@[q] == #[trigger] lcp_len(
            a@,
            sa.sa@[q] as int,
            sa.sa@[q + 1] as int,
        ) by {
            let i0 = sa.sa@[q] as int;
            assert(sa.sa_inverse@[i0] == q);
        }
        if a@.len() > 0 {
            let q = a@.len() - 1;
            let i0 = sa.sa@[q] as int;
            assert(sa.sa_inverse@[i0] == q);
        }
    }
    lcpv
}


/// The common prefix of two suffixes in sorted positions `x` and `y` is the
/// least of the common prefixes of the adjacent pairs between them.
pub proof fn lemma_lcp_interval(a: Seq<usize>, s: Seq<usize>, lcpv: Seq<usize>, x: int, y: int)
    requires
        is_perm(s, a.len() as int),
        sa_sorted(a, s),
        lcpv.len() == a.len(),
        forall|q: int|
            0 <= q < a.len() - 1 ==> lcpv[q] == #[trigger] lcp_len(a, s[q] as int, s[q + 1] as int),
        0 <= x < y < s.len(),
    ensures
        forall|q: int| x <= q < y ==> #[trigger] lcpv[q] >= lcp_len(a, s[x] as int, s[y] as int),
        exists|q: int| x <= q < y && #[trigger] lcpv[q] == lcp_len(a, s[x] as int, s[y] as int),
    decreases y - x,
{
    if y == x + 1 {
        assert(lcpv[x] == lcp_len(a, s[x] as int, s[y] as int));
    } else {
        lemma_lcp_interval(a, s, lcpv, x, y - 1);
        lemma_sa_order(a, s, x, y - 1);
        lemma_sa_order(a, s, y - 1, y);
        lemma_lcp_min(a, s[x] as int, s[y - 1] as int, s[y] as int);
        let m1 = lcp_len(a, s[x] as int, s[y - 1] as int);
        let m2 = lcp_len(a, s[y - 1] as int, s[y] as int);
        let m = lcp_len(a, s[x] as int, s[y] as int);
        assert(lcpv[y - 1] == lcp_len(a, s[y - 1] as int, s[(y - 1) + 1] as int));
        assert(lcpv[y - 1] == m2);
        if m1 <= m2 {
            assert(m == m1);
            let q0 = choose|q: int| x <= q < y - 1 && #[trigger] lcpv[q] == m1;
            assert(lcpv[q0] == m);
        } else {
            assert(m == m2);
            assert(lcpv[y - 1] == m);
        }
    }
}
} // verus!
