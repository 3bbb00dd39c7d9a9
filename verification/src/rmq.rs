//! Range-minimum queries in constant time on a sequence whose consecutive
//! entries differ by at most one (the depth sequence of an Euler tour has
//! this shape). Four-Russians decomposition: the sequence is cut into blocks
//! of logarithmic size, a doubling table answers queries over whole blocks,
//! and per-shape tables shared between equally-shaped blocks answer the
//! queries inside a block.

use vstd::prelude::*;

use unzip3::Unzip3;

use vstd::arithmetic::power2::{lemma2_to64, lemma_pow2_strictly_increases, lemma_pow2_unfold,
    pow2};

use crate::rmq_tables::{blk_summary_ok, build_sparse, build_summaries, build_tables,
    min_summary_ok};

use crate::MAX_LEN;

verus! {

/// A value together with the position it was found at.
#[derive(Debug, Clone, Copy)]
pub struct Min<A, B> {
    pub min: A,
    pub argmin: B,
}

impl<A, B> Min<A, B> {
    pub fn new(min: A, argmin: B) -> (r: Self)
        ensures
            r.min == min,
            r.argmin == argmin,
    {
        Min { min, argmin }
    }
}

impl Min<usize, usize> {
    /// The smaller of two candidates; on equal values the left one wins.
    pub fn min(self, other: Self) -> (r: Self)
        ensures
            r == (if self.min > other.min {
                other
            } else {
                self
            }),
    {
        if self.min > other.min {
            other
        } else {
            self
        }
    }
}

impl Min<i64, usize> {
    /// The smaller of two candidates; on equal values the left one wins.
    pub fn min(self, other: Self) -> (r: Self)
        ensures
            r == (if self.min > other.min {
                other
            } else {
                self
            }),
    {
        if self.min > other.min {
            other
        } else {
            self
        }
    }
}

/// Relies on num's `Bounded::max_value` for `usize`: it returns `usize::MAX`.
#[verifier::external_body]
fn usize_upper_bound() -> (r: usize)
    ensures
        r == usize::MAX,
{
    <usize as num::Bounded>::max_value()
}

/// Relies on num's `Bounded::max_value` for `i64`: it returns `i64::MAX`.
#[verifier::external_body]
fn i64_upper_bound() -> (r: i64)
    ensures
        r == i64::MAX,
{
    <i64 as num::Bounded>::max_value()
}

impl Default for Min<usize, usize> {
    /// The neutral element of `min`: a value larger than any real entry.
    fn default() -> (r: Self)
        ensures
            r.min == usize::MAX,
            r.argmin == 0,
    {
        Min { min: usize_upper_bound(), argmin: 0 }
    }
}

impl Default for Min<i64, usize> {
    /// The neutral element of `min`: a value larger than any real entry.
    fn default() -> (r: Self)
        ensures
            r.min == i64::MAX,
            r.argmin == 0,
    {
        Min { min: i64_upper_bound(), argmin: 0 }
    }
}

/// Relies on unzip3's `Unzip3::unzip3` for iterators collected into vectors:
/// the three results are the three components of the input triples, in order.
#[verifier::external_body]
fn unzip_blocks(v: Vec<(Min<usize, usize>, usize, Vec<i8>)>) -> (r: (
    Vec<Min<usize, usize>>,
    Vec<usize>,
    Vec<Vec<i8>>,
))
    ensures
        r.0@.len() == v@.len(),
        r.1@.len() == v@.len(),
        r.2@.len() == v@.len(),
        forall|g: int| 0 <= g < v@.len() ==> r.0@[g] == (#[trigger] v@[g]).0,
        forall|g: int| 0 <= g < v@.len() ==> r.1@[g] == (#[trigger] v@[g]).1,
        forall|g: int| 0 <= g < v@.len() ==> r.2@[g] == (#[trigger] v@[g]).2,
{
    v.into_iter().unzip3()
}

/// Position of the answer for the in-block range `[left, right]` inside a
/// block's answer table.
pub fn query_index(left: usize, right: usize) -> (r: usize)
    requires
        left <= 0xffff,
        right <= 0xffff,
    ensures
        r == qi(left as int, right as int),
{
    proof {
        assert(right * (right + 1) <= 0xffff * 0x10000) by (nonlinear_arith)
            requires
                right <= 0xffff,
        ;
    }
    right * (right + 1) / 2 + left
}

/// Spec mirror of `query_index`.
pub open spec fn qi(left: int, right: int) -> int {
    right * (right + 1) / 2 + left
}

/// Table positions of distinct in-block ranges differ.
pub(crate) proof fn lemma_qi_inj(x1: int, y1: int, x2: int, y2: int)
    requires
        0 <= x1 <= y1,
        0 <= x2 <= y2,
        (x1, y1) != (x2, y2),
    ensures
        qi(x1, y1) != qi(x2, y2),
{
    if y1 == y2 {
        assert(qi(x1, y1) != qi(x2, y2));
    } else {
        let (xa, ya, xb, yb) = if y1 < y2 {
            (x1, y1, x2, y2)
        } else {
            (x2, y2, x1, y1)
        };
        assert(qi(xa, ya) < qi(xb, yb)) by (nonlinear_arith)
            requires
                0 <= xa <= ya,
                0 <= xb <= yb,
                ya < yb,
        ;
    }
}

/// The last table slot of a block of size `b` is the largest one.
pub(crate) proof fn lemma_qi_bound(x: int, y: int, b: int)
    requires
        0 <= x <= y < b,
    ensures
        0 <= qi(x, y) < b * (b + 1) / 2,
{
    assert(y * (y + 1) / 2 + x < b * (b + 1) / 2) by (nonlinear_arith)
        requires
            0 <= x <= y < b,
    ;
    assert(y * (y + 1) / 2 + x >= 0) by (nonlinear_arith)
        requires
            0 <= x <= y,
    ;
}

/// Powers of three, for counting block shapes.
pub open spec fn pow3(e: nat) -> nat
    decreases e,
{
    if e == 0 {
        1
    } else {
        3 * pow3((e - 1) as nat)
    }
}

/// `2^e` as a machine word; block counts stay far below the range where this
/// could overflow.
pub(crate) fn pow2e(e: usize) -> (r: usize)
    requires
        e <= 30,
    ensures
        r == pow2(e as nat),
        1 <= r <= 0x40000000,
{
    proof {
        assert(pow2(0) == 1 && pow2(30) == 0x40000000) by {
            lemma2_to64();
        }
    }
    let mut k: usize = 0;
    let mut p: usize = 1;
    while k < e
        invariant
            k <= e <= 30,
            p == pow2(k as nat),
            1 <= p <= 0x40000000,
        decreases e - k,
    {
        proof {
            lemma_pow2_unfold((k + 1) as nat);
            if k + 1 < 30 {
                lemma_pow2_strictly_increases((k + 1) as nat, 30);
            }
            assert(pow2(30) == 0x40000000) by {
                lemma2_to64();
            }
        }
        p = p * 2;
        k += 1;
    }
    p
}

/// `3^e` as a machine word; the exponent is a block size, at most seven.
pub(crate) fn pow3e(e: usize) -> (r: usize)
    requires
        e <= 16,
    ensures
        r == pow3(e as nat),
        1 <= r <= 43046721,
{
    proof {
        lemma_pow3_mono(e as nat, 16);
        assert(pow3(16) == 43046721) by {
            reveal_with_fuel(pow3, 17);
        }
    }
    let mut k: usize = 0;
    let mut p: usize = 1;
    while k < e
        invariant
            k <= e <= 16,
            p == pow3(k as nat),
            p <= 43046721,
        decreases e - k,
    {
        proof {
            lemma_pow3_mono((k + 1) as nat, 16);
            assert(pow3(16) == 43046721) by {
                reveal_with_fuel(pow3, 17);
            }
        }
        p = p * 3;
        k += 1;
    }
    p
}

/// Powers of three grow with the exponent.
pub(crate) proof fn lemma_pow3_mono(e1: nat, e2: nat)
    requires
        e1 <= e2,
    ensures
        pow3(e1) <= pow3(e2),
        pow3(e1) >= 1,
    decreases e2,
{
    if e2 > 0 {
        if e1 == e2 {
            lemma_pow3_mono((e2 - 1) as nat, (e2 - 1) as nat);
        } else {
            lemma_pow3_mono(e1, (e2 - 1) as nat);
        }
    }
}

/// The least exponent whose power of two reaches `x`.
pub(crate) fn clog2(x: usize) -> (r: usize)
    requires
        x <= MAX_LEN,
    ensures
        pow2(r as nat) >= x,
        r > 0 ==> pow2((r - 1) as nat) < x,
        r <= 28,
{
    let mut k: usize = 0;
    let mut p: usize = 1;
    proof {
        assert(pow2(0) == 1 && pow2(28) == 0x10000000) by {
            lemma2_to64();
        }
    }
    while p < x
        invariant
            x <= MAX_LEN,
            p == pow2(k as nat),
            k > 0 ==> pow2((k - 1) as nat) < x,
            1 <= p < 2 * MAX_LEN,
            k <= 28,
        decreases 2 * x - p,
    {
        proof {
            assert(pow2(28) == 0x10000000) by {
                lemma2_to64();
            }
            if k == 28 {
                assert(false);
            }
            lemma_pow2_unfold((k + 1) as nat);
        }
        p = p * 2;
        k += 1;
    }
    k
}


/// Consecutive entries differ by at most one; the shape that makes the
/// four-Russians tables possible.
pub open spec fn small_steps(vals: Seq<usize>) -> bool {
    forall|t: int|
        #![trigger vals[t - 1], vals[t]]
        1 <= t < vals.len() ==> -1 <= vals[t] - vals[t - 1] <= 1
}

/// The sequence padded past its end by repeating the final value, so that
/// every block has full size.
pub open spec fn pval(vals: Seq<usize>, t: int) -> int {
    if 0 <= t < vals.len() {
        vals[t] as int
    } else {
        vals[vals.len() - 1] as int
    }
}

/// Value at offset `t` of block `g`, relative to the block's first value.
pub open spec fn rel_val(vals: Seq<usize>, b: int, g: int, t: int) -> int {
    pval(vals, g * b + t) - pval(vals, g * b)
}

/// Step of the padded sequence at offset `t` of block `g`; offset zero reads
/// as no step.
pub open spec fn blk_digit(vals: Seq<usize>, b: int, g: int, t: int) -> int {
    if t <= 0 {
        0
    } else {
        pval(vals, g * b + t) - pval(vals, g * b + t - 1)
    }
}

/// Base-3 encoding of the first `t` steps of block `g`: the block's shape.
pub open spec fn code_prefix(vals: Seq<usize>, b: int, g: int, t: int) -> int
    decreases t,
{
    if t <= 0 {
        0
    } else {
        code_prefix(vals, b, g, t - 1) * 3 + blk_digit(vals, b, g, t - 1) + 1
    }
}

/// The shape code of the whole block.
pub open spec fn block_code(vals: Seq<usize>, b: int, g: int) -> int {
    code_prefix(vals, b, g, b)
}

/// One table entry answers one in-block range exactly: it points inside the
/// range at the leftmost relative minimum.
pub open spec fn entry_ok(
    e: Min<i64, usize>,
    vals: Seq<usize>,
    b: int,
    g: int,
    x: int,
    y: int,
) -> bool {
    &&& x <= e.argmin <= y
    &&& e.min == rel_val(vals, b, g, e.argmin as int)
    &&& forall|t: int| x <= t <= y ==> #[trigger] rel_val(vals, b, g, t) >= e.min
    &&& forall|t: int| x <= t < e.argmin ==> #[trigger] rel_val(vals, b, g, t) > e.min
}

/// The whole in-block table of one block shape is filled correctly for
/// block `g`.
pub open spec fn table_ok(tbl: Seq<Min<i64, usize>>, vals: Seq<usize>, b: int, g: int) -> bool {
    &&& tbl.len() == b * (b + 1) / 2
    &&& forall|x: int, y: int|
        0 <= x <= y < b ==> entry_ok(#[trigger] tbl[qi(x, y)], vals, b, g, x, y)
}

/// One doubling-table entry: the leftmost position of the minimum over the
/// `2^kk` blocks from `g` on (clipped to the sequence), as an absolute
/// position into the real values.
pub open spec fn row_ok(e: Min<usize, usize>, vals: Seq<usize>, b: int, g: int, kk: nat) -> bool {
    let lo = g * b;
    let end = if (g + pow2(kk)) * b < vals.len() {
        (g + pow2(kk)) * b
    } else {
        vals.len() as int
    };
    &&& lo <= e.argmin < end
    &&& e.min == vals[e.argmin as int]
    &&& forall|t: int| lo <= t < end ==> #[trigger] vals[t] >= e.min
    &&& forall|t: int| lo <= t < e.argmin ==> #[trigger] vals[t] > e.min
}

/// Every step of every block stays within one unit, padding included.
pub(crate) proof fn lemma_digit_range(vals: Seq<usize>, b: int, g: int, t: int)
    requires
        small_steps(vals),
        vals.len() > 0,
        b >= 1,
        g >= 0,
        0 <= t < b,
    ensures
        -1 <= blk_digit(vals, b, g, t) <= 1,
{
    if t > 0 {
        let p = g * b + t;
        assert(p >= 1) by (nonlinear_arith)
            requires
                g >= 0,
                b >= 1,
                t >= 1,
                p == g * b + t,
        ;
        if p < vals.len() {
            assert(-1 <= vals[p] - vals[p - 1] <= 1);
        }
    }
}

/// Relative values stay within the offset.
pub(crate) proof fn lemma_rel_bound(vals: Seq<usize>, b: int, g: int, t: int)
    requires
        small_steps(vals),
        vals.len() > 0,
        b >= 1,
        g >= 0,
        0 <= t < b,
    ensures
        -t <= rel_val(vals, b, g, t) <= t,
    decreases t,
{
    if t == 0 {
    } else {
        lemma_rel_bound(vals, b, g, t - 1);
        lemma_digit_range(vals, b, g, t);
        assert(rel_val(vals, b, g, t) == rel_val(vals, b, g, t - 1) + blk_digit(vals, b, g, t));
    }
}

/// Shape codes stay below `3^t`.
pub(crate) proof fn lemma_code_range(vals: Seq<usize>, b: int, g: int, t: int)
    requires
        small_steps(vals),
        vals.len() > 0,
        b >= 1,
        g >= 0,
        0 <= t <= b,
    ensures
        0 <= code_prefix(vals, b, g, t) < pow3(t as nat),
    decreases t,
{
    if t == 0 {
    } else {
        lemma_code_range(vals, b, g, t - 1);
        if t - 1 < b {
            lemma_digit_range(vals, b, g, t - 1);
        }
        assert(pow3(t as nat) == 3 * pow3((t - 1) as nat));
    }
}

/// Equal shape codes mean equal steps, hence equal relative values: the
/// encoding loses nothing.
pub(crate) proof fn lemma_code_inj(vals: Seq<usize>, b: int, g1: int, g2: int, t: int)
    requires
        small_steps(vals),
        vals.len() > 0,
        b >= 1,
        g1 >= 0,
        g2 >= 0,
        0 <= t <= b,
        code_prefix(vals, b, g1, t) == code_prefix(vals, b, g2, t),
    ensures
        forall|t0: int| 0 <= t0 < t ==> blk_digit(vals, b, g1, t0) == blk_digit(vals, b, g2, t0),
        forall|t0: int|
            0 <= t0 < t ==> #[trigger] rel_val(vals, b, g1, t0) == rel_val(vals, b, g2, t0),
    decreases t,
{
    if t > 0 {
        lemma_digit_range(vals, b, g1, t - 1);
        lemma_digit_range(vals, b, g2, t - 1);
        lemma_code_range(vals, b, g1, t - 1);
        lemma_code_range(vals, b, g2, t - 1);
        let c1 = code_prefix(vals, b, g1, t - 1);
        let c2 = code_prefix(vals, b, g2, t - 1);
        let d1 = blk_digit(vals, b, g1, t - 1);
        let d2 = blk_digit(vals, b, g2, t - 1);
        assert(c1 * 3 + d1 + 1 == c2 * 3 + d2 + 1);
        assert(c1 == c2 && d1 == d2) by (nonlinear_arith)
            requires
                c1 * 3 + d1 + 1 == c2 * 3 + d2 + 1,
                -1 <= d1 <= 1,
                -1 <= d2 <= 1,
        ;
        lemma_code_inj(vals, b, g1, g2, t - 1);
        assert forall|t0: int| 0 <= t0 < t implies #[trigger] rel_val(vals, b, g1, t0) == rel_val(
            vals,
            b,
            g2,
            t0,
        ) by {
            lemma_rel_from_digits(vals, b, g1, g2, t0);
        }
    }
}

/// Relative values are the running sums of the steps.
proof fn lemma_rel_from_digits(vals: Seq<usize>, b: int, g1: int, g2: int, t: int)
    requires
        t >= 0,
        forall|t0: int| 0 <= t0 <= t ==> blk_digit(vals, b, g1, t0) == blk_digit(vals, b, g2, t0),
    ensures
        rel_val(vals, b, g1, t) == rel_val(vals, b, g2, t),
    decreases t,
{
    if t == 0 {
        assert(rel_val(vals, b, g1, 0) == 0);
        assert(rel_val(vals, b, g2, 0) == 0);
    } else {
        lemma_rel_from_digits(vals, b, g1, g2, t - 1);
        assert(rel_val(vals, b, g1, t) == rel_val(vals, b, g1, t - 1) + blk_digit(vals, b, g1, t));
        assert(rel_val(vals, b, g2, t) == rel_val(vals, b, g2, t - 1) + blk_digit(vals, b, g2, t));
    }
}

/// Block-count arithmetic: with `m` blocks of size `b`, the last block starts
/// inside the sequence and the blocks jointly cover it.
pub(crate) proof fn lemma_block_bounds(n: int, b: int, m: int)
    requires
        n >= 1,
        b >= 1,
        m == (n + b - 1) / b,
    ensures
        m >= 1,
        (m - 1) * b < n,
        n <= m * b,
        m <= n,
{
    assert(m >= 1 && (m - 1) * b < n && n <= m * b && m <= n) by (nonlinear_arith)
        requires
            n >= 1,
            b >= 1,
            m == (n + b - 1) / b,
    ;
}

/// Structure answering range-minimum (argmin) queries on a sequence of
/// numbers whose consecutive entries differ by at most one.
/// Linear space, constant query time.
pub struct RMQ {
    b: usize,  // block size, about a quarter of log n
    ranges_answers: Vec<Vec<Min<usize, usize>>>,  // answers for 2^k sized ranges of blocks
    block_firsts: Vec<usize>,  // value at the first position of each block
    block_types: Vec<usize>,  // shape code of each block
    block_answers: Vec<Vec<Min<i64, usize>>>,  // per-shape in-block answers
    vals: Ghost<Seq<usize>>,  // the sequence the structure was built from
}

impl RMQ {
    /// The sequence this structure answers queries about.
    pub closed spec fn sequence(self) -> Seq<usize> {
        self.vals@
    }

    /// Everything construction guarantees and queries rely on.
    pub closed spec fn inv(self) -> bool {
        let vals = self.vals@;
        let n = vals.len() as int;
        let b = self.b as int;
        let m = (n + b - 1) / b;
        &&& 1 <= b <= 7
        &&& n < MAX_LEN
        &&& small_steps(vals)
        &&& (forall|t: int| 0 <= t < n ==> vals[t] < MAX_LEN)
        &&& (n > 0 ==> {
            &&& self.block_firsts@.len() == m
            &&& self.block_types@.len() == m
            &&& (forall|g: int|
                0 <= g < m ==> #[trigger] self.block_firsts@[g] == pval(vals, g * b))
            &&& (forall|g: int|
                0 <= g < m ==> (#[trigger] self.block_types@[g]) < self.block_answers@.len())
            &&& (forall|g: int|
                0 <= g < m ==> table_ok(
                    #[trigger] self.block_answers@[self.block_types@[g] as int]@,
                    vals,
                    b,
                    g,
                ))
            &&& self.ranges_answers@.len() >= 1
            &&& self.ranges_answers@.len() <= 28
            &&& pow2(self.ranges_answers@.len() as nat) >= m
            &&& (forall|kk: int|
                0 <= kk < self.ranges_answers@.len() ==> (
                #[trigger] self.ranges_answers@[kk])@.len() == m)
            &&& (forall|kk: int, g: int|
                0 <= kk < self.ranges_answers@.len() && 0 <= g < m ==> row_ok(
                    #[trigger] self.ranges_answers@[kk]@[g],
                    vals,
                    b,
                    g,
                    kk as nat,
                ))
        })
    }
}


impl RMQ {
    /// Builds the query structure: cuts the sequence into blocks, summarises
    /// each block, builds the doubling table over block minima, and one
    /// in-block answer table per block shape that actually occurs.
    /// The bound on the values keeps the signed reconstruction arithmetic of
    /// queries trivially in range; a depth sequence starting at zero never
    /// comes near it.
    #[verifier::loop_isolation(false)]
    #[verifier::rlimit(60)]
    #[verifier::spinoff_prover]
    pub fn create_rmq(values: &Vec<usize>) -> (r: RMQ)
        requires
            values@.len() < MAX_LEN,
            small_steps(values@),
            forall|t: int| 0 <= t < values@.len() ==> values@[t] < MAX_LEN,
        ensures
            r.inv(),
            r.sequence() == values@,
    {
        let ghost vals = values@;
        let n = values.len();
        let cl = clog2(n);
        let c4 = cl / 4;
        let b: usize = if c4 < 1 {
            1
        } else {
            c4
        };
        assert(1 <= b <= 7);
        let m = (n + b - 1) / b;
        if n == 0 {
            let r = RMQ {
                b,
                ranges_answers: Vec::new(),
                block_firsts: Vec::new(),
                block_types: Vec::new(),
                block_answers: Vec::new(),
                vals: Ghost(vals),
            };
            assert(r.inv());
            return r;
        }
        proof {
            lemma_block_bounds(n as int, b as int, m as int);
        }
        let blocks = build_summaries(values, b, m);
        let ghost blocks_view = blocks@;
        let unzipped = unzip_blocks(blocks);
        let block_mins = unzipped.0;
        let block_firsts = unzipped.1;
        let block_difftypes = unzipped.2;
        let clm = clog2(m);
        let logm: usize = if clm < 1 {
            1
        } else {
            clm
        };
        proof {
            assert(pow2(logm as nat) >= m) by {
                if clm < 1 {
                    lemma_pow2_unfold(1);
                }
            }
            assert forall|g0: int|
                0 <= g0 < m implies min_summary_ok(#[trigger] block_mins@[g0], vals, b as int, g0)
                by {
                assert(blk_summary_ok(blocks_view[g0], vals, b as int, g0));
                assert(block_mins@[g0] == blocks_view[g0].0);
            }
        }
        let ranges_answers = build_sparse(&block_mins, Ghost(vals), b, m, logm);
        proof {
            assert forall|g0: int|
                0 <= g0 < m implies (#[trigger] block_difftypes@[g0])@.len() == b by {
                assert(blk_summary_ok(blocks_view[g0], vals, b as int, g0));
                assert(block_difftypes@[g0] == blocks_view[g0].2);
            }
            assert forall|g0: int, t0: int|
                0 <= g0 < m && 0 <= t0 < b implies #[trigger] block_difftypes@[g0]@[t0] as int
                == blk_digit(vals, b as int, g0, t0) by {
                assert(blk_summary_ok(blocks_view[g0], vals, b as int, g0));
                assert(block_difftypes@[g0] == blocks_view[g0].2);
                assert(blocks_view[g0].2@[t0] as int == blk_digit(vals, b as int, g0, t0));
            }
        }
        let tables = build_tables(&block_difftypes, Ghost(vals), b, m);
        let block_answers = tables.0;
        let block_types = tables.1;
        let r = RMQ { b, ranges_answers, block_firsts, block_types, block_answers, vals: Ghost(vals) };
        proof {
            assert forall|g0: int|
                0 <= g0 < m implies #[trigger] r.block_firsts@[g0] == pval(vals, g0 * b) by {
                assert(blk_summary_ok(blocks_view[g0], vals, b as int, g0));
                assert(block_firsts@[g0] == blocks_view[g0].1);
            }
            assert(r.inv());
        }
        r
    }
}


/// Position arithmetic between a position, its block, and its offset.
proof fn lemma_pos_block(x: int, b: int, m: int, n: int)
    requires
        b >= 1,
        m >= 1,
        0 <= x < n,
        n <= m * b,
    ensures
        0 <= x / b < m,
        x == (x / b) * b + (x % b),
        0 <= x % b < b,
    decreases m,
{
    assert(x == (x / b) * b + (x % b) && 0 <= x % b < b && x / b >= 0) by (nonlinear_arith)
        requires
            b >= 1,
            x >= 0,
    ;
    assert(x / b < m) by (nonlinear_arith)
        requires
            b >= 1,
            m >= 1,
            0 <= x < n,
            n <= m * b,
            x == (x / b) * b + (x % b),
            0 <= x % b < b,
    ;
}

impl RMQ {
    /// A position of the least value on the range `[left, right]`, both ends
    /// included. Constant time: one in-block lookup, or two block-edge
    /// lookups and one doubling-table lookup.
    #[verifier::spinoff_prover]
    pub fn query(&self, left: usize, right: usize) -> (t: usize)
        requires
            self.inv(),
            left <= right,
            right < self.sequence().len(),
        ensures
            left <= t <= right,
            forall|u: int|
                left <= u <= right ==> self.sequence()[t as int] <= #[trigger] self.sequence()[u],
            forall|u: int|
                left <= u < t ==> self.sequence()[t as int] < #[trigger] self.sequence()[u],
    {
        let b = self.b;
        proof {
            let vals = self.vals@;
            let n = vals.len() as int;
            let m = (n + b as int - 1) / (b as int);
            lemma_block_bounds(n, b as int, m);
            lemma_pos_block(left as int, b as int, m, n);
            lemma_pos_block(right as int, b as int, m, n);
            assert(left as int / b as int <= right as int / b as int) by (nonlinear_arith)
                requires
                    left <= right,
                    b >= 1,
            ;
        }
        let l_block = left / b;
        let r_block = right / b;
        if l_block >= r_block {
            self.query_within(left, right)
        } else {
            self.query_across(left, right)
        }
    }

    /// Answers a query whose range lies inside one block.
    #[verifier::rlimit(100)]
    #[verifier::spinoff_prover]
    fn query_within(&self, left: usize, right: usize) -> (t: usize)
        requires
            self.inv(),
            left <= right,
            right < self.sequence().len(),
            (left as int) / (self.b as int) == (right as int) / (self.b as int),
        ensures
            left <= t <= right,
            forall|u: int|
                left <= u <= right ==> self.sequence()[t as int] <= #[trigger] self.sequence()[u],
            forall|u: int|
                left <= u < t ==> self.sequence()[t as int] < #[trigger] self.sequence()[u],
    {
        let ghost vals = self.vals@;
        let ghost n = vals.len() as int;
        let b = self.b;
        let ghost m = (n + b as int - 1) / (b as int);
        proof {
            lemma_block_bounds(n, b as int, m);
            lemma_pos_block(left as int, b as int, m, n);
            lemma_pos_block(right as int, b as int, m, n);
        }
        let r_block = right / b;
        let l = left % b;
        let rr = right % b;
        let ty = self.block_types[r_block];
        proof {
            lemma_qi_bound(l as int, rr as int, b as int);
        }
        let e = self.block_answers[ty][query_index(l, rr)];
        let res = r_block * b + e.argmin;
        proof {
            let g = r_block as int;
            let bb = b as int;
            assert(entry_ok(e, vals, bb, g, l as int, rr as int));
            assert(res == g * bb + e.argmin && res <= right);
            assert forall|u: int| left <= u <= right implies vals[res as int] <= #[trigger] vals[u]
                by {
                let t0 = u - g * bb;
                assert(l <= t0 <= rr);
                assert(rel_val(vals, bb, g, t0) >= e.min);
                assert(pval(vals, u) == vals[u]);
                assert(pval(vals, res as int) == vals[res as int]);
                assert(e.min == rel_val(vals, bb, g, e.argmin as int));
            }
            assert forall|u: int| left <= u < res implies vals[res as int] < #[trigger] vals[u]
                by {
                let t0 = u - g * bb;
                assert(l <= t0 < e.argmin);
                assert(rel_val(vals, bb, g, t0) > e.min);
                assert(pval(vals, u) == vals[u]);
                assert(pval(vals, res as int) == vals[res as int]);
                assert(e.min == rel_val(vals, bb, g, e.argmin as int));
            }
        }
        res
    }

    /// Answers a query whose range crosses a block boundary: combines the
    /// suffix of the left block, whole blocks in between, and the prefix of
    /// the right block.
    #[verifier::rlimit(100)]
    #[verifier::spinoff_prover]
    fn query_across(&self, left: usize, right: usize) -> (t: usize)
        requires
            self.inv(),
            left <= right,
            right < self.sequence().len(),
            ((left as int) / (self.b as int)) < ((right as int) / (self.b as int)),
        ensures
            left <= t <= right,
            forall|u: int|
                left <= u <= right ==> self.sequence()[t as int] <= #[trigger] self.sequence()[u],
            forall|u: int|
                left <= u < t ==> self.sequence()[t as int] < #[trigger] self.sequence()[u],
    {
        let ghost vals = self.vals@;
        let ghost n = vals.len() as int;
        let b = self.b;
        let ghost m = (n + b as int - 1) / (b as int);
        proof {
            lemma_block_bounds(n, b as int, m);
            lemma_pos_block(left as int, b as int, m, n);
            lemma_pos_block(right as int, b as int, m, n);
        }
        let l_block = left / b;
        let r_block = right / b;
        let range_min: Min<usize, usize> = if r_block > 1 + l_block {
            self.middle_argmin(l_block, r_block)
        } else {
            Min::default()
        };
        let tyl = self.block_types[l_block];
        let tyr = self.block_types[r_block];
        proof {
            lemma_qi_bound((left % b) as int, b - 1, b as int);
            lemma_qi_bound(0, (right % b) as int, b as int);
        }
        let ls = self.block_answers[tyl][query_index(left % b, b - 1)];
        let rs = self.block_answers[tyr][query_index(0, right % b)];
        proof {
            let bb = b as int;
            assert(entry_ok(ls, vals, bb, l_block as int, left as int % bb, bb - 1));
            assert(entry_ok(rs, vals, bb, r_block as int, 0, right as int % bb));
            lemma_rel_bound(vals, bb, l_block as int, ls.argmin as int);
            lemma_rel_bound(vals, bb, r_block as int, rs.argmin as int);
            // The left block ends inside the sequence.
            assert(l_block + 1 <= m - 1);
            assert((l_block + 1) * bb <= (m - 1) * bb && (l_block + 1) * bb == l_block * bb + bb)
                by (nonlinear_arith)
                requires
                    l_block + 1 <= m - 1,
                    bb >= 1,
                    l_block >= 0,
            ;
            assert(pval(vals, l_block as int * bb) < MAX_LEN && pval(vals, r_block as int * bb)
                < MAX_LEN);
        }
        let lsv = Min::new(
            ((self.block_firsts[l_block] as i64) + ls.min) as usize,
            ls.argmin + l_block * b,
        );
        let rsv = Min::new(
            ((self.block_firsts[r_block] as i64) + rs.min) as usize,
            rs.argmin + r_block * b,
        );
        let ans = lsv.min(range_min).min(rsv);
        proof {
            let bb = b as int;
            let gl = l_block as int;
            let gr = r_block as int;
            lemma_scrap(vals, bb, gl, left as int % bb, bb - 1, ls, lsv);
            lemma_scrap(vals, bb, gr, 0, right as int % bb, rs, rsv);
            assert(left == gl * bb + (left as int % bb) && right == gr * bb + (right as int % bb));
            assert(lsv.min == vals[lsv.argmin as int] && left <= lsv.argmin < gl * bb + bb);
            assert(rsv.min == vals[rsv.argmin as int] && gr * bb <= rsv.argmin <= right);
            assert(lsv.min < MAX_LEN && rsv.min < MAX_LEN);
            assert(gl * bb + bb <= gr * bb) by (nonlinear_arith)
                requires
                    gl < gr,
                    bb >= 1,
            ;
            assert(left <= ans.argmin <= right && ans.min == vals[ans.argmin as int]);
            assert forall|u: int| left <= u <= right implies vals[ans.argmin as int]
                <= #[trigger] vals[u] by {
                if u < gl * bb + bb {
                    assert(vals[u] >= lsv.min);
                } else if u >= gr * bb {
                    assert(vals[u] >= rsv.min);
                } else {
                    assert(gr > gl + 1 && (gl + 1) * bb <= u < gr * bb) by (nonlinear_arith)
                        requires
                            gl * bb + bb <= u < gr * bb,
                            bb >= 1,
                            gl >= 0,
                            gr > gl,
                    ;
                    assert(vals[u] >= range_min.min);
                }
                assert(ans.min <= lsv.min && ans.min <= rsv.min);
            }
            // Each stage of the candidate merge keeps the leftmost minimum.
            let m1 = if lsv.min > range_min.min {
                range_min
            } else {
                lsv
            };
            assert(ans == if m1.min > rsv.min {
                rsv
            } else {
                m1
            });
            assert forall|u: int| left <= u < ans.argmin implies vals[ans.argmin as int]
                < #[trigger] vals[u] by {
                if ans == lsv && !(m1.min > rsv.min) && !(lsv.min > range_min.min) {
                    assert(vals[u] > lsv.min);
                } else if !(m1.min > rsv.min) && lsv.min > range_min.min {
                    assert(ans == range_min);
                    assert(range_min.min < lsv.min);
                    if u < gl * bb + bb {
                        assert(vals[u] >= lsv.min);
                    } else {
                        assert(gr > gl + 1 && (gl + 1) * bb <= u < range_min.argmin)
                            by (nonlinear_arith)
                            requires
                                gl * bb + bb <= u < range_min.argmin,
                                range_min.argmin < gr * bb,
                                bb >= 1,
                                gl >= 0,
                                gr > gl + 1 || range_min.argmin < gl * bb + bb,
                                gr > gl,
                        ;
                        assert(vals[u] > range_min.min);
                    }
                } else {
                    assert(ans == rsv && m1.min > rsv.min);
                    assert(lsv.min > rsv.min && range_min.min > rsv.min);
                    if u < gl * bb + bb {
                        assert(vals[u] >= lsv.min && lsv.min > rsv.min);
                    } else if u < gr * bb {
                        assert(gr > gl + 1 && (gl + 1) * bb <= u < gr * bb) by (nonlinear_arith)
                            requires
                                gl * bb + bb <= u < gr * bb,
                                bb >= 1,
                                gl >= 0,
                                gr > gl,
                        ;
                        assert(vals[u] >= range_min.min && range_min.min > rsv.min);
                    } else {
                        assert(vals[u] > rsv.min);
                    }
                }
            }
        }
        ans.argmin
    }

    /// A position of the least value over the whole blocks strictly between
    /// the two given blocks, from two overlapping doubling-table entries.
    #[verifier::rlimit(100)]
    #[verifier::spinoff_prover]
    fn middle_argmin(&self, l_block: usize, r_block: usize) -> (e: Min<usize, usize>)
        requires
            self.inv(),
            l_block + 1 < r_block,
            (r_block as int) < (self.sequence().len() as int + self.b as int - 1) / (
            self.b as int),
        ensures
            (l_block + 1) * self.b <= e.argmin,
            e.argmin < r_block * self.b,
            e.argmin < self.sequence().len(),
            e.min == self.sequence()[e.argmin as int],
            forall|u: int|
                (l_block + 1) * self.b <= u < r_block * self.b ==> #[trigger] self.sequence()[u]
                    >= e.min,
            forall|u: int|
                (l_block + 1) * self.b <= u < e.argmin ==> #[trigger] self.sequence()[u] > e.min,
    {
        let ghost vals = self.vals@;
        let ghost n = vals.len() as int;
        let b = self.b;
        let ghost m = (n + b as int - 1) / (b as int);
        proof {
            if n == 0 {
                assert(m == 0) by (nonlinear_arith)
                    requires
                        1 <= b,
                        n == 0,
                        m == (n + b as int - 1) / (b as int),
                ;
                assert(false);
            }
            lemma_block_bounds(n, b as int, m);
            assert(r_block * b < n) by (nonlinear_arith)
                requires
                    0 <= r_block < m,
                    b >= 1,
                    (m - 1) * (b as int) < n,
            ;
        }
        let len_mid = r_block - l_block - 1;
        let cl = clog2(len_mid);
        let lg: usize = if cl < 1 {
            0
        } else {
            cl - 1
        };
        let half = pow2e(lg);
        proof {
            // Two ranges of 2^lg blocks cover the middle exactly.
            if cl < 1 {
                assert(pow2(0) == 1) by {
                    lemma2_to64();
                }
            } else {
                assert(pow2((cl - 1) as nat) < len_mid);
                lemma_pow2_unfold(cl as nat);
            }
            assert(half <= len_mid && len_mid <= 2 * half);
            // The row index is inside the table.
            let ll = self.ranges_answers@.len();
            if lg >= ll {
                if lg > ll {
                    lemma_pow2_strictly_increases(ll as nat, lg as nat);
                }
                assert(pow2(lg as nat) >= pow2(ll as nat));
                assert(false);
            }
        }
        let e1 = self.ranges_answers[lg][l_block + 1];
        let e2 = self.ranges_answers[lg][r_block - half];
        proof {
            let bb = b as int;
            assert(row_ok(e1, vals, bb, l_block + 1, lg as nat));
            assert(row_ok(e2, vals, bb, r_block - half, lg as nat));
            assert((l_block + 1 + half) * bb <= r_block * bb && (r_block - half) * bb >= (l_block
                + 1) * bb && (r_block - half + half) * bb == r_block * bb && (l_block + 1) * bb
                <= (r_block - half) * bb && (l_block + 1) * bb >= 0) by (nonlinear_arith)
                requires
                    half <= r_block - l_block - 1,
                    bb >= 1,
                    l_block >= 0,
                    half >= 1,
            ;
            assert(r_block * bb < n);
            assert(e1.min == vals[e1.argmin as int] && e2.min == vals[e2.argmin as int]);
            let e = if e1.min > e2.min {
                e2
            } else {
                e1
            };
            let end1 = if (l_block + 1 + half) * bb < n {
                (l_block + 1 + half) * bb as int
            } else {
                n
            };
            assert forall|u: int|
                (l_block + 1) * bb <= u < r_block * bb implies #[trigger] vals[u] >= e.min by {
                if u < end1 {
                    assert(vals[u] >= e1.min);
                } else {
                    assert((r_block - half) * bb <= (l_block + 1 + half) * bb) by (nonlinear_arith)
                        requires
                            r_block - half <= l_block + 1 + half,
                            bb >= 1,
                    ;
                    assert((r_block - half) * bb <= u);
                    assert(vals[u] >= e2.min);
                }
            }
            // The merged answer keeps the leftmost minimum.
            assert forall|u: int|
                (l_block + 1) * bb <= u < e.argmin implies #[trigger] vals[u] > e.min by {
                if e1.min > e2.min {
                    assert(e == e2);
                    if u < end1 {
                        assert(vals[u] >= e1.min);
                    } else {
                        assert((r_block - half) * bb <= (l_block + 1 + half) * bb)
                            by (nonlinear_arith)
                            requires
                                r_block - half <= l_block + 1 + half,
                                bb >= 1,
                        ;
                        assert((r_block - half) * bb <= u);
                        assert(vals[u] > e2.min);
                    }
                } else {
                    assert(e == e1);
                    assert(vals[u] > e1.min);
                }
            }
        }
        e1.min(e2)
    }
}

/// Lifts one in-block answer to absolute positions: adding the block's first
/// value turns relative minima into the real values at real positions.
proof fn lemma_scrap(
    vals: Seq<usize>,
    b: int,
    g: int,
    x: int,
    y: int,
    e: Min<i64, usize>,
    v: Min<usize, usize>,
)
    requires
        b >= 1,
        g >= 0,
        vals.len() >= 1,
        0 <= x <= y < b,
        g * b + y < vals.len(),
        entry_ok(e, vals, b, g, x, y),
        v.min == pval(vals, g * b) + e.min,
        v.argmin == g * b + e.argmin,
    ensures
        g * b + x <= v.argmin <= g * b + y,
        v.min == vals[v.argmin as int],
        forall|u: int| g * b + x <= u <= g * b + y ==> #[trigger] vals[u] >= v.min,
        forall|u: int| g * b + x <= u < v.argmin ==> #[trigger] vals[u] > v.min,
{
    assert(v.min == pval(vals, g * b) + rel_val(vals, b, g, e.argmin as int));
    assert(pval(vals, g * b + e.argmin) == vals[v.argmin as int]);
    assert forall|u: int| g * b + x <= u <= g * b + y implies #[trigger] vals[u] >= v.min by {
        let t0 = u - g * b;
        assert(x <= t0 <= y);
        assert(rel_val(vals, b, g, t0) >= e.min);
        assert(pval(vals, u) == pval(vals, g * b) + rel_val(vals, b, g, t0));
        assert(pval(vals, u) == vals[u]);
    }
    assert forall|u: int| g * b + x <= u < v.argmin implies #[trigger] vals[u] > v.min by {
        let t0 = u - g * b;
        assert(x <= t0 < e.argmin);
        assert(rel_val(vals, b, g, t0) > e.min);
        assert(pval(vals, u) == pval(vals, g * b) + rel_val(vals, b, g, t0));
        assert(pval(vals, u) == vals[u]);
    }
}

} // verus!
