//! Construction of the range-minimum tables: per-block summaries, the
//! doubling table over whole blocks, and the per-shape in-block answer
//! tables.

use vstd::prelude::*;

use vstd::arithmetic::power2::{lemma2_to64, lemma_pow2_unfold, pow2};

use crate::rmq::{blk_digit, block_code, code_prefix, entry_ok, lemma_code_inj, lemma_code_range,
    lemma_digit_range, lemma_pow3_mono, lemma_qi_bound, lemma_qi_inj, lemma_rel_bound, pow2e, pow3,
    pow3e, pval, qi, query_index, rel_val, row_ok, small_steps, table_ok, Min};
use crate::MAX_LEN;

verus! {

/// What one block contributes before the three streams are unzipped: its
/// minimum (with leftmost offset), its first value, and its step pattern.
pub open spec fn blk_summary_ok(
    t: (Min<usize, usize>, usize, Vec<i8>),
    vals: Seq<usize>,
    b: int,
    g: int,
) -> bool {
    &&& g * b < vals.len()
    &&& t.1 == pval(vals, g * b)
    &&& min_summary_ok(t.0, vals, b, g)
    &&& t.2@.len() == b
    &&& (forall|t0: int| 0 <= t0 < b ==> #[trigger] t.2@[t0] as int == blk_digit(vals, b, g, t0))
}

/// The minimum summary of one block: the leftmost position of the least
/// padded value of the block, which is a real position.
pub open spec fn min_summary_ok(e: Min<usize, usize>, vals: Seq<usize>, b: int, g: int) -> bool {
    &&& e.argmin < b
    &&& g * b + e.argmin < vals.len()
    &&& e.min == pval(vals, g * b + e.argmin)
    &&& (forall|t0: int| 0 <= t0 < b ==> #[trigger] pval(vals, g * b + t0) >= e.min)
    &&& (forall|t0: int| 0 <= t0 < e.argmin ==> #[trigger] pval(vals, g * b + t0) > e.min)
}

/// Some block of shape `c` has filled table `c`, and the table answers
/// correctly for that block.
pub open spec fn tbl_certified(
    ba: Seq<Vec<Min<i64, usize>>>,
    vals: Seq<usize>,
    b: int,
    m: int,
    c: int,
) -> bool {
    exists|g0: int|
        0 <= g0 < m && #[trigger] block_code(vals, b, g0) == c && table_ok(ba[c]@, vals, b, g0)
}

/// Summarises each block: minimum with offset, first value, step pattern.
#[verifier::loop_isolation(false)]
#[verifier::rlimit(60)]
#[verifier::spinoff_prover]
pub(crate) fn build_summaries(values: &Vec<usize>, b: usize, m: usize) -> (blocks: Vec<
    (Min<usize, usize>, usize, Vec<i8>),
>)
    requires
        1 <= values@.len() < MAX_LEN,
        small_steps(values@),
        forall|t: int| 0 <= t < values@.len() ==> values@[t] < MAX_LEN,
        1 <= b <= 7,
        m >= 1,
        (m - 1) * b < values@.len() <= m * b,
        m <= values@.len(),
    ensures
        blocks@.len() == m,
        forall|g0: int| 0 <= g0 < m ==> blk_summary_ok(#[trigger] blocks@[g0], values@, b as int, g0),
{
    let ghost vals = values@;
    let n = values.len();
    let mut blocks: Vec<(Min<usize, usize>, usize, Vec<i8>)> = Vec::new();
    let mut g: usize = 0;
    while g < m
        invariant
            g <= m,
            blocks@.len() == g,
            forall|g0: int|
                0 <= g0 < g ==> blk_summary_ok(#[trigger] blocks@[g0], vals, b as int, g0),
        decreases m - g,
    {
        proof {
            assert(g * b <= (m - 1) * b && (g + 1) * b <= m * b && g * b + b == (g + 1) * b)
                by (nonlinear_arith)
                requires
                    0 <= g < m,
                    b >= 1,
            ;
        }
        let mut chunk: Vec<usize> = Vec::new();
        let mut t: usize = 0;
        while t < b
            invariant
                t <= b,
                g < m,
                chunk@.len() == t,
                forall|t0: int| 0 <= t0 < t ==> #[trigger] chunk@[t0] == pval(vals, g * b + t0),
            decreases b - t,
        {
            let idx = g * b + t;
            let v = if idx < n {
                values[idx]
            } else {
                values[n - 1]
            };
            chunk.push(v);
            t += 1;
        }
        let mut mn: Min<usize, usize> = Min::default();
        let mut t: usize = 0;
        while t < b
            invariant
                t <= b,
                g < m,
                t == 0 ==> mn.min == usize::MAX && mn.argmin == 0,
                t > 0 ==> mn.argmin < t && chunk@[mn.argmin as int] == mn.min,
                t > 0 ==> forall|t0: int| 0 <= t0 < t ==> #[trigger] chunk@[t0] >= mn.min,
                t > 0 ==> forall|t0: int| 0 <= t0 < mn.argmin ==> #[trigger] chunk@[t0] > mn.min,
            decreases b - t,
        {
            proof {
                assert(chunk@[t as int] == pval(vals, g * b + t));
                assert(pval(vals, g * b + t) < MAX_LEN);
            }
            mn = mn.min(Min::new(chunk[t], t));
            t += 1;
        }
        let first = chunk[0];
        let mut difftype: Vec<i8> = Vec::new();
        difftype.push(0);
        let mut t: usize = 1;
        while t < b
            invariant
                1 <= t <= b,
                g < m,
                difftype@.len() == t,
                forall|t0: int|
                    0 <= t0 < t ==> #[trigger] difftype@[t0] as int == blk_digit(
                        vals,
                        b as int,
                        g as int,
                        t0,
                    ),
            decreases b - t,
        {
            let hi = chunk[t];
            let lo = chunk[t - 1];
            proof {
                lemma_digit_range(vals, b as int, g as int, t as int);
                assert(chunk@[t - 1] == pval(vals, g * b + (t - 1)));
                assert(g * b + (t - 1) == g * b + t - 1);
            }
            let d64: i64 = hi as i64 - lo as i64;
            assert(-1 <= d64 <= 1);
            let d: i8 = d64 as i8;
            difftype.push(d);
            t += 1;
        }
        proof {
            // The fold keeps the leftmost minimum, so the minimum offset
            // lands on a real position: a padded position repeats the
            // final value, which occurs earlier inside the same block.
            if g * b + mn.argmin >= n {
                let rn = n - 1 - g * b;
                assert(0 <= rn < mn.argmin);
                assert(chunk@[rn] == pval(vals, g * b + rn));
                assert(pval(vals, g * b + rn) == vals[n - 1]);
                assert(pval(vals, g * b + mn.argmin) == vals[n - 1]);
                assert(chunk@[rn] > mn.min);
                assert(false);
            }
            assert forall|t0: int| 0 <= t0 < b implies #[trigger] pval(vals, g * b + t0)
                >= mn.min by {
                assert(chunk@[t0] >= mn.min);
            }
            assert forall|t0: int| 0 <= t0 < mn.argmin implies #[trigger] pval(vals, g * b + t0)
                > mn.min by {
                assert(chunk@[t0] > mn.min);
            }
            assert(chunk@[mn.argmin as int] == pval(vals, g * b + mn.argmin));
            assert(first == pval(vals, g * b + 0));
            assert(g * b + 0 == g * b);
            assert(blk_summary_ok((mn, first, difftype), vals, b as int, g as int));
        }
        blocks.push((mn, first, difftype));
        g += 1;
    }
    blocks
}

/// Builds the doubling table over whole blocks: row `kk` holds, for each
/// block `g`, the least value and a position of it over the `2^kk` blocks
/// starting at `g`, clipped to the sequence.
#[verifier::loop_isolation(false)]
#[verifier::rlimit(60)]
#[verifier::spinoff_prover]
pub(crate) fn build_sparse(
    block_mins: &Vec<Min<usize, usize>>,
    Ghost(vals): Ghost<Seq<usize>>,
    b: usize,
    m: usize,
    logm: usize,
) -> (rows: Vec<Vec<Min<usize, usize>>>)
    requires
        1 <= vals.len() < MAX_LEN,
        forall|t: int| 0 <= t < vals.len() ==> vals[t] < MAX_LEN,
        1 <= b <= 7,
        1 <= m <= MAX_LEN,
        (m - 1) * b < vals.len() <= m * b,
        1 <= logm <= 28,
        block_mins@.len() == m,
        forall|g0: int|
            0 <= g0 < m ==> min_summary_ok(#[trigger] block_mins@[g0], vals, b as int, g0),
    ensures
        rows@.len() == logm,
        forall|k0: int| 0 <= k0 < logm ==> (#[trigger] rows@[k0])@.len() == m,
        forall|k0: int, g0: int|
            0 <= k0 < logm && 0 <= g0 < m ==> row_ok(
                #[trigger] rows@[k0]@[g0],
                vals,
                b as int,
                g0,
                k0 as nat,
            ),
{
    let mut ranges_answers: Vec<Vec<Min<usize, usize>>> = Vec::new();
    let mut row: Vec<Min<usize, usize>> = Vec::new();
    let mut g: usize = 0;
    while g < m
        invariant
            g <= m,
            row@.len() == g,
            forall|g0: int| 0 <= g0 < g ==> row_ok(#[trigger] row@[g0], vals, b as int, g0, 0),
        decreases m - g,
    {
        let bm = block_mins[g];
        proof {
            assert(pow2(0) == 1) by {
                lemma2_to64();
            }
            assert((g + 1) * b == g * b + b && g * b <= (m - 1) * b) by (nonlinear_arith)
                requires
                    0 <= g < m,
                    b >= 1,
            ;
        }
        let e = Min::new(bm.min, g * b + bm.argmin);
        proof {
            let end = if (g + 1) * b < vals.len() {
                (g + 1) * b as int
            } else {
                vals.len() as int
            };
            assert forall|t: int| g * b <= t < end implies #[trigger] vals[t] >= e.min by {
                assert(pval(vals, g * b + (t - g * b)) >= e.min);
                assert(g * b + (t - g * b) == t);
                assert(pval(vals, t) == vals[t]);
            }
            assert forall|t: int| g * b <= t < e.argmin implies #[trigger] vals[t] > e.min by {
                assert(pval(vals, g * b + (t - g * b)) > e.min);
                assert(g * b + (t - g * b) == t);
                assert(pval(vals, t) == vals[t]);
            }
            assert(row_ok(e, vals, b as int, g as int, 0));
        }
        row.push(e);
        g += 1;
    }
    ranges_answers.push(row);
    let mut kk: usize = 1;
    while kk < logm
        invariant
            1 <= kk <= logm,
            ranges_answers@.len() == kk,
            forall|k0: int| 0 <= k0 < kk ==> (#[trigger] ranges_answers@[k0])@.len() == m,
            forall|k0: int, g0: int|
                0 <= k0 < kk && 0 <= g0 < m ==> row_ok(
                    #[trigger] ranges_answers@[k0]@[g0],
                    vals,
                    b as int,
                    g0,
                    k0 as nat,
                ),
        decreases logm - kk,
    {
        let half = pow2e(kk - 1);
        let mut row: Vec<Min<usize, usize>> = Vec::new();
        let mut g: usize = 0;
        while g < m
            invariant
                g <= m,
                row@.len() == g,
                1 <= kk < logm,
                half == pow2((kk - 1) as nat),
                ranges_answers@.len() == kk,
                forall|k0: int| 0 <= k0 < kk ==> (#[trigger] ranges_answers@[k0])@.len() == m,
                forall|k0: int, g0: int|
                    0 <= k0 < kk && 0 <= g0 < m ==> row_ok(
                        #[trigger] ranges_answers@[k0]@[g0],
                        vals,
                        b as int,
                        g0,
                        k0 as nat,
                    ),
                forall|g0: int|
                    0 <= g0 < g ==> row_ok(#[trigger] row@[g0], vals, b as int, g0, kk as nat),
            decreases m - g,
        {
            let e1 = ranges_answers[kk - 1][g];
            let e2 = if g + half < m {
                ranges_answers[kk - 1][g + half]
            } else {
                Min::default()
            };
            let e = e1.min(e2);
            proof {
                lemma_pow2_unfold(kk as nat);
                assert(row_ok(e1, vals, b as int, g as int, (kk - 1) as nat));
                if g + half < m {
                    assert(row_ok(e2, vals, b as int, g + half, (kk - 1) as nat));
                    assert(((g + half) + pow2((kk - 1) as nat)) * b == (g + pow2(kk as nat)) * b)
                        by (nonlinear_arith)
                        requires
                            half == pow2((kk - 1) as nat),
                            pow2(kk as nat) == 2 * pow2((kk - 1) as nat),
                    ;
                    assert((g + half) * b == g * b + half * b && g * b + half * b >= g * b)
                        by (nonlinear_arith)
                        requires
                            half >= 1,
                            b >= 1,
                            g >= 0,
                    ;
                    assert(e1.min < MAX_LEN && e2.min < MAX_LEN);
                    // The merged entry keeps the leftmost minimum: the left
                    // entry wins ties, and when the right entry wins
                    // strictly, everything in the left half is larger still.
                    let lo = g * b;
                    assert forall|t: int| lo <= t < e.argmin implies #[trigger] vals[t]
                        > e.min by {
                        if e1.min > e2.min {
                            assert(e == e2);
                            if t < (g + half) * b {
                                assert(vals[t] >= e1.min);
                            } else {
                                assert(vals[t] > e2.min);
                            }
                        } else {
                            assert(e == e1);
                            assert(vals[t] > e1.min);
                        }
                    }
                    assert(row_ok(e, vals, b as int, g as int, kk as nat));
                } else {
                    // The right half starts past the last block: the left
                    // entry already covers everything up to the end.
                    assert((g + half) * b >= m * b) by (nonlinear_arith)
                        requires
                            g + half >= m,
                            b >= 1,
                    ;
                    assert((g + pow2(kk as nat)) * b >= (g + half) * b) by (nonlinear_arith)
                        requires
                            pow2(kk as nat) >= half,
                            b >= 1,
                            g >= 0,
                    ;
                    assert(e1.min < MAX_LEN);
                    assert(e == e1);
                    assert(row_ok(e, vals, b as int, g as int, kk as nat));
                }
            }
            row.push(e);
            g += 1;
        }
        ranges_answers.push(row);
        kk += 1;
    }
    ranges_answers
}

/// Builds the in-block answer tables, one per block shape that occurs, and
/// records each block's shape code. All blocks of one shape share one table.
#[verifier::loop_isolation(false)]
#[verifier::rlimit(100)]
#[verifier::spinoff_prover]
pub(crate) fn build_tables(
    block_difftypes: &Vec<Vec<i8>>,
    Ghost(vals): Ghost<Seq<usize>>,
    b: usize,
    m: usize,
) -> (r: (Vec<Vec<Min<i64, usize>>>, Vec<usize>))
    requires
        1 <= vals.len() < MAX_LEN,
        small_steps(vals),
        1 <= b <= 7,
        m >= 1,
        m < MAX_LEN,
        block_difftypes@.len() == m,
        forall|g0: int| 0 <= g0 < m ==> (#[trigger] block_difftypes@[g0])@.len() == b,
        forall|g0: int, t0: int|
            0 <= g0 < m && 0 <= t0 < b ==> #[trigger] block_difftypes@[g0]@[t0] as int
                == blk_digit(vals, b as int, g0, t0),
    ensures
        r.1@.len() == m,
        forall|g0: int| 0 <= g0 < m ==> (#[trigger] r.1@[g0]) < r.0@.len(),
        forall|g0: int|
            0 <= g0 < m ==> table_ok(#[trigger] r.0@[r.1@[g0] as int]@, vals, b as int, g0),
{
    let r3 = pow3e(b);
    assert(b * (b + 1) <= 56) by (nonlinear_arith)
        requires
            1 <= b <= 7,
    ;
    let s = b * (b + 1) / 2;
    let mut block_answers: Vec<Vec<Min<i64, usize>>> = Vec::new();
    while block_answers.len() < r3
        invariant
            block_answers@.len() <= r3,
            forall|c: int|
                0 <= c < block_answers@.len() ==> (#[trigger] block_answers@[c])@.len() == s,
        decreases r3 - block_answers@.len(),
    {
        let mut row: Vec<Min<i64, usize>> = Vec::new();
        while row.len() < s
            invariant
                row@.len() <= s,
            decreases s - row@.len(),
        {
            row.push(Min::default());
        }
        block_answers.push(row);
    }
    let mut types_done: Vec<bool> = vec![false; r3];
    let mut block_types: Vec<usize> = vec![0; m];
    let mut g: usize = 0;
    while g < m
        invariant
            g <= m,
            block_types@.len() == m,
            types_done@.len() == r3,
            block_answers@.len() == r3,
            forall|c: int|
                0 <= c < r3 ==> (#[trigger] block_answers@[c])@.len() == s,
            forall|c: int|
                0 <= c < r3 ==> (#[trigger] types_done@[c] ==> tbl_certified(
                    block_answers@,
                    vals,
                    b as int,
                    m as int,
                    c,
                )),
            forall|g0: int|
                0 <= g0 < g ==> {
                    &&& (#[trigger] block_types@[g0]) == block_code(vals, b as int, g0)
                    &&& block_types@[g0] < r3
                    &&& types_done@[block_types@[g0] as int]
                },
        decreases m - g,
    {
        proof {
            lemma_code_range(vals, b as int, g as int, b as int);
        }
        let dt = &block_difftypes[g];
        let mut c: usize = 0;
        let mut t: usize = 0;
        while t < b
            invariant
                t <= b,
                g < m,
                c == code_prefix(vals, b as int, g as int, t as int),
                c < pow3(t as nat),
            decreases b - t,
        {
            proof {
                lemma_digit_range(vals, b as int, g as int, t as int);
                lemma_code_range(vals, b as int, g as int, (t + 1) as int);
                lemma_pow3_mono((t + 1) as nat, 16);
                assert(pow3(16) == 43046721) by {
                    reveal_with_fuel(pow3, 17);
                }
            }
            let d = dt[t];
            c = c * 3 + ((d + 1) as usize);
            t += 1;
        }
        proof {
            lemma_pow3_mono(b as nat, 16);
        }
        if !types_done[c] {
            let row = fill_table(dt, Ghost(vals), b, Ghost(g as int), s);
            let ghost old_ba = block_answers@;
            let ghost old_td = types_done@;
            block_answers.set(c, row);
            types_done.set(c, true);
            proof {
                assert(table_ok(block_answers@[c as int]@, vals, b as int, g as int));
                assert forall|c0: int|
                    0 <= c0 < r3 && #[trigger] types_done@[c0] implies tbl_certified(
                    block_answers@,
                    vals,
                    b as int,
                    m as int,
                    c0,
                ) by {
                    if c0 == c {
                        assert(0 <= g < m && block_code(vals, b as int, g as int) == c0
                            && table_ok(block_answers@[c0]@, vals, b as int, g as int));
                    } else {
                        assert(old_td[c0]);
                        assert(tbl_certified(old_ba, vals, b as int, m as int, c0));
                        let gw = choose|g0: int|
                            0 <= g0 < m && #[trigger] block_code(vals, b as int, g0) == c0
                                && table_ok(old_ba[c0]@, vals, b as int, g0);
                        assert(block_answers@[c0] == old_ba[c0]);
                        assert(0 <= gw < m && block_code(vals, b as int, gw) == c0 && table_ok(
                            block_answers@[c0]@,
                            vals,
                            b as int,
                            gw,
                        ));
                    }
                }
            }
        }
        else {
            proof {
                assert(types_done@[c as int]);
                assert(tbl_certified(block_answers@, vals, b as int, m as int, c as int));
            }
        }
        block_types.set(g, c);
        proof {
            assert(c == block_code(vals, b as int, g as int));
        }
        g += 1;
    }
    proof {
        // Each block reads the table that some block of the same shape
        // filled; equal codes decode to equal relative values, so the table
        // answers for this block too.
        assert forall|g0: int| 0 <= g0 < m implies table_ok(
            #[trigger] block_answers@[block_types@[g0] as int]@,
            vals,
            b as int,
            g0,
        ) by {
            let c0 = block_types@[g0] as int;
            assert(tbl_certified(block_answers@, vals, b as int, m as int, c0));
            let gw = choose|gw: int|
                0 <= gw < m && #[trigger] block_code(vals, b as int, gw) == c0 && table_ok(
                    block_answers@[c0]@,
                    vals,
                    b as int,
                    gw,
                );
            lemma_code_inj(vals, b as int, gw, g0, b as int);
            let tbl = block_answers@[c0]@;
            assert forall|x: int, y: int|
                0 <= x <= y < b implies entry_ok(#[trigger] tbl[qi(x, y)], vals, b as int, g0, x, y)
                by {
                assert(entry_ok(tbl[qi(x, y)], vals, b as int, gw, x, y));
                assert forall|t0: int|
                    x <= t0 <= y implies #[trigger] rel_val(vals, b as int, g0, t0) >= tbl[qi(
                    x,
                    y,
                )].min by {
                    assert(rel_val(vals, b as int, gw, t0) >= tbl[qi(x, y)].min);
                }
                assert forall|t0: int|
                    x <= t0 < tbl[qi(x, y)].argmin implies #[trigger] rel_val(vals, b as int, g0, t0)
                    > tbl[qi(x, y)].min by {
                    assert(rel_val(vals, b as int, gw, t0) > tbl[qi(x, y)].min);
                }
            }
        }
    }
    (block_answers, block_types)
}

/// Fills the answer table of one block shape: the answer for every in-block
/// range, by a quadratic sweep over the block's relative values.
#[verifier::loop_isolation(false)]
#[verifier::rlimit(60)]
#[verifier::spinoff_prover]
fn fill_table(dt: &Vec<i8>, Ghost(vals): Ghost<Seq<usize>>, b: usize, Ghost(g): Ghost<int>, s: usize) -> (row:
    Vec<Min<i64, usize>>)
    requires
        1 <= vals.len() < MAX_LEN,
        small_steps(vals),
        1 <= b <= 7,
        g >= 0,
        s == b * (b + 1) / 2,
        dt@.len() == b,
        forall|t0: int| 0 <= t0 < b ==> #[trigger] dt@[t0] as int == blk_digit(vals, b as int, g, t0),
    ensures
        table_ok(row@, vals, b as int, g),
{
    let mut row: Vec<Min<i64, usize>> = Vec::new();
    while row.len() < s
        invariant
            row@.len() <= s,
        decreases s - row@.len(),
    {
        row.push(Min::default());
    }
    let mut val_at_x: i64 = 0;
    let mut x: usize = 0;
    while x < b
        invariant
            x <= b,
            row@.len() == s,
            val_at_x == if x == 0 {
                0int
            } else {
                rel_val(vals, b as int, g, x - 1)
            },
            -7 <= val_at_x <= 7,
            forall|x0: int, y0: int|
                0 <= x0 < x && x0 <= y0 < b ==> entry_ok(
                    #[trigger] row@[qi(x0, y0)],
                    vals,
                    b as int,
                    g,
                    x0,
                    y0,
                ),
        decreases b - x,
    {
        proof {
            lemma_digit_range(vals, b as int, g, x as int);
            if x > 0 {
                lemma_rel_bound(vals, b as int, g, x - 1);
            }
            lemma_rel_bound(vals, b as int, g, x as int);
            assert(rel_val(vals, b as int, g, x as int) == (if x == 0 {
                0int
            } else {
                rel_val(vals, b as int, g, x - 1)
            }) + blk_digit(vals, b as int, g, x as int));
        }
        let mut val_at_y = val_at_x;
        val_at_x = val_at_x + (dt[x] as i64);
        let mut mn = Min::new(val_at_x, x);
        let mut y: usize = x;
        while y < b
            invariant
                x <= y <= b,
                x < b,
                row@.len() == s,
                val_at_y == if y == 0 {
                    0int
                } else {
                    rel_val(vals, b as int, g, y - 1)
                },
                -7 <= val_at_y <= 7,
                x <= mn.argmin,
                mn.argmin <= (if x > y - 1 {
                    x as int
                } else {
                    y - 1
                }),
                mn.argmin < b,
                mn.min == rel_val(vals, b as int, g, mn.argmin as int),
                forall|t0: int|
                    x <= t0 <= (if x > y - 1 {
                        x as int
                    } else {
                        y - 1
                    }) ==> #[trigger] rel_val(vals, b as int, g, t0) >= mn.min,
                forall|t0: int|
                    x <= t0 < mn.argmin ==> #[trigger] rel_val(vals, b as int, g, t0) > mn.min,
                forall|x0: int, y0: int|
                    0 <= x0 < x && x0 <= y0 < b ==> entry_ok(
                        #[trigger] row@[qi(x0, y0)],
                        vals,
                        b as int,
                        g,
                        x0,
                        y0,
                    ),
                forall|y0: int|
                    x <= y0 < y ==> entry_ok(
                        #[trigger] row@[qi(x as int, y0)],
                        vals,
                        b as int,
                        g,
                        x as int,
                        y0,
                    ),
            decreases b - y,
        {
            proof {
                lemma_digit_range(vals, b as int, g, y as int);
                lemma_rel_bound(vals, b as int, g, y as int);
                assert(rel_val(vals, b as int, g, y as int) == (if y == 0 {
                    0int
                } else {
                    rel_val(vals, b as int, g, y - 1)
                }) + blk_digit(vals, b as int, g, y as int));
            }
            val_at_y = val_at_y + (dt[y] as i64);
            mn = mn.min(Min::new(val_at_y, y));
            let qidx = query_index(x, y);
            proof {
                lemma_qi_bound(x as int, y as int, b as int);
            }
            let ghost old_row = row@;
            row.set(qidx, mn);
            proof {
                assert forall|x0: int, y0: int|
                    0 <= x0 < x && x0 <= y0 < b implies entry_ok(
                    #[trigger] row@[qi(x0, y0)],
                    vals,
                    b as int,
                    g,
                    x0,
                    y0,
                ) by {
                    lemma_qi_inj(x0, y0, x as int, y as int);
                    lemma_qi_bound(x0, y0, b as int);
                    assert(row@[qi(x0, y0)] == old_row[qi(x0, y0)]);
                }
                assert forall|y0: int|
                    x <= y0 < y + 1 implies entry_ok(
                    #[trigger] row@[qi(x as int, y0)],
                    vals,
                    b as int,
                    g,
                    x as int,
                    y0,
                ) by {
                    if y0 < y {
                        lemma_qi_inj(x as int, y0, x as int, y as int);
                        lemma_qi_bound(x as int, y0, b as int);
                        assert(row@[qi(x as int, y0)] == old_row[qi(x as int, y0)]);
                    } else {
                        assert(row@[qi(x as int, y as int)] == mn);
                    }
                }
            }
            y += 1;
        }
        x += 1;
    }
    row
}

} // verus!
