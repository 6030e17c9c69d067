//! The feedback scorer: comparing a candidate sequence against a guess.
//!
//! Feedback is a pair `(exact, value_only)`: `exact` counts positions where
//! the two sequences agree, and `value_only` counts further pegs whose value
//! occurs in both sequences but at no common position. `value_only` is
//! computed from value histograms: the total number of value matches is the
//! sum over every value of the smaller of its two occurrence counts, and the
//! exact matches are subtracted from that total so no position is counted
//! twice.

use vstd::prelude::*;
use vstd::pervasive::VecAdditionalExecFns;

use crate::domain::Config;
use crate::domain::peg_in_range;
use crate::domain::pegs_wf;

verus! {

/// Number of positions at which the two sequences hold the same value.
pub open spec fn exact_count(a: Seq<i8>, b: Seq<i8>) -> int
    recommends
        a.len() == b.len(),
    decreases a.len(),
{
    if a.len() == 0 {
        0
    } else {
        exact_count(a.drop_last(), b.drop_last()) + if a.last() == b.last() {
            1int
        } else {
            0int
        }
    }
}

/// Number of positions of `s` holding the value `v`.
pub open spec fn count_val(s: Seq<i8>, v: int) -> int
    decreases s.len(),
{
    if s.len() == 0 {
        0
    } else {
        count_val(s.drop_last(), v) + if s.last() as int == v {
            1int
        } else {
            0int
        }
    }
}

/// Sum of `count_val(s, v)` over all values `v` in `[lo, hi)`.
pub open spec fn count_sum(s: Seq<i8>, lo: int, hi: int) -> int
    decreases hi - lo,
{
    if lo >= hi {
        0
    } else {
        count_sum(s, lo, hi - 1) + count_val(s, hi - 1)
    }
}

/// Sum over all values `v` in `[lo, hi)` of the smaller of the two
/// occurrence counts of `v`: the total number of value matches.
pub open spec fn min_count_sum(a: Seq<i8>, b: Seq<i8>, lo: int, hi: int) -> int
    decreases hi - lo,
{
    if lo >= hi {
        0
    } else {
        min_count_sum(a, b, lo, hi - 1) + vstd::math::min(
            count_val(a, hi - 1),
            count_val(b, hi - 1),
        )
    }
}

/// Total value matches between two sequences over the configured value range.
pub open spec fn total_value_matches(cfg: Config, a: Seq<i8>, b: Seq<i8>) -> int {
    min_count_sum(a, b, cfg.min_value as int, cfg.max_value + 1)
}

/// The feedback for candidate `a` against guess `b`, as a mathematical pair
/// `(exact, value_only)`.
pub open spec fn spec_score(cfg: Config, a: Seq<i8>, b: Seq<i8>) -> (int, int) {
    (exact_count(a, b), total_value_matches(cfg, a, b) - exact_count(a, b))
}

proof fn lemma_count_val_le_len(s: Seq<i8>, v: int)
    ensures
        0 <= count_val(s, v) <= s.len(),
    decreases s.len(),
{
    if s.len() > 0 {
        lemma_count_val_le_len(s.drop_last(), v);
    }
}

proof fn lemma_count_val_push(s: Seq<i8>, x: i8, v: int)
    ensures
        count_val(s.push(x), v) == count_val(s, v) + if x as int == v {
            1int
        } else {
            0int
        },
{
    assert(s.push(x).drop_last() =~= s);
}

proof fn lemma_exact_count_push(a: Seq<i8>, b: Seq<i8>, x: i8, y: i8)
    ensures
        exact_count(a.push(x), b.push(y)) == exact_count(a, b) + if x == y {
            1int
        } else {
            0int
        },
{
    assert(a.push(x).drop_last() =~= a);
    assert(b.push(y).drop_last() =~= b);
}

proof fn lemma_exact_count_bounds(a: Seq<i8>, b: Seq<i8>)
    requires
        a.len() == b.len(),
    ensures
        0 <= exact_count(a, b) <= a.len(),
        exact_count(a, b) == a.len() <==> a == b,
    decreases a.len(),
{
    if a.len() == 0 {
        assert(a =~= b);
    } else {
        lemma_exact_count_bounds(a.drop_last(), b.drop_last());
        if exact_count(a, b) == a.len() {
            assert(exact_count(a.drop_last(), b.drop_last()) == a.len() - 1);
            assert(a.last() == b.last());
            assert(a.drop_last() == b.drop_last());
            assert forall|i: int| 0 <= i < a.len() implies a[i] == b[i] by {
                if i < a.len() - 1 {
                    assert(a[i] == a.drop_last()[i]);
                    assert(b[i] == b.drop_last()[i]);
                } else {
                    assert(a[i] == a.last());
                    assert(b[i] == b.last());
                }
            }
            assert(a =~= b);
        }
        if a == b {
            assert(a.drop_last() =~= b.drop_last());
        }
    }
}

proof fn lemma_exact_count_symmetric(a: Seq<i8>, b: Seq<i8>)
    requires
        a.len() == b.len(),
    ensures
        exact_count(a, b) == exact_count(b, a),
    decreases a.len(),
{
    if a.len() > 0 {
        lemma_exact_count_symmetric(a.drop_last(), b.drop_last());
    }
}

proof fn lemma_count_sum_push(s: Seq<i8>, x: i8, lo: int, hi: int)
    ensures
        count_sum(s.push(x), lo, hi) == count_sum(s, lo, hi) + if lo <= x < hi {
            1int
        } else {
            0int
        },
    decreases hi - lo,
{
    if lo < hi {
        lemma_count_sum_push(s, x, lo, hi - 1);
        lemma_count_val_push(s, x, hi - 1);
    }
}

proof fn lemma_count_sum_empty(lo: int, hi: int)
    ensures
        count_sum(Seq::<i8>::empty(), lo, hi) == 0,
        min_count_sum(Seq::<i8>::empty(), Seq::<i8>::empty(), lo, hi) == 0,
    decreases hi - lo,
{
    if lo < hi {
        lemma_count_sum_empty(lo, hi - 1);
    }
}

/// The values of `[lo, hi)` partition the positions they cover: summing the
/// per-value counts never exceeds the sequence length, and covers it exactly
/// when every value of the sequence lies in `[lo, hi)`.
pub proof fn lemma_count_sum_le_len(s: Seq<i8>, lo: int, hi: int)
    ensures
        0 <= count_sum(s, lo, hi) <= s.len(),
        (forall|i: int| 0 <= i < s.len() ==> lo <= #[trigger] s[i] < hi) ==> count_sum(
            s,
            lo,
            hi,
        ) == s.len(),
    decreases s.len(),
{
    if s.len() == 0 {
        assert(s =~= Seq::<i8>::empty());
        lemma_count_sum_empty(lo, hi);
    } else {
        let s0 = s.drop_last();
        lemma_count_sum_le_len(s0, lo, hi);
        assert(s =~= s0.push(s.last()));
        lemma_count_sum_push(s0, s.last(), lo, hi);
        assert(forall|i: int| 0 <= i < s0.len() ==> s0[i] == s[i]);
    }
}

proof fn lemma_min_count_sum_bounds(a: Seq<i8>, b: Seq<i8>, lo: int, hi: int)
    ensures
        0 <= min_count_sum(a, b, lo, hi),
        min_count_sum(a, b, lo, hi) <= count_sum(a, lo, hi),
        min_count_sum(a, b, lo, hi) <= count_sum(b, lo, hi),
    decreases hi - lo,
{
    if lo < hi {
        lemma_min_count_sum_bounds(a, b, lo, hi - 1);
        lemma_count_val_le_len(a, hi - 1);
        lemma_count_val_le_len(b, hi - 1);
    }
}

proof fn lemma_min_count_sum_symmetric(a: Seq<i8>, b: Seq<i8>, lo: int, hi: int)
    ensures
        min_count_sum(a, b, lo, hi) == min_count_sum(b, a, lo, hi),
    decreases hi - lo,
{
    if lo < hi {
        lemma_min_count_sum_symmetric(a, b, lo, hi - 1);
    }
}

proof fn lemma_min_count_sum_self(a: Seq<i8>, lo: int, hi: int)
    ensures
        min_count_sum(a, a, lo, hi) == count_sum(a, lo, hi),
    decreases hi - lo,
{
    if lo < hi {
        lemma_min_count_sum_self(a, lo, hi - 1);
    }
}

proof fn lemma_min_count_sum_push(a: Seq<i8>, b: Seq<i8>, x: i8, y: i8, lo: int, hi: int)
    ensures
        min_count_sum(a.push(x), b.push(y), lo, hi) >= min_count_sum(a, b, lo, hi),
        (x == y && lo <= x < hi) ==> min_count_sum(a.push(x), b.push(y), lo, hi)
            >= min_count_sum(a, b, lo, hi) + 1,
    decreases hi - lo,
{
    if lo < hi {
        lemma_min_count_sum_push(a, b, x, y, lo, hi - 1);
        lemma_count_val_push(a, x, hi - 1);
        lemma_count_val_push(b, y, hi - 1);
    }
}

/// Every position counted as exact is also a value match, so the histogram
/// total dominates the exact count.
proof fn lemma_exact_le_min_sum(a: Seq<i8>, b: Seq<i8>, lo: int, hi: int)
    requires
        a.len() == b.len(),
        forall|i: int| 0 <= i < a.len() ==> lo <= #[trigger] a[i] < hi,
        forall|i: int| 0 <= i < b.len() ==> lo <= #[trigger] b[i] < hi,
    ensures
        exact_count(a, b) <= min_count_sum(a, b, lo, hi),
    decreases a.len(),
{
    if a.len() > 0 {
        let a0 = a.drop_last();
        let b0 = b.drop_last();
        let x = a.last();
        let y = b.last();
        assert(forall|i: int| 0 <= i < a0.len() ==> a0[i] == #[trigger] a[i]);
        assert(forall|i: int| 0 <= i < b0.len() ==> b0[i] == #[trigger] b[i]);
        assert(forall|i: int| 0 <= i < a0.len() ==> lo <= #[trigger] a0[i] < hi);
        assert(forall|i: int| 0 <= i < b0.len() ==> lo <= #[trigger] b0[i] < hi);
        lemma_exact_le_min_sum(a0, b0, lo, hi);
        assert(a =~= a0.push(x));
        assert(b =~= b0.push(y));
        lemma_exact_count_push(a0, b0, x, y);
        lemma_min_count_sum_push(a0, b0, x, y, lo, hi);
        assert(x == a[a.len() - 1] && lo <= x < hi);
        assert(y == b[b.len() - 1] && lo <= y < hi);
        assert(exact_count(a, b) == exact_count(a0, b0) + if x == y {
            1int
        } else {
            0int
        });
    } else {
        lemma_min_count_sum_bounds(a, b, lo, hi);
    }
}

/// The feedback pair is non-negative, its components sum to at most the peg
/// count, and the exact count reaches the peg count exactly on equal
/// sequences.
pub proof fn lemma_score_bounds(cfg: Config, a: Seq<i8>, b: Seq<i8>)
    requires
        cfg.wf(),
        pegs_wf(cfg, a),
        pegs_wf(cfg, b),
    ensures
        0 <= spec_score(cfg, a, b).0,
        0 <= spec_score(cfg, a, b).1,
        spec_score(cfg, a, b).0 + spec_score(cfg, a, b).1 <= cfg.num_pegs,
        spec_score(cfg, a, b).0 == cfg.num_pegs <==> a == b,
{
    let lo = cfg.min_value as int;
    let hi = cfg.max_value + 1;
    assert(forall|i: int| 0 <= i < a.len() ==> lo <= #[trigger] a[i] < hi) by {
        assert(forall|i: int| 0 <= i < a.len() ==> peg_in_range(cfg, #[trigger] a[i]));
    }
    assert(forall|i: int| 0 <= i < b.len() ==> lo <= #[trigger] b[i] < hi) by {
        assert(forall|i: int| 0 <= i < b.len() ==> peg_in_range(cfg, #[trigger] b[i]));
    }
    lemma_exact_count_bounds(a, b);
    lemma_exact_le_min_sum(a, b, lo, hi);
    lemma_min_count_sum_bounds(a, b, lo, hi);
    lemma_count_sum_le_len(a, lo, hi);
}

/// Scoring a sequence against itself reports every peg as exact.
pub proof fn lemma_score_self(cfg: Config, a: Seq<i8>)
    requires
        cfg.wf(),
        pegs_wf(cfg, a),
    ensures
        spec_score(cfg, a, a) == (cfg.num_pegs as int, 0int),
{
    let lo = cfg.min_value as int;
    let hi = cfg.max_value + 1;
    lemma_exact_count_bounds(a, a);
    lemma_min_count_sum_self(a, lo, hi);
    assert(forall|i: int| 0 <= i < a.len() ==> lo <= #[trigger] a[i] < hi) by {
        assert(forall|i: int| 0 <= i < a.len() ==> peg_in_range(cfg, #[trigger] a[i]));
    }
    lemma_count_sum_le_len(a, lo, hi);
}

/// Scoring is symmetric: a candidate against a guess yields the same pair as
/// the guess against the candidate.
pub proof fn lemma_score_symmetric(cfg: Config, a: Seq<i8>, b: Seq<i8>)
    requires
        a.len() == b.len(),
    ensures
        spec_score(cfg, a, b) == spec_score(cfg, b, a),
{
    lemma_exact_count_symmetric(a, b);
    lemma_min_count_sum_symmetric(a, b, cfg.min_value as int, cfg.max_value + 1);
}

/// Builds a zeroed histogram with one bucket per possible value.
fn zero_histogram(len: usize) -> (h: Vec<usize>)
    ensures
        h@.len() == len,
        forall|i: int| 0 <= i < len ==> h@[i] == 0,
{
    let mut h: Vec<usize> = Vec::new();
    let mut i: usize = 0;
    while i < len
        invariant
            i <= len,
            h@.len() == i,
            forall|j: int| 0 <= j < i ==> h@[j] == 0,
        decreases len - i,
    {
        h.push(0);
        i = i + 1;
    }
    h
}

/// Compares a candidate (or the secret) against a guess and returns the
/// feedback pair `(exact, value_only)`.
pub fn check_pegs(cfg: &Config, solution: &Vec<i8>, guess: &Vec<i8>) -> (f: (i8, i8))
    requires
        cfg.wf(),
        pegs_wf(*cfg, solution@),
        pegs_wf(*cfg, guess@),
    ensures
        (f.0 as int, f.1 as int) == spec_score(*cfg, solution@, guess@),
        0 <= f.0,
        0 <= f.1,
        f.0 + f.1 <= cfg.num_pegs,
{
    let ghost lo = cfg.min_value as int;
    let ghost hi = cfg.max_value + 1;
    let n = solution.len();
    let hist_len = (cfg.max_value as usize) + 1;
    let mut expected = zero_histogram(hist_len);
    let mut actual = zero_histogram(hist_len);
    let mut num_correct: usize = 0;

    proof {
        assert(solution@.take(0) =~= Seq::<i8>::empty());
        assert(guess@.take(0) =~= Seq::<i8>::empty());
    }
    let mut idx: usize = 0;
    while idx < n
        invariant
            cfg.wf(),
            pegs_wf(*cfg, solution@),
            pegs_wf(*cfg, guess@),
            n == solution@.len(),
            n == guess@.len(),
            idx <= n,
            hist_len as int == cfg.max_value as int + 1,
            expected@.len() == hist_len,
            actual@.len() == hist_len,
            num_correct == exact_count(solution@.take(idx as int), guess@.take(idx as int)),
            num_correct <= idx,
            forall|v: int| 0 <= v < hist_len ==> expected@[v] == count_val(
                solution@.take(idx as int),
                v,
            ),
            forall|v: int| 0 <= v < hist_len ==> actual@[v] == count_val(
                guess@.take(idx as int),
                v,
            ),
        decreases n - idx,
    {
        let s = solution[idx];
        let g = guess[idx];
        proof {
            assert(peg_in_range(*cfg, solution@[idx as int]));
            assert(peg_in_range(*cfg, guess@[idx as int]));
            assert(solution@.take(idx + 1) =~= solution@.take(idx as int).push(s));
            assert(guess@.take(idx + 1) =~= guess@.take(idx as int).push(g));
            lemma_exact_count_push(solution@.take(idx as int), guess@.take(idx as int), s, g);
            assert(forall|v: int| 0 <= v < hist_len ==> count_val(
                solution@.take(idx as int),
                v,
            ) <= idx) by {
                assert forall|v: int| 0 <= v < hist_len implies count_val(
                    solution@.take(idx as int),
                    v,
                ) <= idx by {
                    lemma_count_val_le_len(solution@.take(idx as int), v);
                }
            }
            assert(forall|v: int| 0 <= v < hist_len ==> count_val(
                guess@.take(idx as int),
                v,
            ) <= idx) by {
                assert forall|v: int| 0 <= v < hist_len implies count_val(
                    guess@.take(idx as int),
                    v,
                ) <= idx by {
                    lemma_count_val_le_len(guess@.take(idx as int), v);
                }
            }
            assert forall|v: int| 0 <= v < hist_len implies count_val(
                solution@.take(idx + 1),
                v,
            ) == count_val(solution@.take(idx as int), v) + if s as int == v {
                1int
            } else {
                0int
            } by {
                lemma_count_val_push(solution@.take(idx as int), s, v);
            }
            assert forall|v: int| 0 <= v < hist_len implies count_val(guess@.take(idx + 1), v)
                == count_val(guess@.take(idx as int), v) + if g as int == v {
                1int
            } else {
                0int
            } by {
                lemma_count_val_push(guess@.take(idx as int), g, v);
            }
        }
        if s == g {
            num_correct = num_correct + 1;
        }
        let si = s as usize;
        let gi = g as usize;
        let ec = expected[si];
        expected.set(si, ec + 1);
        let ac = actual[gi];
        actual.set(gi, ac + 1);
        idx = idx + 1;
    }
    proof {
        assert(solution@.take(n as int) =~= solution@);
        assert(guess@.take(n as int) =~= guess@);
    }

    let mut total: usize = 0;
    let mut val: usize = cfg.min_value as usize;
    proof {
        lemma_exact_count_bounds(solution@, guess@);
    }
    while val < hist_len
        invariant
            cfg.wf(),
            pegs_wf(*cfg, solution@),
            pegs_wf(*cfg, guess@),
            n == solution@.len(),
            cfg.min_value as int <= val as int <= hist_len as int,
            hist_len as int == cfg.max_value as int + 1,
            lo == cfg.min_value as int,
            hi == cfg.max_value as int + 1,
            expected@.len() == hist_len,
            actual@.len() == hist_len,
            forall|v: int| 0 <= v < hist_len ==> expected@[v] == count_val(solution@, v),
            forall|v: int| 0 <= v < hist_len ==> actual@[v] == count_val(guess@, v),
            total == min_count_sum(solution@, guess@, cfg.min_value as int, val as int),
            total <= n,
        decreases hist_len - val,
    {
        let e = expected[val];
        let a = actual[val];
        let m = if e < a {
            e
        } else {
            a
        };
        proof {
            lemma_count_val_le_len(solution@, val as int);
            lemma_count_val_le_len(guess@, val as int);
            assert(min_count_sum(solution@, guess@, lo, val + 1) == min_count_sum(
                solution@,
                guess@,
                lo,
                val as int,
            ) + vstd::math::min(count_val(solution@, val as int), count_val(guess@, val as int)));
            lemma_min_count_sum_bounds(solution@, guess@, lo, val + 1);
            lemma_count_sum_le_len(solution@, lo, val + 1);
        }
        total = total + m;
        val = val + 1;
    }

    proof {
        assert(forall|i: int| 0 <= i < solution@.len() ==> lo <= #[trigger] solution@[i] < hi)
            by {
            assert(forall|i: int|
                0 <= i < solution@.len() ==> peg_in_range(*cfg, #[trigger] solution@[i]));
        }
        assert(forall|i: int| 0 <= i < guess@.len() ==> lo <= #[trigger] guess@[i] < hi) by {
            assert(forall|i: int|
                0 <= i < guess@.len() ==> peg_in_range(*cfg, #[trigger] guess@[i]));
        }
        lemma_exact_le_min_sum(solution@, guess@, lo, hi);
    }
    (num_correct as i8, (total - num_correct) as i8)
}

} // verus!
