//! The minimax guess selector.
//!
//! Every remaining candidate is tried as a hypothetical guess. For each, the
//! candidates are grouped by the feedback the guess would receive against
//! them; the size of the largest group is the guess's worst case — how many
//! candidates could remain indistinguishable after playing it. The selector
//! returns the first candidate whose worst case is smallest.

use vstd::prelude::*;
use vstd::pervasive::VecAdditionalExecFns;

use crate::domain::Config;
use crate::domain::all_pegs_wf;
use crate::domain::copy_pegs;
use crate::domain::pegs_wf;
use crate::domain::views_of;
use crate::score::check_pegs;
use crate::score::spec_score;

verus! {

/// How many candidates would answer the guess `g` with exactly the feedback
/// `(ex, vo)`.
pub open spec fn bucket_size(cfg: Config, cands: Seq<Seq<i8>>, g: Seq<i8>, ex: int, vo: int) -> int
    decreases cands.len(),
{
    if cands.len() == 0 {
        0
    } else {
        bucket_size(cfg, cands.drop_last(), g, ex, vo) + if spec_score(cfg, cands.last(), g) == (
        ex,
        vo,
        ) {
            1int
        } else {
            0int
        }
    }
}

/// The largest bucket among the feedback pairs encoded by indices below `k`,
/// where index `e` stands for the pair `(e / n1, e % n1)`.
pub open spec fn max_bucket_upto(
    cfg: Config,
    cands: Seq<Seq<i8>>,
    g: Seq<i8>,
    n1: int,
    k: int,
) -> int
    decreases k,
{
    if k <= 0 {
        0
    } else {
        vstd::math::max(
            max_bucket_upto(cfg, cands, g, n1, k - 1),
            bucket_size(cfg, cands, g, (k - 1) / n1, (k - 1) % n1),
        )
    }
}

/// The worst case of guess `g` against `cands`: the size of the largest group
/// of candidates that a single feedback value would leave standing.
pub open spec fn worst_case(cfg: Config, cands: Seq<Seq<i8>>, g: Seq<i8>) -> int {
    max_bucket_upto(
        cfg,
        cands,
        g,
        cfg.num_pegs + 1,
        (cfg.num_pegs + 1) * (cfg.num_pegs + 1),
    )
}

/// `g` is the selector's choice from `cands`: a candidate whose worst case is
/// no larger than any candidate's, and the first in enumeration order to
/// reach that minimum.
pub open spec fn minimax_choice(cfg: Config, cands: Seq<Seq<i8>>, g: Seq<i8>) -> bool {
    &&& (forall|j: int|
        0 <= j < cands.len() ==> worst_case(cfg, cands, g) <= worst_case(
            cfg,
            cands,
            #[trigger] cands[j],
        ))
    &&& exists|i: int| #![trigger cands[i]]
        {
            &&& 0 <= i < cands.len()
            &&& cands[i] == g
            &&& forall|j: int|
                0 <= j < i ==> worst_case(cfg, cands, #[trigger] cands[j]) > worst_case(
                    cfg,
                    cands,
                    g,
                )
        }
}

proof fn lemma_bucket_le_len(cfg: Config, cands: Seq<Seq<i8>>, g: Seq<i8>, ex: int, vo: int)
    ensures
        0 <= bucket_size(cfg, cands, g, ex, vo) <= cands.len(),
    decreases cands.len(),
{
    if cands.len() > 0 {
        lemma_bucket_le_len(cfg, cands.drop_last(), g, ex, vo);
    }
}

proof fn lemma_bucket_push(cfg: Config, cands: Seq<Seq<i8>>, g: Seq<i8>, c: Seq<i8>, ex: int, vo: int)
    ensures
        bucket_size(cfg, cands.push(c), g, ex, vo) == bucket_size(cfg, cands, g, ex, vo) + if
            spec_score(cfg, c, g) == (ex, vo) {
            1int
        } else {
            0int
        },
{
    assert(cands.push(c).drop_last() =~= cands);
}

/// No bucket tally, hence no worst case, exceeds the number of candidates.
proof fn lemma_max_bucket_le_len(cfg: Config, cands: Seq<Seq<i8>>, g: Seq<i8>, n1: int, k: int)
    ensures
        0 <= max_bucket_upto(cfg, cands, g, n1, k) <= cands.len(),
    decreases k,
{
    if k <= 0 {
        lemma_bucket_le_len(cfg, cands, g, 0, 0);
    } else {
        lemma_max_bucket_le_len(cfg, cands, g, n1, k - 1);
        lemma_bucket_le_len(cfg, cands, g, (k - 1) / n1, (k - 1) % n1);
    }
}

/// The worst case of guess `g`, computed by tallying every candidate's
/// feedback against `g` into buckets and taking the largest tally.
fn worst_case_of_guess(cfg: &Config, candidates: &Vec<Vec<i8>>, g: &Vec<i8>) -> (w: usize)
    requires
        cfg.wf(),
        pegs_wf(*cfg, g@),
        all_pegs_wf(*cfg, views_of(candidates@)),
    ensures
        w as int == worst_case(*cfg, views_of(candidates@), g@),
{
    let ghost cviews = views_of(candidates@);
    let n = cfg.num_pegs;
    let n1 = n + 1;
    proof {
        assert(n1 * n1 <= 128 * 128) by (nonlinear_arith)
            requires
                1 <= n1 <= 128,
        ;
    }
    let buckets = n1 * n1;
    let mut counts: Vec<usize> = Vec::new();
    let mut z: usize = 0;
    while z < buckets
        invariant
            z <= buckets,
            counts@.len() == z,
            forall|e: int| 0 <= e < z ==> counts@[e] == 0,
        decreases buckets - z,
    {
        counts.push(0);
        z = z + 1;
    }
    proof {
        assert(cviews.take(0) =~= Seq::<Seq<i8>>::empty());
        assert forall|e: int| 0 <= e < buckets implies counts@[e] == bucket_size(
            *cfg,
            cviews.take(0),
            g@,
            e / (n1 as int),
            e % (n1 as int),
        ) by {
        }
    }
    let mut ci: usize = 0;
    while ci < candidates.len()
        invariant
            cfg.wf(),
            pegs_wf(*cfg, g@),
            all_pegs_wf(*cfg, cviews),
            cviews == views_of(candidates@),
            cviews.len() == candidates@.len(),
            ci <= candidates@.len(),
            n == cfg.num_pegs,
            n1 == n + 1,
            buckets == n1 * n1,
            counts@.len() == buckets,
            forall|e: int| 0 <= e < buckets ==> #[trigger] counts@[e] == bucket_size(
                *cfg,
                cviews.take(ci as int),
                g@,
                e / (n1 as int),
                e % (n1 as int),
            ),
        decreases candidates@.len() - ci,
    {
        proof {
            assert(cviews[ci as int] == candidates@[ci as int]@);
            assert(pegs_wf(*cfg, cviews[ci as int]));
        }
        let f = check_pegs(cfg, &candidates[ci], g);
        let x = f.0 as usize;
        let y = f.1 as usize;
        proof {
            assert((n1 as int) * (x as int) + (y as int) <= 128 * 128) by (nonlinear_arith)
                requires
                    0 <= (x as int) <= (n as int),
                    0 <= (y as int) <= (n as int),
                    (n1 as int) == (n as int) + 1,
                    (n as int) <= 127,
            ;
        }
        let enc = n1 * x + y;
        proof {
            assert(0 <= (enc as int) && (enc as int) < (buckets as int)) by (nonlinear_arith)
                requires
                    0 <= (x as int) <= (n as int),
                    0 <= (y as int) <= (n as int),
                    (n1 as int) == (n as int) + 1,
                    (buckets as int) == (n1 as int) * (n1 as int),
                    (enc as int) == (n1 as int) * (x as int) + (y as int),
            ;
            vstd::arithmetic::div_mod::lemma_fundamental_div_mod_converse(
                enc as int,
                n1 as int,
                x as int,
                y as int,
            );
            lemma_bucket_le_len(*cfg, cviews.take(ci as int), g@, x as int, y as int);
        }
        let cur = counts[enc];
        counts.set(enc, cur + 1);
        proof {
            assert(cviews.take(ci + 1) =~= cviews.take(ci as int).push(cviews[ci as int]));
            assert forall|e: int| 0 <= e < buckets implies #[trigger] counts@[e] == bucket_size(
                *cfg,
                cviews.take(ci + 1),
                g@,
                e / (n1 as int),
                e % (n1 as int),
            ) by {
                lemma_bucket_push(
                    *cfg,
                    cviews.take(ci as int),
                    g@,
                    cviews[ci as int],
                    e / (n1 as int),
                    e % (n1 as int),
                );
                if e != enc {
                    vstd::arithmetic::div_mod::lemma_fundamental_div_mod(e, n1 as int);
                    if e / (n1 as int) == x as int && e % (n1 as int) == y as int {
                        assert(e == (n1 as int) * (x as int) + (y as int));
                        assert(false);
                    }
                    assert(spec_score(*cfg, cviews[ci as int], g@) != (
                        e / (n1 as int),
                        e % (n1 as int),
                    ));
                }
            }
        }
        ci = ci + 1;
    }
    proof {
        assert(cviews.take(cviews.len() as int) =~= cviews);
    }

    let mut m: usize = 0;
    let mut e: usize = 0;
    while e < buckets
        invariant
            n1 == n + 1,
            n >= 1,
            buckets == n1 * n1,
            counts@.len() == buckets,
            cviews.len() == candidates@.len(),
            e <= buckets,
            forall|k: int| 0 <= k < buckets ==> #[trigger] counts@[k] == bucket_size(
                *cfg,
                cviews,
                g@,
                k / (n1 as int),
                k % (n1 as int),
            ),
            m as int == max_bucket_upto(*cfg, cviews, g@, n1 as int, e as int),
            m <= cviews.len(),
        decreases buckets - e,
    {
        proof {
            vstd::arithmetic::div_mod::lemma_fundamental_div_mod(e as int, n1 as int);
            lemma_bucket_le_len(*cfg, cviews, g@, (e as int) / (n1 as int), (e as int) % (
            n1 as int));
        }
        let c = counts[e];
        if c > m {
            m = c;
        }
        e = e + 1;
    }
    m
}

/// Picks, among the remaining candidates, the guess whose worst-case feedback
/// bucket is smallest; the first candidate reaching that minimum wins ties.
pub fn pick_guess(cfg: &Config, candidates: &Vec<Vec<i8>>) -> (g: Vec<i8>)
    requires
        cfg.wf(),
        candidates@.len() >= 1,
        all_pegs_wf(*cfg, views_of(candidates@)),
    ensures
        views_of(candidates@).contains(g@),
        pegs_wf(*cfg, g@),
        minimax_choice(*cfg, views_of(candidates@), g@),
{
    let ghost cviews = views_of(candidates@);
    let mut best_guess = copy_pegs(&candidates[0]);
    let mut best_score = candidates.len();
    let ghost mut best_idx: int = 0;
    proof {
        assert(cviews[0] == candidates@[0]@);
        assert(cviews.contains(cviews[0]));
        lemma_max_bucket_le_len(
            *cfg,
            cviews,
            best_guess@,
            cfg.num_pegs + 1,
            (cfg.num_pegs + 1) * (cfg.num_pegs + 1),
        );
    }
    let mut gi: usize = 0;
    while gi < candidates.len()
        invariant
            cfg.wf(),
            all_pegs_wf(*cfg, cviews),
            cviews == views_of(candidates@),
            cviews.len() == candidates@.len(),
            candidates@.len() >= 1,
            gi <= candidates@.len(),
            cviews.contains(best_guess@),
            pegs_wf(*cfg, best_guess@),
            best_score as int >= worst_case(*cfg, cviews, best_guess@),
            forall|j: int| 0 <= j < gi ==> worst_case(*cfg, cviews, #[trigger] candidates@[j]@)
                >= best_score as int,
            gi == 0 ==> best_guess@ == candidates@[0]@ && best_score == candidates@.len()
                && best_idx == 0,
            gi >= 1 ==> {
                &&& 0 <= best_idx < gi
                &&& best_guess@ == candidates@[best_idx]@
                &&& best_score as int == worst_case(*cfg, cviews, best_guess@)
                &&& forall|j: int|
                    0 <= j < best_idx ==> worst_case(*cfg, cviews, #[trigger] candidates@[j]@)
                        > best_score as int
            },
        decreases candidates@.len() - gi,
    {
        proof {
            assert(cviews[gi as int] == candidates@[gi as int]@);
            assert(cviews.contains(cviews[gi as int]));
            assert(pegs_wf(*cfg, cviews[gi as int]));
        }
        let w = worst_case_of_guess(cfg, candidates, &candidates[gi]);
        if w < best_score {
            proof {
                best_idx = gi as int;
            }
            best_guess = copy_pegs(&candidates[gi]);
            best_score = w;
        } else {
            proof {
                if gi == 0 {
                    lemma_max_bucket_le_len(
                        *cfg,
                        cviews,
                        best_guess@,
                        cfg.num_pegs + 1,
                        (cfg.num_pegs + 1) * (cfg.num_pegs + 1),
                    );
                    assert(best_score as int == worst_case(*cfg, cviews, best_guess@));
                }
            }
        }
        gi = gi + 1;
    }
    proof {
        assert forall|j: int|
            0 <= j < cviews.len() implies worst_case(*cfg, cviews, best_guess@) <= worst_case(
            *cfg,
            cviews,
            #[trigger] cviews[j],
        ) by {
            assert(cviews[j] == candidates@[j]@);
        }
        assert(cviews[best_idx] == candidates@[best_idx]@);
        assert forall|j: int|
            0 <= j < best_idx implies worst_case(*cfg, cviews, #[trigger] cviews[j])
            > worst_case(*cfg, cviews, best_guess@) by {
            assert(cviews[j] == candidates@[j]@);
        }
    }
    best_guess
}

} // verus!
