//! The consistency filter: pruning candidates against observed feedback.
//!
//! A candidate can still be the secret only if the guess, played against it,
//! would have produced exactly the feedback that was observed. Filtering keeps
//! precisely those candidates, in their original order; a candidate discarded
//! once can never return.

use vstd::prelude::*;

use crate::domain::Config;
use crate::domain::all_pegs_wf;
use crate::domain::copy_pegs;
use crate::domain::pegs_wf;
use crate::domain::views_of;
use crate::score::check_pegs;
use crate::score::spec_score;

verus! {

/// The subsequence of `cands` whose feedback against the guess `g` is exactly
/// `(ex, vo)`.
pub open spec fn spec_filter(cfg: Config, cands: Seq<Seq<i8>>, g: Seq<i8>, ex: int, vo: int) -> Seq<
    Seq<i8>,
>
    decreases cands.len(),
{
    if cands.len() == 0 {
        Seq::empty()
    } else {
        let rest = spec_filter(cfg, cands.drop_last(), g, ex, vo);
        if spec_score(cfg, cands.last(), g) == (ex, vo) {
            rest.push(cands.last())
        } else {
            rest
        }
    }
}

proof fn lemma_filter_push(cfg: Config, cands: Seq<Seq<i8>>, g: Seq<i8>, c: Seq<i8>, ex: int, vo: int)
    ensures
        spec_filter(cfg, cands.push(c), g, ex, vo) == if spec_score(cfg, c, g) == (ex, vo) {
            spec_filter(cfg, cands, g, ex, vo).push(c)
        } else {
            spec_filter(cfg, cands, g, ex, vo)
        },
{
    assert(cands.push(c).drop_last() =~= cands);
}

/// A single survivor of the filter is a member of the original set and
/// reproduces the observed feedback.
pub proof fn lemma_filter_element(
    cfg: Config,
    cands: Seq<Seq<i8>>,
    g: Seq<i8>,
    ex: int,
    vo: int,
    x: Seq<i8>,
)
    requires
        spec_filter(cfg, cands, g, ex, vo).contains(x),
    ensures
        cands.contains(x),
        spec_score(cfg, x, g) == (ex, vo),
    decreases cands.len(),
{
    let f = spec_filter(cfg, cands, g, ex, vo);
    let cands0 = cands.drop_last();
    let f0 = spec_filter(cfg, cands0, g, ex, vo);
    let k = choose|k: int| 0 <= k < f.len() && f[k] == x;
    if spec_score(cfg, cands.last(), g) == (ex, vo) && k == f.len() - 1 {
        assert(x == cands.last());
        assert(cands[cands.len() - 1] == x);
    } else {
        assert(f0[k] == x);
        assert(f0.contains(x));
        lemma_filter_element(cfg, cands0, g, ex, vo, x);
        let i = choose|i: int| 0 <= i < cands0.len() && cands0[i] == x;
        assert(cands[i] == x);
    }
}

/// Filtering keeps only members of the original set, keeps at most as many,
/// and every survivor reproduces the observed feedback.
pub proof fn lemma_filter_subset(cfg: Config, cands: Seq<Seq<i8>>, g: Seq<i8>, ex: int, vo: int)
    ensures
        forall|x: Seq<i8>| #![trigger spec_filter(cfg, cands, g, ex, vo).contains(x)]
            spec_filter(cfg, cands, g, ex, vo).contains(x) ==> cands.contains(x) && spec_score(
                cfg,
                x,
                g,
            ) == (ex, vo),
        spec_filter(cfg, cands, g, ex, vo).len() <= cands.len(),
{
    let f = spec_filter(cfg, cands, g, ex, vo);
    assert forall|x: Seq<i8>| #![trigger spec_filter(cfg, cands, g, ex, vo).contains(x)]
        spec_filter(cfg, cands, g, ex, vo).contains(x) implies cands.contains(x) && spec_score(
        cfg,
        x,
        g,
    ) == (ex, vo) by {
        lemma_filter_element(cfg, cands, g, ex, vo, x);
    }
    lemma_filter_len(cfg, cands, g, ex, vo);
}

proof fn lemma_filter_len(cfg: Config, cands: Seq<Seq<i8>>, g: Seq<i8>, ex: int, vo: int)
    ensures
        spec_filter(cfg, cands, g, ex, vo).len() <= cands.len(),
    decreases cands.len(),
{
    if cands.len() > 0 {
        lemma_filter_len(cfg, cands.drop_last(), g, ex, vo);
    }
}

/// A set every member of which reproduces the feedback passes the filter
/// unchanged; hence filtering twice with the same guess and feedback equals
/// filtering once.
pub proof fn lemma_filter_all_match(cfg: Config, cands: Seq<Seq<i8>>, g: Seq<i8>, ex: int, vo: int)
    requires
        forall|x: Seq<i8>| cands.contains(x) ==> spec_score(cfg, x, g) == (ex, vo),
    ensures
        spec_filter(cfg, cands, g, ex, vo) == cands,
    decreases cands.len(),
{
    if cands.len() == 0 {
        assert(spec_filter(cfg, cands, g, ex, vo) =~= cands);
    } else {
        let cands0 = cands.drop_last();
        assert forall|x: Seq<i8>| cands0.contains(x) implies spec_score(cfg, x, g) == (ex, vo) by {
            let i = choose|i: int| 0 <= i < cands0.len() && cands0[i] == x;
            assert(cands[i] == x);
            assert(cands.contains(x));
        }
        lemma_filter_all_match(cfg, cands0, g, ex, vo);
        assert(cands.contains(cands.last())) by {
            assert(cands[cands.len() - 1] == cands.last());
        }
        assert(spec_filter(cfg, cands, g, ex, vo) == cands0.push(cands.last()));
        assert(cands0.push(cands.last()) =~= cands);
    }
}

/// Filtering is idempotent: applying the same guess and feedback a second
/// time removes nothing further.
pub proof fn lemma_filter_idempotent(cfg: Config, cands: Seq<Seq<i8>>, g: Seq<i8>, ex: int, vo: int)
    ensures
        spec_filter(cfg, spec_filter(cfg, cands, g, ex, vo), g, ex, vo) == spec_filter(
            cfg,
            cands,
            g,
            ex,
            vo,
        ),
{
    lemma_filter_subset(cfg, cands, g, ex, vo);
    lemma_filter_all_match(cfg, spec_filter(cfg, cands, g, ex, vo), g, ex, vo);
}

/// A truthful oracle never eliminates the secret: if the feedback was computed
/// by scoring the secret itself against the guess, the secret survives the
/// filter.
pub proof fn lemma_filter_retains_secret(cfg: Config, cands: Seq<Seq<i8>>, g: Seq<i8>, s: Seq<i8>)
    requires
        cands.contains(s),
    ensures
        spec_filter(
            cfg,
            cands,
            g,
            spec_score(cfg, s, g).0,
            spec_score(cfg, s, g).1,
        ).contains(s),
    decreases cands.len(),
{
    let ex = spec_score(cfg, s, g).0;
    let vo = spec_score(cfg, s, g).1;
    let f = spec_filter(cfg, cands, g, ex, vo);
    if cands.last() == s {
        assert(spec_score(cfg, cands.last(), g) == (ex, vo));
        assert(f.last() == s);
        assert(f[f.len() - 1] == s);
    } else {
        let i = choose|i: int| 0 <= i < cands.len() && cands[i] == s;
        assert(cands.drop_last()[i] == s);
        assert(cands.drop_last().contains(s));
        lemma_filter_retains_secret(cfg, cands.drop_last(), g, s);
        let f0 = spec_filter(cfg, cands.drop_last(), g, ex, vo);
        let j = choose|j: int| 0 <= j < f0.len() && f0[j] == s;
        if spec_score(cfg, cands.last(), g) == (ex, vo) {
            assert(f[j] == s);
        }
    }
}

/// Filtering never introduces a duplicate.
pub proof fn lemma_filter_no_duplicates(cfg: Config, cands: Seq<Seq<i8>>, g: Seq<i8>, ex: int, vo: int)
    requires
        cands.no_duplicates(),
    ensures
        spec_filter(cfg, cands, g, ex, vo).no_duplicates(),
    decreases cands.len(),
{
    if cands.len() > 0 {
        let cands0 = cands.drop_last();
        assert(cands0.no_duplicates());
        lemma_filter_no_duplicates(cfg, cands0, g, ex, vo);
        let f0 = spec_filter(cfg, cands0, g, ex, vo);
        if spec_score(cfg, cands.last(), g) == (ex, vo) {
            if f0.contains(cands.last()) {
                lemma_filter_element(cfg, cands0, g, ex, vo, cands.last());
                let i = choose|i: int| 0 <= i < cands0.len() && cands0[i] == cands.last();
                assert(cands[i] == cands[cands.len() - 1]);
                assert(false);
            }
            let f1 = f0.push(cands.last());
            assert forall|p: int, q: int| 0 <= p < q < f1.len() implies f1[p] != f1[q] by {
                if q < f0.len() {
                    assert(f1[p] == f0[p] && f1[q] == f0[q]);
                } else {
                    assert(f1[q] == cands.last());
                    assert(f1[p] == f0[p]);
                    if f0[p] == cands.last() {
                        assert(f0.contains(cands.last()));
                    }
                }
            }
        }
    }
}

/// Keeps exactly the candidates whose feedback against `guess` equals the
/// observed feedback.
pub fn apply_feedback(
    cfg: &Config,
    candidates: Vec<Vec<i8>>,
    guess: &Vec<i8>,
    actual_feedback: &(i8, i8),
) -> (r: Vec<Vec<i8>>)
    requires
        cfg.wf(),
        pegs_wf(*cfg, guess@),
        all_pegs_wf(*cfg, views_of(candidates@)),
    ensures
        views_of(r@) == spec_filter(
            *cfg,
            views_of(candidates@),
            guess@,
            actual_feedback.0 as int,
            actual_feedback.1 as int,
        ),
        all_pegs_wf(*cfg, views_of(r@)),
        r@.len() <= candidates@.len(),
{
    let ghost cviews = views_of(candidates@);
    let ghost ex = actual_feedback.0 as int;
    let ghost vo = actual_feedback.1 as int;
    let mut r: Vec<Vec<i8>> = Vec::new();
    proof {
        assert(cviews.take(0) =~= Seq::<Seq<i8>>::empty());
        assert(views_of(r@) =~= Seq::<Seq<i8>>::empty());
    }
    let mut i: usize = 0;
    while i < candidates.len()
        invariant
            cfg.wf(),
            pegs_wf(*cfg, guess@),
            all_pegs_wf(*cfg, cviews),
            cviews == views_of(candidates@),
            ex == actual_feedback.0 as int,
            vo == actual_feedback.1 as int,
            i <= candidates@.len(),
            cviews.len() == candidates@.len(),
            views_of(r@) == spec_filter(*cfg, cviews.take(i as int), guess@, ex, vo),
            r@.len() <= i,
        decreases candidates@.len() - i,
    {
        proof {
            assert(cviews[i as int] == candidates@[i as int]@);
            assert(pegs_wf(*cfg, cviews[i as int]));
        }
        let f = check_pegs(cfg, &candidates[i], guess);
        proof {
            assert(cviews.take(i + 1) =~= cviews.take(i as int).push(cviews[i as int]));
            lemma_filter_push(*cfg, cviews.take(i as int), guess@, cviews[i as int], ex, vo);
            lemma_filter_subset(*cfg, cviews.take(i as int), guess@, ex, vo);
        }
        if f.0 == actual_feedback.0 && f.1 == actual_feedback.1 {
            let c = copy_pegs(&candidates[i]);
            proof {
                assert(views_of(r@.push(c)) =~= views_of(r@).push(c@));
            }
            r.push(c);
        }
        i = i + 1;
    }
    proof {
        assert(cviews.take(candidates@.len() as int) =~= cviews);
        assert forall|j: int| 0 <= j < views_of(r@).len() implies pegs_wf(
            *cfg,
            #[trigger] views_of(r@)[j],
        ) by {
            assert(views_of(r@).contains(views_of(r@)[j]));
            lemma_filter_element(*cfg, cviews, guess@, ex, vo, views_of(r@)[j]);
            let k = choose|k: int| 0 <= k < cviews.len() && cviews[k] == views_of(r@)[j];
        }
        assert(views_of(r@).len() == r@.len());
    }
    r
}

} // verus!
