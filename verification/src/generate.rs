//! The candidate space generator: enumerating every well-formed peg sequence.
//!
//! Sequences are built breadth-first, one position at a time: from every
//! prefix of length `k` and every value in range, a prefix of length `k + 1`.
//! In distinct mode a value already used by the prefix is skipped. The result
//! holds every well-formed sequence exactly once, in a deterministic order.

use vstd::prelude::*;
use vstd::arithmetic::power::pow;

use crate::domain::Config;
use crate::domain::no_repeats;
use crate::domain::peg_in_range;
use crate::domain::pegs_wf;
use crate::domain::copy_pegs;
use crate::domain::views_of;

verus! {

/// A partially built candidate: `len` positions so far, every value in range,
/// and no value twice when distinct mode is on.
pub open spec fn valid_prefix(cfg: Config, distinct: bool, s: Seq<i8>, len: int) -> bool {
    &&& s.len() == len
    &&& (forall|i: int| 0 <= i < s.len() ==> peg_in_range(cfg, #[trigger] s[i]))
    &&& (distinct ==> no_repeats(s))
}

/// What the next layer holds while prefix `i` is being extended and values
/// below `v` have been tried: every extension of an earlier prefix, and the
/// extensions of prefix `i` by values below `v`.
spec fn next_shape(
    cfg: Config,
    distinct: bool,
    cviews: Seq<Seq<i8>>,
    len: int,
    i: int,
    v: int,
    t: Seq<i8>,
) -> bool {
    &&& valid_prefix(cfg, distinct, t, len + 1)
    &&& (cviews.take(i).contains(t.drop_last()) || (t.drop_last() == cviews[i] && (t.last() as int)
        < v))
}

/// The falling factorial: `v * (v - 1) * ... * (v - k + 1)`.
pub open spec fn falling_product(v: int, k: int) -> int
    decreases k,
{
    if k <= 0 {
        1
    } else {
        falling_product(v, k - 1) * (v - (k - 1))
    }
}

/// How many values of `[lo, hi)` the sequence does not hold.
spec fn free_count(p: Seq<i8>, lo: int, hi: int) -> int
    decreases hi - lo,
{
    if lo >= hi {
        0
    } else {
        free_count(p, lo, hi - 1) + if p.contains((hi - 1) as i8) {
            0int
        } else {
            1int
        }
    }
}

/// In a repeat-free sequence a value occurs once or not at all.
proof fn lemma_count_val_of_distinct(p: Seq<i8>, v: i8)
    requires
        no_repeats(p),
    ensures
        crate::score::count_val(p, v as int) == if p.contains(v) {
            1int
        } else {
            0int
        },
    decreases p.len(),
{
    if p.len() == 0 {
        if p.contains(v) {
            let k = choose|k: int| 0 <= k < p.len() && p[k] == v;
        }
    } else {
        let p0 = p.drop_last();
        let x = p.last();
        assert(p =~= p0.push(x));
        lemma_no_repeats_push(p0, x);
        lemma_count_val_of_distinct(p0, v);
        if x == v {
            assert(p[p.len() - 1] == v);
            assert(p.contains(v));
        } else {
            if p.contains(v) {
                let k = choose|k: int| 0 <= k < p.len() && p[k] == v;
                assert(p0[k] == v);
                assert(p0.contains(v));
            }
            if p0.contains(v) {
                let k = choose|k: int| 0 <= k < p0.len() && p0[k] == v;
                assert(p[k] == v);
                assert(p.contains(v));
            }
        }
    }
}

/// Over a repeat-free sequence, the free values of a range are the range's
/// size less the number of its values that the sequence holds.
proof fn lemma_free_count_distinct(p: Seq<i8>, lo: int, hi: int)
    requires
        no_repeats(p),
        0 <= lo <= hi <= 128,
    ensures
        free_count(p, lo, hi) == (hi - lo) - crate::score::count_sum(p, lo, hi),
    decreases hi - lo,
{
    if lo < hi {
        lemma_free_count_distinct(p, lo, hi - 1);
        lemma_count_val_of_distinct(p, (hi - 1) as i8);
        assert(((hi - 1) as i8) as int == hi - 1);
    }
}

/// Appending a value keeps a sequence repeat-free exactly when the value is
/// new to it.
proof fn lemma_no_repeats_push(p: Seq<i8>, v: i8)
    ensures
        no_repeats(p.push(v)) <==> (no_repeats(p) && !p.contains(v)),
{
    let q = p.push(v);
    if no_repeats(p) && !p.contains(v) {
        assert forall|i: int, j: int| 0 <= i < j < q.len() implies q[i] != q[j] by {
            if j == q.len() - 1 {
                assert(q[j] == v);
                assert(q[i] == p[i]);
                if p[i] == v {
                    assert(p.contains(v));
                }
            } else {
                assert(q[i] == p[i] && q[j] == p[j]);
            }
        }
    }
    if no_repeats(q) {
        assert forall|i: int, j: int| 0 <= i < j < p.len() implies p[i] != p[j] by {
            assert(q[i] == p[i] && q[j] == p[j]);
        }
        if p.contains(v) {
            let i = choose|i: int| 0 <= i < p.len() && p[i] == v;
            assert(q[i] == v);
            assert(q[q.len() - 1] == v);
        }
    }
}

/// Shortening a valid prefix by one position leaves a valid prefix.
proof fn lemma_valid_prefix_drop(cfg: Config, distinct: bool, t: Seq<i8>, len: int)
    requires
        valid_prefix(cfg, distinct, t, len),
        len >= 1,
    ensures
        valid_prefix(cfg, distinct, t.drop_last(), len - 1),
{
    let t0 = t.drop_last();
    assert forall|k: int| 0 <= k < t0.len() implies peg_in_range(cfg, #[trigger] t0[k]) by {
        assert(t0[k] == t[k]);
    }
    if distinct {
        assert forall|i: int, j: int| 0 <= i < j < t0.len() implies t0[i] != t0[j] by {
            assert(t0[i] == t[i] && t0[j] == t[j]);
        }
    }
}

proof fn lemma_gen_push(
    cfg: Config,
    distinct: bool,
    cviews: Seq<Seq<i8>>,
    len: int,
    i: int,
    v: i8,
    next: Seq<Seq<i8>>,
    p: Seq<i8>,
)
    requires
        len >= 0,
        cviews.no_duplicates(),
        0 <= i < cviews.len(),
        p == cviews[i],
        valid_prefix(cfg, distinct, p, len),
        peg_in_range(cfg, v),
        distinct ==> !p.contains(v),
        forall|t: Seq<i8>| #![trigger next.contains(t)]
            next.contains(t) <==> next_shape(cfg, distinct, cviews, len, i, v as int, t),
        next.no_duplicates(),
    ensures
        forall|t: Seq<i8>| #![trigger next.push(p.push(v)).contains(t)]
            next.push(p.push(v)).contains(t) <==> next_shape(
                cfg,
                distinct,
                cviews,
                len,
                i,
                v as int + 1,
                t,
            ),
        next.push(p.push(v)).no_duplicates(),
{
    let s = p.push(v);
    assert(s.drop_last() =~= p);
    assert(s.last() == v);
    lemma_no_repeats_push(p, v);
    assert(valid_prefix(cfg, distinct, s, len + 1)) by {
        assert forall|k: int| 0 <= k < s.len() implies peg_in_range(cfg, #[trigger] s[k]) by {
            if k < p.len() {
                assert(s[k] == p[k]);
            } else {
                assert(s[k] == v);
            }
        }
    }
    assert(!next.contains(s)) by {
        if next.contains(s) {
            if cviews.take(i).contains(p) {
                let j = choose|j: int| 0 <= j < i && cviews.take(i)[j] == p;
                assert(cviews[j] == p);
                assert(cviews[j] == cviews[i]);
            }
        }
    }
    let next2 = next.push(s);
    assert forall|a: int, b: int| 0 <= a < b < next2.len() implies next2[a] != next2[b] by {
        if b < next.len() {
            assert(next2[a] == next[a] && next2[b] == next[b]);
        } else {
            assert(next2[b] == s && next2[a] == next[a]);
            if next[a] == s {
                assert(next.contains(s));
            }
        }
    }
    assert forall|t: Seq<i8>| next2.contains(t) implies next_shape(
        cfg,
        distinct,
        cviews,
        len,
        i,
        v as int + 1,
        t,
    ) by {
        let k = choose|k: int| 0 <= k < next2.len() && next2[k] == t;
        if k < next.len() {
            assert(next[k] == t);
            assert(next.contains(t));
        } else {
            assert(t == s);
        }
    }
    assert forall|t: Seq<i8>| next_shape(cfg, distinct, cviews, len, i, v as int + 1, t) implies
        next2.contains(t) by {
        if next_shape(cfg, distinct, cviews, len, i, v as int, t) {
            assert(next.contains(t));
            let k = choose|k: int| 0 <= k < next.len() && next[k] == t;
            assert(next2[k] == t);
        } else {
            assert(t.drop_last() == p && t.last() as int == v as int);
            assert(t.last() == v);
            assert(t =~= t.drop_last().push(t.last()));
            assert(t == s);
            assert(next2[next.len() as int] == t);
        }
    }
}

proof fn lemma_gen_skip(
    cfg: Config,
    distinct: bool,
    cviews: Seq<Seq<i8>>,
    len: int,
    i: int,
    v: i8,
    next: Seq<Seq<i8>>,
    p: Seq<i8>,
)
    requires
        len >= 0,
        0 <= i < cviews.len(),
        p == cviews[i],
        distinct,
        p.contains(v),
        forall|t: Seq<i8>| #![trigger next.contains(t)]
            next.contains(t) <==> next_shape(cfg, distinct, cviews, len, i, v as int, t),
    ensures
        forall|t: Seq<i8>| #![trigger next.contains(t)]
            next.contains(t) <==> next_shape(cfg, distinct, cviews, len, i, v as int + 1, t),
{
    assert forall|t: Seq<i8>| #![trigger next.contains(t)]
        next.contains(t) <==> next_shape(cfg, distinct, cviews, len, i, v as int + 1, t) by {
        if next_shape(cfg, distinct, cviews, len, i, v as int + 1, t) && !next_shape(
            cfg,
            distinct,
            cviews,
            len,
            i,
            v as int,
            t,
        ) {
            assert(t.drop_last() == p && t.last() as int == v as int);
            assert(t.last() == v);
            assert(t =~= t.drop_last().push(t.last()));
            lemma_no_repeats_push(p, v);
            assert(no_repeats(t));
            assert(false);
        }
    }
}

proof fn lemma_gen_advance(
    cfg: Config,
    distinct: bool,
    cviews: Seq<Seq<i8>>,
    len: int,
    i: int,
    next: Seq<Seq<i8>>,
)
    requires
        len >= 0,
        0 <= i < cviews.len(),
        forall|t: Seq<i8>| #![trigger next.contains(t)]
            next.contains(t) <==> next_shape(
                cfg,
                distinct,
                cviews,
                len,
                i,
                cfg.max_value as int + 1,
                t,
            ),
    ensures
        forall|t: Seq<i8>| #![trigger next.contains(t)]
            next.contains(t) <==> next_shape(
                cfg,
                distinct,
                cviews,
                len,
                i + 1,
                cfg.min_value as int,
                t,
            ),
{
    assert forall|t: Seq<i8>| #![trigger t.drop_last()]
        next_shape(cfg, distinct, cviews, len, i, cfg.max_value as int + 1, t) <==> next_shape(
            cfg,
            distinct,
            cviews,
            len,
            i + 1,
            cfg.min_value as int,
            t,
        ) by {
        if valid_prefix(cfg, distinct, t, len + 1) {
            assert(t.last() == t[t.len() - 1]);
            assert(peg_in_range(cfg, t.last()));
            if cviews.take(i).contains(t.drop_last()) {
                let k = choose|k: int| 0 <= k < i && cviews.take(i)[k] == t.drop_last();
                assert(cviews.take(i + 1)[k] == t.drop_last());
                assert(cviews.take(i + 1).contains(t.drop_last()));
            }
            if t.drop_last() == cviews[i] {
                assert(cviews.take(i + 1)[i] == cviews[i]);
                assert(cviews.take(i + 1).contains(t.drop_last()));
            }
            let c1 = cviews.take(i + 1);
            if c1.contains(t.drop_last()) {
                let k = choose|k: int| 0 <= k < c1.len() && c1[k] == t.drop_last();
                if k < i {
                    assert(cviews.take(i)[k] == t.drop_last());
                    assert(cviews.take(i).contains(t.drop_last()));
                } else {
                    assert(t.drop_last() == cviews[i]);
                }
            }
        }
    }
}

proof fn lemma_gen_finish(
    cfg: Config,
    distinct: bool,
    cviews: Seq<Seq<i8>>,
    len: int,
    next: Seq<Seq<i8>>,
)
    requires
        len >= 0,
        forall|s: Seq<i8>| #![trigger cviews.contains(s)]
            cviews.contains(s) <==> valid_prefix(cfg, distinct, s, len),
        forall|t: Seq<i8>| #![trigger next.contains(t)]
            next.contains(t) <==> next_shape(
                cfg,
                distinct,
                cviews,
                len,
                cviews.len() as int,
                cfg.min_value as int,
                t,
            ),
    ensures
        forall|t: Seq<i8>| #![trigger next.contains(t)]
            next.contains(t) <==> valid_prefix(cfg, distinct, t, len + 1),
{
    assert forall|t: Seq<i8>| #![trigger t.drop_last()]
        next_shape(cfg, distinct, cviews, len, cviews.len() as int, cfg.min_value as int, t)
            <==> valid_prefix(cfg, distinct, t, len + 1) by {
        if valid_prefix(cfg, distinct, t, len + 1) {
            assert(t.last() == t[t.len() - 1]);
            assert(peg_in_range(cfg, t.last()));
            lemma_valid_prefix_drop(cfg, distinct, t, len + 1);
            assert(cviews.contains(t.drop_last()));
            assert(cviews.take(cviews.len() as int) =~= cviews);
        }
    }
}

/// Reports whether the sequence holds the value anywhere.
fn contains_value(p: &Vec<i8>, v: i8) -> (b: bool)
    ensures
        b == p@.contains(v),
{
    let mut i: usize = 0;
    while i < p.len()
        invariant
            i <= p@.len(),
            forall|j: int| 0 <= j < i ==> p@[j] != v,
        decreases p@.len() - i,
    {
        if p[i] == v {
            proof {
                assert(p@[i as int] == v);
            }
            return true;
        }
        i = i + 1;
    }
    false
}

/// Enumerates every well-formed peg sequence for the configuration, each
/// exactly once: the full Cartesian product, or, in distinct mode, only the
/// sequences in which no value repeats.
pub fn generate_all_peg_combinations(cfg: &Config, distinct: bool) -> (r: Vec<Vec<i8>>)
    requires
        cfg.wf(),
        distinct ==> cfg.num_values() >= cfg.num_pegs,
    ensures
        forall|s: Seq<i8>| #![trigger views_of(r@).contains(s)]
            views_of(r@).contains(s) <==> (pegs_wf(*cfg, s) && (distinct ==> no_repeats(s))),
        views_of(r@).no_duplicates(),
        r@.len() >= 1,
        !distinct ==> r@.len() as int == pow(cfg.num_values(), cfg.num_pegs as nat),
        distinct ==> r@.len() as int == falling_product(cfg.num_values(), cfg.num_pegs as int),
{
    let mut combos: Vec<Vec<i8>> = Vec::new();
    combos.push(Vec::new());
    proof {
        let cv = views_of(combos@);
        assert(cv[0] == combos@[0]@);
        assert(cv[0] =~= Seq::<i8>::empty());
        assert forall|s: Seq<i8>| #![trigger cv.contains(s)]
            cv.contains(s) <==> valid_prefix(*cfg, distinct, s, 0) by {
            if cv.contains(s) {
                let k = choose|k: int| 0 <= k < cv.len() && cv[k] == s;
                assert(s == cv[0]);
            }
            if valid_prefix(*cfg, distinct, s, 0) {
                assert(s =~= Seq::<i8>::empty());
                assert(cv[0] == s);
            }
        }
        assert(cv.no_duplicates());
        vstd::arithmetic::power::lemma_pow0(cfg.num_values());
    }
    let mut len: usize = 0;
    while len < cfg.num_pegs
        invariant
            cfg.wf(),
            distinct ==> cfg.num_values() >= cfg.num_pegs,
            len <= cfg.num_pegs,
            views_of(combos@).no_duplicates(),
            forall|s: Seq<i8>| #![trigger views_of(combos@).contains(s)]
                views_of(combos@).contains(s) <==> valid_prefix(*cfg, distinct, s, len as int),
            !distinct ==> combos@.len() as int == pow(cfg.num_values(), len as nat),
            distinct ==> combos@.len() as int == falling_product(cfg.num_values(), len as int),
        decreases cfg.num_pegs - len,
    {
        let ghost cviews = views_of(combos@);
        let mut next: Vec<Vec<i8>> = Vec::new();
        proof {
            assert(views_of(next@) =~= Seq::<Seq<i8>>::empty());
            assert forall|t: Seq<i8>| #![trigger views_of(next@).contains(t)]
                views_of(next@).contains(t) <==> next_shape(
                    *cfg,
                    distinct,
                    cviews,
                    len as int,
                    0,
                    cfg.min_value as int,
                    t,
                ) by {
                if next_shape(*cfg, distinct, cviews, len as int, 0, cfg.min_value as int, t) {
                    assert(t.last() == t[t.len() - 1]);
                    assert(peg_in_range(*cfg, t.last()));
                    assert(cviews.take(0).len() == 0);
                    if cviews.take(0).contains(t.drop_last()) {
                        let k = choose|k: int|
                            0 <= k < cviews.take(0).len() && cviews.take(0)[k] == t.drop_last();
                        assert(false);
                    }
                }
            }
            assert(views_of(next@).no_duplicates());
        }
        let mut i: usize = 0;
        while i < combos.len()
            invariant
                cfg.wf(),
                cviews == views_of(combos@),
                cviews.no_duplicates(),
                forall|s: Seq<i8>| #![trigger cviews.contains(s)]
                    cviews.contains(s) <==> valid_prefix(*cfg, distinct, s, len as int),
                i <= combos@.len(),
                cviews.len() == combos@.len(),
                views_of(next@).no_duplicates(),
                forall|t: Seq<i8>| #![trigger views_of(next@).contains(t)]
                    views_of(next@).contains(t) <==> next_shape(
                        *cfg,
                        distinct,
                        cviews,
                        len as int,
                        i as int,
                        cfg.min_value as int,
                        t,
                    ),
                !distinct ==> next@.len() as int == (i as int) * cfg.num_values(),
                distinct ==> next@.len() as int == (i as int) * (cfg.num_values()
                    - len as int),
            decreases combos@.len() - i,
        {
            proof {
                assert(cviews[i as int] == combos@[i as int]@);
                assert(cviews.contains(cviews[i as int]));
                assert(valid_prefix(*cfg, distinct, cviews[i as int], len as int));
            }
            let mut vi: usize = cfg.min_value as usize;
            while vi <= cfg.max_value as usize
                invariant
                    cfg.wf(),
                    cviews == views_of(combos@),
                    cviews.no_duplicates(),
                    i < combos@.len(),
                    cviews.len() == combos@.len(),
                    cviews[i as int] == combos@[i as int]@,
                    valid_prefix(*cfg, distinct, cviews[i as int], len as int),
                    cfg.min_value as int <= vi as int <= cfg.max_value as int + 1,
                    views_of(next@).no_duplicates(),
                    forall|t: Seq<i8>| #![trigger views_of(next@).contains(t)]
                        views_of(next@).contains(t) <==> next_shape(
                            *cfg,
                            distinct,
                            cviews,
                            len as int,
                            i as int,
                            vi as int,
                            t,
                        ),
                    !distinct ==> next@.len() as int == (i as int) * cfg.num_values() + (
                    vi as int - cfg.min_value as int),
                    distinct ==> next@.len() as int == (i as int) * (cfg.num_values()
                        - len as int) + free_count(
                        cviews[i as int],
                        cfg.min_value as int,
                        vi as int,
                    ),
                decreases cfg.max_value as int + 1 - vi as int,
            {
                let v = vi as i8;
                proof {
                    assert(v as int == vi as int);
                    assert(peg_in_range(*cfg, v));
                }
                let skip = if distinct {
                    contains_value(&combos[i], v)
                } else {
                    false
                };
                if !skip {
                    let mut c = copy_pegs(&combos[i]);
                    c.push(v);
                    proof {
                        assert(c@ == cviews[i as int].push(v));
                        lemma_gen_push(
                            *cfg,
                            distinct,
                            cviews,
                            len as int,
                            i as int,
                            v,
                            views_of(next@),
                            cviews[i as int],
                        );
                        assert(views_of(next@.push(c)) =~= views_of(next@).push(c@));
                        if distinct {
                            assert((((vi + 1) - 1) as i8) == v);
                            assert(free_count(
                                cviews[i as int],
                                cfg.min_value as int,
                                vi as int + 1,
                            ) == free_count(cviews[i as int], cfg.min_value as int, vi as int)
                                + 1);
                        }
                    }
                    next.push(c);
                } else {
                    proof {
                        lemma_gen_skip(
                            *cfg,
                            distinct,
                            cviews,
                            len as int,
                            i as int,
                            v,
                            views_of(next@),
                            cviews[i as int],
                        );
                        assert((((vi + 1) - 1) as i8) == v);
                        assert(free_count(
                            cviews[i as int],
                            cfg.min_value as int,
                            vi as int + 1,
                        ) == free_count(cviews[i as int], cfg.min_value as int, vi as int));
                    }
                }
                vi = vi + 1;
            }
            proof {
                lemma_gen_advance(*cfg, distinct, cviews, len as int, i as int, views_of(next@));
                let p = cviews[i as int];
                let lo = cfg.min_value as int;
                let hi = cfg.max_value as int + 1;
                let vnum = cfg.num_values();
                if distinct {
                    lemma_free_count_distinct(p, lo, hi);
                    assert(forall|k: int| 0 <= k < p.len() ==> lo <= #[trigger] p[k] < hi) by {
                        assert(forall|k: int|
                            0 <= k < p.len() ==> peg_in_range(*cfg, #[trigger] p[k]));
                    }
                    crate::score::lemma_count_sum_le_len(p, lo, hi);
                    assert(free_count(p, lo, hi) == vnum - len as int);
                    assert((i as int + 1) * (vnum - len as int) == (i as int) * (vnum
                        - len as int) + (vnum - len as int)) by (nonlinear_arith);
                } else {
                    assert((i as int + 1) * vnum == (i as int) * vnum + vnum)
                        by (nonlinear_arith);
                }
            }
            i = i + 1;
        }
        proof {
            lemma_gen_finish(*cfg, distinct, cviews, len as int, views_of(next@));
            let vnum = cfg.num_values();
            if distinct {
                assert(falling_product(vnum, len as int + 1) == falling_product(
                    vnum,
                    len as int,
                ) * (vnum - len as int));
            } else {
                vstd::arithmetic::power::lemma_pow1(vnum);
                vstd::arithmetic::power::lemma_pow_adds(vnum, 1nat, len as nat);
                assert(pow(vnum, (len + 1) as nat) == vnum * pow(vnum, len as nat));
                assert((combos@.len() as int) * vnum == vnum * (combos@.len() as int))
                    by (nonlinear_arith);
            }
        }
        combos = next;
        len = len + 1;
    }
    proof {
        let w = if distinct {
            Seq::new(cfg.num_pegs as nat, |i: int| (cfg.min_value + i) as i8)
        } else {
            Seq::new(cfg.num_pegs as nat, |i: int| cfg.min_value)
        };
        assert forall|i: int| 0 <= i < w.len() implies peg_in_range(*cfg, #[trigger] w[i]) by {
            if distinct {
                assert(cfg.min_value + i <= cfg.max_value);
            }
        }
        if distinct {
            assert forall|i: int, j: int| 0 <= i < j < w.len() implies w[i] != w[j] by {
                assert(w[i] as int == cfg.min_value + i);
                assert(w[j] as int == cfg.min_value + j);
            }
        }
        assert(views_of(combos@).contains(w));
        let k = choose|k: int| 0 <= k < views_of(combos@).len() && views_of(combos@)[k] == w;
        assert(views_of(combos@).len() == combos@.len());
    }
    combos
}

/// A fixed puzzle for self-play under the standard configuration.
pub fn generate_puzzle() -> (r: Vec<i8>)
    ensures
        r@ == seq![6i8, 6i8, 5i8, 4i8],
        pegs_wf(Config { num_pegs: 4, min_value: 1, max_value: 6 }, r@),
{
    let mut r: Vec<i8> = Vec::new();
    r.push(6);
    r.push(6);
    r.push(5);
    r.push(4);
    proof {
        assert(r@ =~= seq![6i8, 6i8, 5i8, 4i8]);
        let cfg = Config { num_pegs: 4, min_value: 1, max_value: 6 };
        assert forall|i: int| 0 <= i < r@.len() implies peg_in_range(cfg, #[trigger] r@[i]) by {
        }
    }
    r
}

} // verus!
