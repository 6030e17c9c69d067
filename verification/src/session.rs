//! The solve loop: a state machine over a shrinking candidate set.
//!
//! A session starts `Searching` with every well-formed sequence as a
//! candidate. Each round the selector proposes a guess, an oracle answers
//! with feedback, and the session either finishes (`Solved` on an all-exact
//! answer, `Exhausted` when the round budget runs out, `Contradiction` when
//! no candidate is consistent with the answers) or keeps searching on the
//! filtered candidate set. The oracle is external: an interactive caller
//! drives `propose` and `advance` itself, while `solve_known` plays a whole
//! session against a known secret and is verified never to reach a
//! contradiction.

use vstd::prelude::*;

use crate::domain::Config;
use crate::domain::all_pegs_wf;
use crate::domain::copy_pegs;
use crate::domain::no_repeats;
use crate::domain::pegs_wf;
use crate::domain::views_of;
use crate::filter::apply_feedback;
use crate::filter::lemma_filter_no_duplicates;
use crate::filter::lemma_filter_retains_secret;
use crate::filter::spec_filter;
use crate::generate::generate_all_peg_combinations;
use crate::score::check_pegs;
use crate::score::lemma_score_bounds;
use crate::score::spec_score;
use crate::select::minimax_choice;
use crate::select::pick_guess;

verus! {

/// Where a solving session stands.
#[derive(Clone, Copy, PartialEq, Eq, Structural, Debug)]
pub enum SolveStatus {
    /// Candidates remain and rounds are left.
    Searching,
    /// A guess came back all-exact: the secret is found.
    Solved,
    /// The round budget ran out before the secret was found.
    Exhausted,
    /// No candidate is consistent with the feedback received: the oracle
    /// contradicted itself.
    Contradiction,
}

/// Feedback that reports every peg exact: the winning answer.
pub open spec fn is_winning(cfg: Config, f: (i8, i8)) -> bool {
    f.0 as int == cfg.num_pegs as int && f.1 as int == 0
}

/// One solving attempt: the candidates still in play, the rounds played so
/// far with their feedback, and the state reached.
pub struct SolveSession {
    pub config: Config,
    pub candidates: Vec<Vec<i8>>,
    pub round: usize,
    pub max_rounds: usize,
    pub history: Vec<(Vec<i8>, (i8, i8))>,
    pub status: SolveStatus,
}

impl SolveSession {
    /// The session invariant: a usable configuration, well-formed and
    /// mutually distinct candidates, and a round count within budget.
    pub open spec fn wf(self) -> bool {
        &&& self.config.wf()
        &&& all_pegs_wf(self.config, views_of(self.candidates@))
        &&& views_of(self.candidates@).no_duplicates()
        &&& self.round <= self.max_rounds
        &&& (self.status is Searching ==> self.round < self.max_rounds)
        &&& self.history@.len() == self.round
    }

    /// Opens a session over the full candidate space.
    pub fn new(cfg: &Config, distinct: bool, max_rounds: usize) -> (s: SolveSession)
        requires
            cfg.wf(),
            distinct ==> cfg.num_values() >= cfg.num_pegs,
            max_rounds >= 1,
        ensures
            s.wf(),
            s.config == *cfg,
            s.round == 0,
            s.max_rounds == max_rounds,
            s.status is Searching,
            s.history@.len() == 0,
            s.candidates@.len() >= 1,
            forall|c: Seq<i8>| #![trigger views_of(s.candidates@).contains(c)]
                views_of(s.candidates@).contains(c) <==> (pegs_wf(*cfg, c) && (distinct
                    ==> no_repeats(c))),
    {
        let candidates = generate_all_peg_combinations(cfg, distinct);
        proof {
            let cv = views_of(candidates@);
            assert forall|j: int| 0 <= j < cv.len() implies pegs_wf(*cfg, #[trigger] cv[j]) by {
                assert(cv.contains(cv[j]));
            }
        }
        SolveSession {
            config: *cfg,
            candidates,
            round: 0,
            max_rounds,
            history: Vec::new(),
            status: SolveStatus::Searching,
        }
    }

    /// Proposes the minimax guess, or reports that no candidate is left.
    pub fn propose(&self) -> (g: Option<Vec<i8>>)
        requires
            self.wf(),
            self.status is Searching,
        ensures
            g is Some <==> self.candidates@.len() >= 1,
            match g {
                Some(gv) => {
                    &&& views_of(self.candidates@).contains(gv@)
                    &&& pegs_wf(self.config, gv@)
                    &&& minimax_choice(self.config, views_of(self.candidates@), gv@)
                },
                None => self.candidates@.len() == 0,
            },
    {
        if self.candidates.len() == 0 {
            None
        } else {
            Some(pick_guess(&self.config, &self.candidates))
        }
    }

    /// Records that no candidate was left when a guess was due: the feedback
    /// received so far is contradictory, and the session ends.
    pub fn note_contradiction(self) -> (s: SolveSession)
        requires
            self.wf(),
            self.status is Searching,
            self.candidates@.len() == 0,
        ensures
            s.wf(),
            s.status is Contradiction,
            s.config == self.config,
            s.round == self.round,
            s.history@ == self.history@,
            s.candidates@ == self.candidates@,
    {
        let mut s = self;
        s.status = SolveStatus::Contradiction;
        s
    }

    /// Plays one round: records the guess and its feedback, finishes on a
    /// winning answer, otherwise filters the candidates and either searches
    /// on, runs out of rounds, or detects a contradiction.
    pub fn advance(self, guess: &Vec<i8>, feedback: (i8, i8)) -> (s: SolveSession)
        requires
            self.wf(),
            self.status is Searching,
            pegs_wf(self.config, guess@),
        ensures
            s.wf(),
            s.config == self.config,
            s.max_rounds == self.max_rounds,
            s.round == self.round + 1,
            s.history@.len() == self.history@.len() + 1,
            forall|k: int| 0 <= k < self.history@.len() ==> s.history@[k] == self.history@[k],
            s.history@[s.history@.len() - 1].0@ == guess@,
            s.history@[s.history@.len() - 1].1 == feedback,
            is_winning(self.config, feedback) ==> s.status is Solved && s.candidates@
                == self.candidates@,
            !is_winning(self.config, feedback) ==> {
                &&& views_of(s.candidates@) == spec_filter(
                    self.config,
                    views_of(self.candidates@),
                    guess@,
                    feedback.0 as int,
                    feedback.1 as int,
                )
                &&& (s.status is Contradiction <==> s.candidates@.len() == 0)
                &&& (s.status is Searching <==> s.candidates@.len() > 0 && s.round
                    < s.max_rounds)
                &&& (s.status is Exhausted <==> s.candidates@.len() > 0 && s.round
                    == s.max_rounds)
            },
    {
        let config = self.config;
        let max_rounds = self.max_rounds;
        let round = self.round + 1;
        let mut history = self.history;
        history.push((copy_pegs(guess), feedback));
        let winning = feedback.1 == 0 && feedback.0 >= 0 && (feedback.0 as usize)
            == config.num_pegs;
        if winning {
            SolveSession {
                config,
                candidates: self.candidates,
                round,
                max_rounds,
                history,
                status: SolveStatus::Solved,
            }
        } else {
            proof {
                lemma_filter_no_duplicates(
                    config,
                    views_of(self.candidates@),
                    guess@,
                    feedback.0 as int,
                    feedback.1 as int,
                );
            }
            let next = apply_feedback(&config, self.candidates, guess, &feedback);
            let status = if next.len() == 0 {
                SolveStatus::Contradiction
            } else if round < max_rounds {
                SolveStatus::Searching
            } else {
                SolveStatus::Exhausted
            };
            proof {
                assert(views_of(next@).len() == next@.len());
            }
            SolveSession { config, candidates: next, round, max_rounds, history, status }
        }
    }
}

/// One played round of a fixed-secret session: the guess is the selector's
/// choice from the candidate set, the feedback is the true score of the guess
/// against the secret, and the next set keeps the consistent candidates — or,
/// on the winning answer, stands unchanged, the session being over.
pub open spec fn played_round(
    cfg: Config,
    secret: Seq<i8>,
    cands: Seq<Seq<i8>>,
    g: Seq<i8>,
    f: (i8, i8),
    next: Seq<Seq<i8>>,
) -> bool {
    &&& minimax_choice(cfg, cands, g)
    &&& (f.0 as int, f.1 as int) == spec_score(cfg, secret, g)
    &&& next == (if is_winning(cfg, f) {
        cands
    } else {
        spec_filter(cfg, cands, g, f.0 as int, f.1 as int)
    })
}

/// The full trace of a fixed-secret session: candidate set `k` is what rounds
/// `0..k` left, starting from the whole generated domain; every recorded
/// round was played as `played_round` says; and only the last feedback may be
/// the winning one.
pub open spec fn solve_trace(
    cfg: Config,
    distinct: bool,
    secret: Seq<i8>,
    history: Seq<(Vec<i8>, (i8, i8))>,
    sets: Seq<Seq<Seq<i8>>>,
) -> bool {
    &&& sets.len() == history.len() + 1
    &&& sets[0].no_duplicates()
    &&& (forall|c: Seq<i8>| #![trigger sets[0].contains(c)]
        sets[0].contains(c) <==> (pegs_wf(cfg, c) && (distinct ==> no_repeats(c))))
    &&& (forall|k: int|
        0 <= k < history.len() ==> played_round(
            cfg,
            secret,
            #[trigger] sets[k],
            history[k].0@,
            history[k].1,
            sets[k + 1],
        ))
    &&& (forall|k: int|
        0 <= k < history.len() - 1 ==> !is_winning(cfg, (#[trigger] history[k]).1))
}

/// Plays a whole session against a known secret, answering every guess by
/// scoring it against that secret. The result is the trace of the minimax
/// strategy itself: some witness sequence of candidate sets, starting at the
/// full generated domain, records every round actually played. With this
/// truthful oracle the secret is never filtered out, so the session ends
/// `Solved` — exactly when the last feedback is the winning one, and then
/// with the secret as the final guess — or `Exhausted`, only once the whole
/// round budget is spent; never in a contradiction.
pub fn solve_known(cfg: &Config, secret: &Vec<i8>, distinct: bool, max_rounds: usize) -> (s:
    SolveSession)
    requires
        cfg.wf(),
        pegs_wf(*cfg, secret@),
        distinct ==> cfg.num_values() >= cfg.num_pegs && no_repeats(secret@),
        max_rounds >= 1,
    ensures
        s.wf(),
        s.config == *cfg,
        s.max_rounds == max_rounds,
        !(s.status is Searching),
        !(s.status is Contradiction),
        s.round <= max_rounds,
        s.history@.len() == s.round,
        exists|sets: Seq<Seq<Seq<i8>>>| solve_trace(*cfg, distinct, secret@, s.history@, sets),
        s.status is Solved <==> s.round >= 1 && is_winning(
            *cfg,
            s.history@[s.history@.len() - 1].1,
        ),
        s.status is Solved ==> s.history@[s.history@.len() - 1].0@ == secret@,
        s.status is Exhausted ==> s.round == max_rounds,
{
    let mut session = SolveSession::new(cfg, distinct, max_rounds);
    let ghost mut sets: Seq<Seq<Seq<i8>>> = seq![views_of(session.candidates@)];
    proof {
        assert(views_of(session.candidates@).contains(secret@));
        assert(sets[0] == views_of(session.candidates@));
        assert forall|c: Seq<i8>| #![trigger sets[0].contains(c)]
            sets[0].contains(c) <==> (pegs_wf(*cfg, c) && (distinct ==> no_repeats(c))) by {
            assert(views_of(session.candidates@).contains(c) <==> (pegs_wf(*cfg, c) && (
            distinct ==> no_repeats(c))));
        }
        assert(solve_trace(*cfg, distinct, secret@, session.history@, sets));
    }
    while session.status == SolveStatus::Searching
        invariant
            session.wf(),
            session.config == *cfg,
            session.max_rounds == max_rounds,
            pegs_wf(*cfg, secret@),
            views_of(session.candidates@).contains(secret@),
            !(session.status is Contradiction),
            sets.len() == session.history@.len() + 1,
            sets[sets.len() - 1] == views_of(session.candidates@),
            solve_trace(*cfg, distinct, secret@, session.history@, sets),
            session.status is Searching ==> forall|k: int|
                0 <= k < session.history@.len() ==> !is_winning(
                    *cfg,
                    (#[trigger] session.history@[k]).1,
                ),
            session.status is Solved <==> session.round >= 1 && is_winning(
                *cfg,
                session.history@[session.history@.len() - 1].1,
            ),
            session.status is Solved ==> session.history@[session.history@.len() - 1].0@
                == secret@,
            session.status is Exhausted ==> session.round == session.max_rounds,
        decreases max_rounds - session.round,
    {
        proof {
            let cv = views_of(session.candidates@);
            let k = choose|k: int| 0 <= k < cv.len() && cv[k] == secret@;
            assert(session.candidates@.len() >= 1);
        }
        let guess = session.propose().unwrap();
        let feedback = check_pegs(cfg, secret, &guess);
        proof {
            lemma_score_bounds(*cfg, secret@, guess@);
            if is_winning(*cfg, feedback) {
                assert(secret@ == guess@);
            } else {
                lemma_filter_retains_secret(
                    *cfg,
                    views_of(session.candidates@),
                    guess@,
                    secret@,
                );
            }
        }
        let ghost old_session = session;
        let ghost old_sets = sets;
        session = session.advance(&guess, feedback);
        proof {
            sets = old_sets.push(views_of(session.candidates@));
            let hlen = old_session.history@.len() as int;
            assert(sets[hlen + 1] == views_of(session.candidates@));
            assert(sets[hlen] == views_of(old_session.candidates@));
            assert(session.history@[hlen].0@ == guess@);
            assert(session.history@[hlen].1 == feedback);
            assert(played_round(
                *cfg,
                secret@,
                sets[hlen],
                session.history@[hlen].0@,
                session.history@[hlen].1,
                sets[hlen + 1],
            ));
            assert forall|k: int|
                0 <= k < session.history@.len() implies played_round(
                *cfg,
                secret@,
                #[trigger] sets[k],
                session.history@[k].0@,
                session.history@[k].1,
                sets[k + 1],
            ) by {
                if k < hlen {
                    assert(session.history@[k] == old_session.history@[k]);
                    assert(sets[k] == old_sets[k]);
                    assert(sets[k + 1] == old_sets[k + 1]);
                }
            }
            assert forall|k: int|
                0 <= k < session.history@.len() - 1 implies !is_winning(
                *cfg,
                (#[trigger] session.history@[k]).1,
            ) by {
                assert(session.history@[k] == old_session.history@[k]);
            }
        }
    }
    session
}

} // verus!
