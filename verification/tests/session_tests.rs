use mastermind::domain::Config;
use mastermind::filter::apply_feedback;
use mastermind::generate::generate_all_peg_combinations;
use mastermind::score::check_pegs;
use mastermind::select::pick_guess;
use mastermind::session::solve_known;
use mastermind::session::SolveSession;
use mastermind::session::SolveStatus;

#[test]
fn fixed_puzzle_is_solved_within_six_rounds() {
    let cfg = Config::standard();
    let secret = vec![6i8, 6, 5, 4];
    let session = solve_known(&cfg, &secret, false, 6);
    assert_eq!(session.status, SolveStatus::Solved);
    assert!(session.round <= 6);
    let (last_guess, last_feedback) = session.history.last().unwrap();
    assert_eq!(*last_guess, secret);
    assert_eq!(*last_feedback, (4, 0));
}

#[test]
fn session_starts_with_full_candidate_space() {
    let cfg = Config::standard();
    let session = SolveSession::new(&cfg, false, 6);
    assert_eq!(session.candidates.len(), 1296);
    assert_eq!(session.round, 0);
    assert_eq!(session.status, SolveStatus::Searching);
    assert!(session.history.is_empty());
}

#[test]
fn contradictory_feedback_ends_in_contradiction() {
    let cfg = Config::standard();
    let session = SolveSession::new(&cfg, false, 6);
    let guess = session.propose().unwrap();
    // No candidate can answer (3, 1): three exact matches leave one peg whose
    // value cannot be merely misplaced.
    let session = session.advance(&guess, (3, 1));
    assert_eq!(session.status, SolveStatus::Contradiction);
    assert_eq!(session.candidates.len(), 0);
}

#[test]
fn lying_oracle_exhausts_or_contradicts() {
    let cfg = Config::standard();
    let mut session = SolveSession::new(&cfg, false, 6);
    while session.status == SolveStatus::Searching {
        let guess = session.propose().unwrap();
        // Always answer "nothing matched", whatever the guess.
        session = session.advance(&guess, (0, 0));
    }
    assert_ne!(session.status, SolveStatus::Solved);
}

#[test]
fn exhausted_when_budget_runs_out() {
    let cfg = Config::standard();
    let secret = vec![6i8, 6, 5, 4];
    let session = solve_known(&cfg, &secret, false, 1);
    assert_eq!(session.status, SolveStatus::Exhausted);
    assert_eq!(session.round, 1);
}

#[test]
fn distinct_mode_solves_a_distinct_secret() {
    let cfg = Config::standard();
    let secret = vec![2i8, 4, 1, 6];
    let session = solve_known(&cfg, &secret, true, 6);
    assert_eq!(session.status, SolveStatus::Solved);
    let (last_guess, _) = session.history.last().unwrap();
    assert_eq!(*last_guess, secret);
}

#[test]
fn history_is_a_truthful_minimax_replay() {
    // Replays the recorded rounds independently: each guess must be the
    // selector's pick from the candidate set of its round, each feedback the
    // true score of that guess against the secret.
    let cfg = Config::standard();
    let secret = vec![5i8, 3, 3, 2];
    let session = solve_known(&cfg, &secret, false, 6);
    assert_eq!(session.status, SolveStatus::Solved);
    let mut candidates = generate_all_peg_combinations(&cfg, false);
    for (k, (guess, feedback)) in session.history.iter().enumerate() {
        assert_eq!(*guess, pick_guess(&cfg, &candidates));
        assert_eq!(*feedback, check_pegs(&cfg, &secret, guess));
        if k + 1 < session.history.len() {
            candidates = apply_feedback(&cfg, candidates, guess, feedback);
        }
    }
}

#[test]
fn history_records_every_round() {
    let cfg = Config::standard();
    let secret = vec![3i8, 1, 4, 1];
    let session = solve_known(&cfg, &secret, false, 6);
    assert_eq!(session.history.len(), session.round);
    assert!(session.round >= 1);
}
