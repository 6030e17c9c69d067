//! Every one of the 1,296 standard secrets is solved within six rounds.
//!
//! The secrets are grouped by the feedback the first (shared) minimax guess
//! receives against them, one test per feedback class, so that the expensive
//! first two selections are computed once per class.

use mastermind::domain::Config;
use mastermind::filter::apply_feedback;
use mastermind::generate::generate_all_peg_combinations;
use mastermind::score::check_pegs;
use mastermind::select::pick_guess;

fn solve_group(ex: i8, vo: i8) {
    let cfg = Config::standard();
    let all = generate_all_peg_combinations(&cfg, false);
    let g1 = pick_guess(&cfg, &all);
    if ex == 4 && vo == 0 {
        // The only secret answering all-exact is the first guess itself,
        // solved in one round.
        return;
    }
    let group = apply_feedback(&cfg, all, &g1, &(ex, vo));
    if group.is_empty() {
        return;
    }
    let g2 = pick_guess(&cfg, &group);
    for secret in &group {
        let fb2 = check_pegs(&cfg, secret, &g2);
        if fb2 == (4, 0) {
            continue;
        }
        let mut candidates = apply_feedback(&cfg, group.clone(), &g2, &fb2);
        let mut round = 2;
        let mut solved = false;
        while round < 6 {
            let guess = pick_guess(&cfg, &candidates);
            let fb = check_pegs(&cfg, secret, &guess);
            round += 1;
            if fb == (4, 0) {
                solved = true;
                break;
            }
            candidates = apply_feedback(&cfg, candidates, &guess, &fb);
        }
        assert!(solved, "secret {:?} not solved within 6 rounds", secret);
    }
}

#[test]
fn all_secrets_solved_feedback_0_0() {
    solve_group(0, 0);
}

#[test]
fn all_secrets_solved_feedback_0_1() {
    solve_group(0, 1);
}

#[test]
fn all_secrets_solved_feedback_0_2() {
    solve_group(0, 2);
}

#[test]
fn all_secrets_solved_feedback_0_3() {
    solve_group(0, 3);
}

#[test]
fn all_secrets_solved_feedback_0_4() {
    solve_group(0, 4);
}

#[test]
fn all_secrets_solved_feedback_1_0() {
    solve_group(1, 0);
}

#[test]
fn all_secrets_solved_feedback_1_1() {
    solve_group(1, 1);
}

#[test]
fn all_secrets_solved_feedback_1_2() {
    solve_group(1, 2);
}

#[test]
fn all_secrets_solved_feedback_1_3() {
    solve_group(1, 3);
}

#[test]
fn all_secrets_solved_feedback_2_0() {
    solve_group(2, 0);
}

#[test]
fn all_secrets_solved_feedback_2_1() {
    solve_group(2, 1);
}

#[test]
fn all_secrets_solved_feedback_2_2() {
    solve_group(2, 2);
}

#[test]
fn all_secrets_solved_feedback_3_0() {
    solve_group(3, 0);
}

#[test]
fn all_secrets_solved_feedback_3_1() {
    solve_group(3, 1);
}

#[test]
fn all_secrets_solved_feedback_4_0() {
    solve_group(4, 0);
}
