use mastermind::domain::Config;
use mastermind::filter::apply_feedback;
use mastermind::generate::generate_all_peg_combinations;
use mastermind::score::check_pegs;

#[test]
fn filter_keeps_exactly_the_consistent_candidates() {
    let cfg = Config::standard();
    let all = generate_all_peg_combinations(&cfg, false);
    let guess = vec![1i8, 1, 2, 2];
    let feedback = (1i8, 1i8);
    let kept = apply_feedback(&cfg, all.clone(), &guess, &feedback);
    for c in &kept {
        assert_eq!(check_pegs(&cfg, c, &guess), feedback);
    }
    let mut consistent = 0;
    for c in &all {
        if check_pegs(&cfg, c, &guess) == feedback {
            consistent += 1;
        }
    }
    assert_eq!(kept.len(), consistent);
}

#[test]
fn filter_result_is_subset() {
    let cfg = Config::standard();
    let all = generate_all_peg_combinations(&cfg, false);
    let guess = vec![3i8, 4, 5, 6];
    let feedback = (0i8, 2i8);
    let kept = apply_feedback(&cfg, all.clone(), &guess, &feedback);
    assert!(kept.len() <= all.len());
    for c in &kept {
        assert!(all.contains(c));
    }
}

#[test]
fn filter_is_idempotent() {
    let cfg = Config::standard();
    let all = generate_all_peg_combinations(&cfg, false);
    let guess = vec![2i8, 2, 3, 3];
    let feedback = (0i8, 3i8);
    let once = apply_feedback(&cfg, all, &guess, &feedback);
    let twice = apply_feedback(&cfg, once.clone(), &guess, &feedback);
    assert_eq!(once, twice);
}

#[test]
fn filter_never_eliminates_the_secret() {
    let cfg = Config::standard();
    let all = generate_all_peg_combinations(&cfg, false);
    let secret = vec![6i8, 6, 5, 4];
    let guesses = [
        vec![1i8, 1, 2, 2],
        vec![6i8, 5, 4, 3],
        vec![4i8, 5, 6, 6],
        vec![6i8, 6, 5, 4],
    ];
    let mut candidates = all;
    for guess in guesses.iter() {
        let feedback = check_pegs(&cfg, &secret, guess);
        candidates = apply_feedback(&cfg, candidates, guess, &feedback);
        assert!(candidates.contains(&secret));
    }
}

#[test]
fn impossible_feedback_empties_the_set() {
    let cfg = Config::standard();
    let all = generate_all_peg_combinations(&cfg, false);
    // Three exact matches leave a single misplaced peg, which can never count
    // as a value-only match: no candidate answers (3, 1).
    let guess = vec![1i8, 2, 3, 4];
    let kept = apply_feedback(&cfg, all, &guess, &(3, 1));
    assert_eq!(kept.len(), 0);
}
