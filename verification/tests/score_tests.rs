use mastermind::domain::Config;
use mastermind::score::check_pegs;

#[test]
fn score_mixed_example() {
    let cfg = Config::standard();
    let secret = vec![1i8, 2, 3, 4];
    let guess = vec![1i8, 1, 4, 5];
    assert_eq!(check_pegs(&cfg, &secret, &guess), (1, 1));
}

#[test]
fn score_self_is_all_exact() {
    let cfg = Config::standard();
    let a = vec![2i8, 5, 5, 1];
    assert_eq!(check_pegs(&cfg, &a, &a), (4, 0));
    let b = vec![6i8, 6, 6, 6];
    assert_eq!(check_pegs(&cfg, &b, &b), (4, 0));
}

#[test]
fn score_is_symmetric() {
    let cfg = Config::standard();
    let a = vec![1i8, 2, 2, 3];
    let b = vec![2i8, 2, 4, 1];
    assert_eq!(check_pegs(&cfg, &a, &b), check_pegs(&cfg, &b, &a));
}

#[test]
fn score_totals_within_bounds() {
    let cfg = Config::standard();
    let pairs = [
        (vec![1i8, 1, 1, 1], vec![1i8, 1, 1, 1]),
        (vec![1i8, 2, 3, 4], vec![4i8, 3, 2, 1]),
        (vec![6i8, 6, 5, 4], vec![5i8, 5, 6, 6]),
        (vec![1i8, 2, 3, 4], vec![5i8, 6, 6, 5]),
    ];
    for (a, b) in pairs.iter() {
        let (exact, value_only) = check_pegs(&cfg, a, b);
        assert!(exact >= 0 && value_only >= 0);
        assert!(exact + value_only <= 4);
        assert_eq!(exact == 4, a == b);
    }
}

#[test]
fn score_all_values_misplaced() {
    let cfg = Config::standard();
    let secret = vec![1i8, 2, 3, 4];
    let guess = vec![4i8, 3, 2, 1];
    assert_eq!(check_pegs(&cfg, &secret, &guess), (0, 4));
}

#[test]
fn score_no_match_at_all() {
    let cfg = Config::standard();
    let secret = vec![1i8, 1, 2, 2];
    let guess = vec![3i8, 4, 5, 6];
    assert_eq!(check_pegs(&cfg, &secret, &guess), (0, 0));
}

#[test]
fn score_does_not_double_count_duplicates() {
    let cfg = Config::standard();
    // One 1 in the secret, two 1s in the guess: the histogram minimum counts
    // the value once, and that occurrence is the exact match at position 0.
    let secret = vec![1i8, 2, 3, 4];
    let guess = vec![1i8, 1, 1, 1];
    assert_eq!(check_pegs(&cfg, &secret, &guess), (1, 0));
}
