use mastermind::domain::Config;
use mastermind::generate::generate_all_peg_combinations;
use mastermind::generate::generate_puzzle;

#[test]
fn full_domain_has_1296_candidates() {
    let cfg = Config::standard();
    let all = generate_all_peg_combinations(&cfg, false);
    assert_eq!(all.len(), 1296);
    for c in &all {
        assert_eq!(c.len(), 4);
        for &v in c {
            assert!((1..=6).contains(&v));
        }
    }
}

#[test]
fn full_domain_has_no_duplicates() {
    let cfg = Config::standard();
    let all = generate_all_peg_combinations(&cfg, false);
    for i in 0..all.len() {
        for j in (i + 1)..all.len() {
            assert_ne!(all[i], all[j]);
        }
    }
}

#[test]
fn distinct_domain_has_360_candidates_without_repeats() {
    let cfg = Config::standard();
    let all = generate_all_peg_combinations(&cfg, true);
    assert_eq!(all.len(), 360);
    for c in &all {
        assert_eq!(c.len(), 4);
        for i in 0..c.len() {
            assert!((1..=6).contains(&c[i]));
            for j in (i + 1)..c.len() {
                assert_ne!(c[i], c[j], "repeated value in {:?}", c);
            }
        }
    }
}

#[test]
fn generation_is_deterministic() {
    let cfg = Config::standard();
    let a = generate_all_peg_combinations(&cfg, false);
    let b = generate_all_peg_combinations(&cfg, false);
    assert_eq!(a, b);
}

#[test]
fn small_domain_is_exhaustive() {
    let cfg = Config { num_pegs: 2, min_value: 1, max_value: 3 };
    let all = generate_all_peg_combinations(&cfg, false);
    assert_eq!(all.len(), 9);
    for x in 1i8..=3 {
        for y in 1i8..=3 {
            assert!(all.iter().any(|c| c[0] == x && c[1] == y));
        }
    }
}

#[test]
fn fixed_puzzle_is_6654() {
    assert_eq!(generate_puzzle(), vec![6i8, 6, 5, 4]);
}
