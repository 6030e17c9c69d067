use mastermind::domain::Config;
use mastermind::generate::generate_all_peg_combinations;
use mastermind::score::check_pegs;
use mastermind::select::pick_guess;

fn worst_of(cfg: &Config, candidates: &Vec<Vec<i8>>, g: &Vec<i8>) -> usize {
    let n1 = cfg.num_pegs + 1;
    let mut counts = vec![0usize; n1 * n1];
    for c in candidates {
        let (x, y) = check_pegs(cfg, c, g);
        counts[n1 * x as usize + y as usize] += 1;
    }
    *counts.iter().max().unwrap()
}

#[test]
fn selector_is_minimax_on_small_domain() {
    let cfg = Config { num_pegs: 2, min_value: 1, max_value: 3 };
    let all = generate_all_peg_combinations(&cfg, false);
    assert_eq!(all.len(), 9);
    let chosen = pick_guess(&cfg, &all);
    let chosen_worst = worst_of(&cfg, &all, &chosen);
    for g in &all {
        assert!(
            chosen_worst <= worst_of(&cfg, &all, g),
            "guess {:?} beats the chosen {:?}",
            g,
            chosen
        );
    }
}

#[test]
fn selector_is_minimax_on_every_subset_of_tiny_domain() {
    // Exhaustive check over every non-empty subset of the N=2, V=2 domain.
    let cfg = Config { num_pegs: 2, min_value: 1, max_value: 2 };
    let all = generate_all_peg_combinations(&cfg, false);
    assert_eq!(all.len(), 4);
    for mask in 1u32..16 {
        let subset: Vec<Vec<i8>> = all
            .iter()
            .enumerate()
            .filter(|(i, _)| mask & (1 << i) != 0)
            .map(|(_, c)| c.clone())
            .collect();
        let chosen = pick_guess(&cfg, &subset);
        assert!(subset.contains(&chosen));
        let chosen_worst = worst_of(&cfg, &subset, &chosen);
        for g in &subset {
            assert!(chosen_worst <= worst_of(&cfg, &subset, g));
        }
    }
}

#[test]
fn first_guess_over_full_domain_is_two_pairs() {
    // The first candidate in enumeration order whose worst-case bucket
    // reaches the minimum of 256 is the two-pair guess.
    let cfg = Config::standard();
    let all = generate_all_peg_combinations(&cfg, false);
    let g = pick_guess(&cfg, &all);
    assert_eq!(g, vec![1i8, 1, 2, 2]);
    assert_eq!(worst_of(&cfg, &all, &g), 256);
}

#[test]
fn selector_returns_single_candidate() {
    let cfg = Config::standard();
    let only = vec![vec![2i8, 3, 4, 5]];
    assert_eq!(pick_guess(&cfg, &only), vec![2i8, 3, 4, 5]);
}

#[test]
fn selector_prefers_first_on_ties() {
    // Two candidates always split each other into buckets of one, so both
    // reach the minimum; the first in enumeration order must win.
    let cfg = Config::standard();
    let cands = vec![vec![1i8, 2, 3, 4], vec![5i8, 6, 1, 2]];
    assert_eq!(pick_guess(&cfg, &cands), vec![1i8, 2, 3, 4]);
}
