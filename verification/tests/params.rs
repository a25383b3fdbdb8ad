use datasketch_minhash_lsh::{LshParams, NO_SCORE};

fn table(num_perm: usize, score: impl Fn(usize, usize) -> u64) -> Vec<Vec<u64>> {
    (1..=num_perm).map(|b| (1..=num_perm / b).map(|r| score(b, r)).collect()).collect()
}

#[test]
fn the_smallest_score_wins() {
    let scores = table(4, |b, r| if (b, r) == (2, 2) { 3 } else { 10 + (b * r) as u64 });
    assert_eq!(LshParams::find_optimal_params(4, &scores), Some(LshParams { b: 2, r: 2 }));
}

#[test]
fn of_equal_scores_the_first_wins() {
    let scores = table(6, |_, _| 5);
    assert_eq!(LshParams::find_optimal_params(6, &scores), Some(LshParams { b: 1, r: 1 }));
    let scores = table(6, |b, r| if b == 1 || (b == 2 && r == 1) { 9 } else { 5 });
    assert_eq!(LshParams::find_optimal_params(6, &scores), Some(LshParams { b: 2, r: 2 }));
    let scores = table(6, |b, r| if (b, r) == (1, 4) || (b, r) == (3, 1) { 1 } else { 5 });
    assert_eq!(LshParams::find_optimal_params(6, &scores), Some(LshParams { b: 1, r: 4 }));
}

#[test]
fn a_layout_without_a_finite_score_is_never_chosen() {
    let scores = table(4, |_, _| NO_SCORE);
    assert_eq!(LshParams::find_optimal_params(4, &scores), None);
    let scores = table(4, |b, r| if (b, r) == (4, 1) { NO_SCORE - 1 } else { NO_SCORE });
    assert_eq!(LshParams::find_optimal_params(4, &scores), Some(LshParams { b: 4, r: 1 }));
    assert_eq!(NO_SCORE, u64::MAX);
}

#[test]
fn layouts_that_do_not_fit_are_not_looked_at() {
    // Every row is as long as the first: the entries past `num_perm / b` are ignored.
    let scores: Vec<Vec<u64>> = (1..=4u64).map(|b| (1..=4u64).map(|r| 100 - b * r).collect()).collect();
    let found = LshParams::find_optimal_params(4, &scores).unwrap();
    assert_eq!(found, LshParams { b: 1, r: 4 });
    assert!(found.b >= 1 && found.r >= 1 && found.b * found.r <= 4);
}

#[test]
fn entries_that_the_table_lacks_count_as_not_finite() {
    let scores: Vec<Vec<u64>> = vec![vec![7], vec![]];
    assert_eq!(LshParams::find_optimal_params(4, &scores), Some(LshParams { b: 1, r: 1 }));
    assert_eq!(LshParams::find_optimal_params(4, &Vec::new()), None);
    assert_eq!(LshParams::find_optimal_params(0, &scores), None);
}

#[test]
fn the_chosen_layout_fits_the_signature() {
    for num_perm in 1..40usize {
        let scores = table(num_perm, |b, r| ((b * 31 + r * 17) % 23) as u64);
        let found = LshParams::find_optimal_params(num_perm, &scores).unwrap();
        assert!(found.b >= 1 && found.r >= 1 && found.b * found.r <= num_perm);
        let best = scores[found.b - 1][found.r - 1];
        for b in 1..=num_perm {
            for r in 1..=num_perm / b {
                assert!(best <= scores[b - 1][r - 1]);
                if (b, r) < (found.b, found.r) {
                    assert!(best < scores[b - 1][r - 1]);
                }
            }
        }
    }
}
