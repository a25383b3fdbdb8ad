use datasketch_minhash_lsh::{JaccardEstimate, MinHash, MinHashingError, MAX_HASH, MERSENNE_PRIME};

fn ratio(estimate: JaccardEstimate) -> f32 {
    estimate.matches as f32 / estimate.num_perm as f32
}

#[test]
fn minhash_test_init_() {
    let m1 = <MinHash>::new(4, Some(0)).unwrap();
    let m2 = <MinHash>::new(4, Some(0)).unwrap();
    assert_eq!(m1.hash_values.0, m2.hash_values.0);
    assert_eq!(m1.permutations(), m2.permutations());
}

#[test]
fn minhash_test_update() {
    let mut m1 = <MinHash>::new(4, Some(1)).unwrap();
    let m2 = <MinHash>::new(4, Some(1)).unwrap();
    m1.update(&12);
    for i in 0..4 {
        assert!(m1.hash_values.0[i] < m2.hash_values.0[i]);
    }
}

#[test]
fn minhash_test_jaccard() {
    let mut m1 = <MinHash>::new(4, Some(1)).unwrap();
    let mut m2 = <MinHash>::new(4, Some(1)).unwrap();
    assert_eq!(ratio(m1.jaccard(&m2).unwrap()), 1.0);
    m2.update(&12);
    assert_eq!(ratio(m1.jaccard(&m2).unwrap()), 0.0);
    m1.update(&13);
    assert!(ratio(m1.jaccard(&m2).unwrap()) < 1.0);
    m1.update(&12);
    let distance = ratio(m1.jaccard(&m2).unwrap());
    assert!(distance < 1.0 && distance > 0.0);
}

#[test]
fn minhash_test_data_sketch_minhash() {
    let n_projections = 3;
    let mut m = <MinHash>::new(n_projections, Some(0)).unwrap();
    m.update(&0);
    m.update(&2);
    m.update(&4);
    assert_eq!(m.hash_values.0.len(), n_projections);
    println!("{:?}", &m.hash_values);
}

#[test]
fn new_refuses_fewer_than_two_slots() {
    assert_eq!(MinHash::new(0, Some(3)).err(), Some(MinHashingError::NumPermFuncsTooLow));
    assert_eq!(MinHash::new(1, None).err(), Some(MinHashingError::NumPermFuncsTooLow));
    assert!(MinHash::new(2, None).is_ok());
}

#[test]
fn fresh_sketch_holds_max_hash_in_every_slot() {
    let m = MinHash::new(16, Some(9)).unwrap();
    assert_eq!(m.hash_values.0, vec![MAX_HASH; 16]);
    assert_eq!(m.signature(), &vec![4294967295u64; 16]);
    assert_eq!(m.num_perm(), 16);
    assert_eq!(m.seed(), Some(9));
    assert_eq!(MERSENNE_PRIME, (1u64 << 61) - 1);
    assert_eq!(MAX_HASH, (1u64 << 32) - 1);
}

#[test]
fn permutations_lie_below_max_hash() {
    let seeded = MinHash::new(64, Some(7)).unwrap();
    assert_eq!(seeded.permutations().len(), 64);
    assert!(seeded.permutations().iter().all(|(a, b)| *a < MAX_HASH && *b < MAX_HASH));
    let unseeded = MinHash::new(64, None).unwrap();
    assert_eq!(unseeded.permutations().len(), 64);
    assert!(unseeded.permutations().iter().all(|(a, b)| *a < MAX_HASH && *b < MAX_HASH));
    assert_eq!(unseeded.seed(), None);
}

#[test]
fn seeds_decide_the_permutations() {
    let a = MinHash::new(32, Some(5)).unwrap();
    let b = MinHash::new(32, Some(5)).unwrap();
    let c = MinHash::new(32, Some(6)).unwrap();
    assert_eq!(a.permutations(), b.permutations());
    assert_ne!(a.permutations(), c.permutations());
    // The draws are not the seed handed back.
    assert!(a.permutations().iter().any(|(x, y)| *x != 5 || *y != 5));
}

#[test]
fn a_longer_sketch_starts_with_the_draws_of_a_shorter_one() {
    let short = MinHash::new(4, Some(11)).unwrap();
    let long = MinHash::new(8, Some(11)).unwrap();
    assert_eq!(short.permutations()[..], long.permutations()[..4]);
}

#[test]
fn update_hash_follows_the_permutation_formula() {
    let mut m = MinHash::new(8, Some(3)).unwrap();
    let hash: u64 = 0xDEAD_BEEF_0000_0007;
    let h = hash & MAX_HASH;
    assert_eq!(h, 7);
    let expected: Vec<u64> = m
        .permutations()
        .iter()
        .map(|(a, b)| std::cmp::min(MAX_HASH, ((a * h + b) % MERSENNE_PRIME) & MAX_HASH))
        .collect();
    m.update_hash(hash);
    assert_eq!(m.hash_values.0, expected);
}

#[test]
fn update_hash_keeps_only_the_low_bits_of_the_hash() {
    let mut low = MinHash::new(8, Some(3)).unwrap();
    let mut high = MinHash::new(8, Some(3)).unwrap();
    low.update_hash(41);
    high.update_hash(41 + (1u64 << 32));
    assert_eq!(low.hash_values.0, high.hash_values.0);
}

#[test]
fn update_never_raises_a_slot() {
    let mut m = MinHash::new(4, Some(1)).unwrap();
    m.update(&12);
    let after_first = m.hash_values.0.clone();
    m.update(&13);
    for i in 0..4 {
        assert!(m.hash_values.0[i] <= after_first[i]);
        assert!(m.hash_values.0[i] <= MAX_HASH);
    }
}

#[test]
fn update_commutes() {
    let mut ab = MinHash::new(32, Some(2)).unwrap();
    ab.update(&"a");
    ab.update(&"b");
    let mut ba = MinHash::new(32, Some(2)).unwrap();
    ba.update(&"b");
    ba.update(&"a");
    assert_eq!(ab.hash_values.0, ba.hash_values.0);
    let mut once = MinHash::new(32, Some(2)).unwrap();
    once.update_hash(99);
    let mut twice = MinHash::new(32, Some(2)).unwrap();
    twice.update_hash(99);
    twice.update_hash(99);
    assert_eq!(once.hash_values.0, twice.hash_values.0);
}

#[test]
fn same_seed_and_updates_give_the_same_signature() {
    let mut m1 = MinHash::new(3, Some(0)).unwrap();
    let mut m2 = MinHash::new(3, Some(0)).unwrap();
    for value in [0, 2, 4] {
        m1.update(&value);
        m2.update(&value);
    }
    assert_eq!(m1.hash_values.0, m2.hash_values.0);
    assert_eq!(m1.hash_values.0.len(), 3);
}

#[test]
fn jaccard_with_itself_is_one() {
    let mut m = MinHash::new(16, Some(4)).unwrap();
    m.update(&"x");
    m.update(&"y");
    let copy = m.clone();
    let estimate = m.jaccard(&copy).unwrap();
    assert_eq!(estimate, JaccardEstimate { matches: 16, num_perm: 16 });
    assert_eq!(ratio(estimate), 1.0);
}

#[test]
fn jaccard_counts_the_matching_slots() {
    let mut m1 = MinHash::new(8, Some(4)).unwrap();
    let mut m2 = MinHash::new(8, Some(4)).unwrap();
    m1.update(&1);
    m2.update(&2);
    m2.update(&1);
    let expected = (0..8).filter(|i| m1.hash_values.0[*i] == m2.hash_values.0[*i]).count();
    let estimate = m1.jaccard(&m2).unwrap();
    assert_eq!(estimate.matches, expected);
    assert_eq!(estimate.num_perm, 8);
    assert!(estimate.matches <= estimate.num_perm);
    let value = ratio(estimate);
    assert!(0.0 <= value && value <= 1.0);
}

#[test]
fn jaccard_refuses_different_seeds() {
    let m1 = MinHash::new(4, Some(1)).unwrap();
    let m2 = MinHash::new(4, Some(2)).unwrap();
    let m3 = MinHash::new(4, None).unwrap();
    assert_eq!(m1.jaccard(&m2), Err(MinHashingError::DifferentSeeds));
    assert_eq!(m1.jaccard(&m3), Err(MinHashingError::DifferentSeeds));
    // The seeds are looked at first.
    let m4 = MinHash::new(5, Some(2)).unwrap();
    assert_eq!(m1.jaccard(&m4), Err(MinHashingError::DifferentSeeds));
}

#[test]
fn jaccard_refuses_different_lengths() {
    let m1 = MinHash::new(4, Some(1)).unwrap();
    let m2 = MinHash::new(5, Some(1)).unwrap();
    assert_eq!(m1.jaccard(&m2), Err(MinHashingError::DifferentNumPermFuncs));
}

#[test]
fn error_messages() {
    assert_eq!(
        MinHashingError::DifferentSeeds.message(),
        "computing jaccard similarity between minhashes only works if they use the same seed"
    );
    assert_eq!(
        MinHashingError::DifferentNumPermFuncs.message(),
        "computing jaccard similarity between minhashes only works if they use the same number of permutation functions"
    );
    assert_eq!(MinHashingError::WrongThresholdInterval.message(), "threshold must be in [0.0, 1.0]");
    assert_eq!(MinHashingError::NumPermFuncsTooLow.message(), "Too few permutation functions");
    assert_eq!(MinHashingError::WrongWeightThreshold.message(), "Weight must be in [0.0, 1.0]");
    assert_eq!(MinHashingError::UnexpectedSumWeight.message(), "Weights must sum to 1.0");
    assert_eq!(MinHashingError::KeyDoesNotExist.message(), "key does not exist in the index");
}
