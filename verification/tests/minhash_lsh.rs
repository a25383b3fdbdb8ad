use datasketch_minhash_lsh::{
    HashValuePart, LshParams, MinHash, MinHashLsh, MinHashingError, Threshold, Weights, NO_SCORE,
};
use float_cmp::ApproxEq;
use quadrature::integrate;
use std::collections::HashSet;
use std::hash::Hash;

const ALLOWED_INTEGRATE_ERR: f64 = 0.001;

fn false_positive_probability(threshold: f64, b: usize, r: usize) -> f64 {
    let probability = |s: f64| -> f64 { 1. - f64::powf(1. - f64::powi(s, r as i32), b as f64) };
    integrate(probability, 0.0, threshold, ALLOWED_INTEGRATE_ERR).integral
}

fn false_negative_probability(threshold: f64, b: usize, r: usize) -> f64 {
    let probability =
        |s: f64| -> f64 { 1. - (1. - f64::powf(1. - f64::powi(s, r as i32), b as f64)) };
    integrate(probability, threshold, 1.0, ALLOWED_INTEGRATE_ERR).integral
}

/// An integer that is ordered as the error is; `NO_SCORE` for what is not below infinity.
fn score_of(error: f64) -> u64 {
    if !(error < f64::INFINITY) {
        return NO_SCORE;
    }
    let bits = if error == 0.0 { 0.0f64.to_bits() } else { error.to_bits() };
    if bits >> 63 == 0 {
        bits | (1u64 << 63)
    } else {
        !bits
    }
}

fn scores(threshold: f64, num_perm: usize, weights: (f64, f64)) -> Vec<Vec<u64>> {
    let mut table = Vec::new();
    for b in 1..num_perm + 1 {
        let mut row = Vec::new();
        for r in 1..num_perm / b + 1 {
            let false_pos = false_positive_probability(threshold, b, r);
            let false_neg = false_negative_probability(threshold, b, r);
            row.push(score_of(false_pos * weights.0 + false_neg * weights.1));
        }
        table.push(row);
    }
    table
}

fn in_unit_interval(value: f64) -> bool {
    (0.0..=1.0).contains(&value)
}

fn new_index<K: Eq + Hash + Clone>(
    num_perm: usize,
    weights: Option<(f64, f64)>,
    threshold: Option<f64>,
) -> Result<MinHashLsh<K>, MinHashingError> {
    let threshold_found =
        threshold.map(|t| Threshold { within_unit_interval: in_unit_interval(t) });
    let weights_found = weights.map(|(left, right)| Weights {
        within_unit_interval: in_unit_interval(left) && in_unit_interval(right),
        sum_is_one: (left + right).approx_eq(1.0, (0.0, 2)),
    });
    let in_order = threshold_found.map_or(true, |t| t.within_unit_interval)
        && weights_found.map_or(true, |w| w.within_unit_interval && w.sum_is_one);
    let table = if in_order && num_perm >= 2 {
        scores(threshold.unwrap_or(0.9), num_perm, weights.unwrap_or((0.5, 0.5)))
    } else {
        Vec::new()
    };
    MinHashLsh::new(num_perm, weights_found, threshold_found, &table)
}

fn sketch_of<T: Hash>(num_perm: usize, values: &[T]) -> MinHash {
    let mut sketch = MinHash::new(num_perm, Some(0)).unwrap();
    for value in values {
        sketch.update(value);
    }
    sketch
}

fn two_keys(num_perm: usize) -> (MinHashLsh<&'static str>, MinHash, MinHash) {
    let mut lsh = new_index::<&str>(num_perm, None, Some(0.5)).unwrap();
    let m1 = sketch_of(num_perm, &["a"]);
    let m2 = sketch_of(num_perm, &["b"]);
    lsh.insert("a", &m1).unwrap();
    lsh.insert("b", &m2).unwrap();
    (lsh, m1, m2)
}

#[test]
fn minhash_lsh_test_init() {
    let lsh = new_index::<&str>(128, None, Some(0.8)).unwrap();
    assert!(lsh.is_empty());
    let LshParams { b: b1, r: r1 } = lsh.params();
    let lsh = new_index::<&str>(128, Some((0.2, 0.8)), Some(0.8)).unwrap();
    let LshParams { b: b2, r: r2 } = lsh.params();
    assert!(b1 < b2);
    assert!(r1 > r2);
}

#[test]
fn minhash_lsh_test_insert() {
    let mut lsh = new_index::<&str>(128, None, Some(0.5)).unwrap();
    let mut m1 = <MinHash>::new(128, Some(0)).unwrap();
    m1.update(&"a");
    let mut m2 = <MinHash>::new(128, Some(0)).unwrap();
    m2.update(&"b");
    lsh.insert("a", &m1).unwrap();
    lsh.insert("b", &m2).unwrap();
    let counts = lsh.get_counts();
    for (index, table) in counts.iter().enumerate() {
        assert!(table.len() >= 1);
        let table_values: HashSet<&str> = table
            .iter()
            .flat_map(|(part, _)| lsh.bucket(index, part).unwrap().iter().cloned())
            .collect();
        assert!(table_values.contains(&"a"));
        assert!(table_values.contains(&"b"));
    }
    assert!(lsh.contains_key(&"a"));
    assert!(lsh.contains_key(&"b"));
    let a_keys_content = lsh.band_keys(&"a").unwrap();
    for (index, hash_part) in a_keys_content.iter().enumerate() {
        assert!(lsh.bucket(index, hash_part).unwrap().contains(&"a"));
    }
}

#[test]
fn minhash_lsh_test_query() {
    let mut lsh = new_index::<&str>(16, None, Some(0.5)).unwrap();
    let mut m1 = <MinHash>::new(16, Some(0)).unwrap();
    m1.update(&"a");
    let mut m2 = <MinHash>::new(16, Some(0)).unwrap();
    m2.update(&"b");
    lsh.insert("a", &m1).unwrap();
    lsh.insert("b", &m2).unwrap();
    let result = lsh.query(&m1).unwrap();
    assert!(result.contains(&"a"));
    let result = lsh.query(&m2).unwrap();
    assert!(result.contains(&"b"));
    assert!(result.len() <= 2);

    let m3 = <MinHash>::new(18, Some(0)).unwrap();
    let result = lsh.clone().query(&m3);
    assert!(result.is_err());
}

#[test]
fn minhash_lsh_test_remove() {
    let mut lsh = new_index::<&str>(16, None, Some(0.5)).unwrap();
    let mut m1 = <MinHash>::new(16, Some(0)).unwrap();
    m1.update(&"a");
    let mut m2 = <MinHash>::new(16, Some(0)).unwrap();
    m2.update(&"b");
    lsh.insert("a", &m1).unwrap();
    lsh.insert("b", &m2).unwrap();

    lsh.remove(&"a").unwrap();
    assert!(!lsh.contains_key(&"&a"));
    assert!(!lsh.contains_key(&"a"));
    for (index, table) in lsh.get_counts().iter().enumerate() {
        for (value, count) in table {
            let bucket = lsh.bucket(index, value).unwrap();
            assert!(bucket.len() > 0);
            assert_eq!(bucket.len(), *count);
            assert!(!bucket.contains(&"a"))
        }
    }
}

#[test]
fn minhash_lsh_test_get_counts() {
    let mut lsh = new_index::<&str>(16, None, Some(0.5)).unwrap();
    let mut m1 = <MinHash>::new(16, Some(0)).unwrap();
    m1.update(&"a");
    let mut m2 = <MinHash>::new(16, Some(0)).unwrap();
    m2.update(&"b");
    lsh.insert("a", &m1).unwrap();
    lsh.insert("b", &m2).unwrap();

    let counts = lsh.get_counts();
    assert_eq!(counts.len(), lsh.params().b);
    for table in &counts {
        assert_eq!(table.iter().map(|(_, count)| *count).sum::<usize>(), 2);
    }
}

#[test]
fn test_byteswap() {
    for _ in (2..128 + 1).step_by(16) {
        let mut lsh = new_index::<&str>(128, None, None).unwrap();
        let mut m = <MinHash>::new(128, None).unwrap();
        m.update(&"abcdefg");
        m.update(&"1234567");
        lsh.insert(&"m", &m).unwrap();
        let sizes = lsh
            .get_counts()
            .iter()
            .flat_map(|table| table.iter().map(|(_, count)| *count).collect::<Vec<_>>())
            .collect::<Vec<_>>();
        sizes.iter().for_each(|size| assert_eq!(*size, sizes[0]));
    }
}

#[test]
fn minhash_lsh_example_eg1() {
    let set1: HashSet<&'static str> = [
        "minhash",
        "is",
        "a",
        "probabilistic",
        "data",
        "structure",
        "for",
        "estimating",
        "the",
        "similarity",
        "between",
        "datasets",
    ]
    .iter()
    .cloned()
    .collect();
    let set2: HashSet<&'static str> = [
        "minhash",
        "is",
        "a",
        "probability",
        "data",
        "structure",
        "for",
        "estimating",
        "the",
        "similarity",
        "between",
        "documents",
    ]
    .iter()
    .cloned()
    .collect();
    let set3: HashSet<&'static str> = [
        "minhash",
        "is",
        "probability",
        "data",
        "structure",
        "for",
        "estimating",
        "the",
        "similarity",
        "between",
        "documents",
    ]
    .iter()
    .cloned()
    .collect();

    let n_projections = 128;
    let mut m1 = <MinHash>::new(n_projections, Some(0)).unwrap();
    let mut m2 = <MinHash>::new(n_projections, Some(0)).unwrap();
    let mut m3 = <MinHash>::new(n_projections, Some(0)).unwrap();
    for d in set1 {
        m1.update(&d);
    }
    for d in set2 {
        m2.update(&d);
    }
    for d in set3 {
        m3.update(&d);
    }

    let mut lsh = new_index::<&str>(128, None, Some(0.5)).unwrap();
    lsh.insert(&"m2", &m2).unwrap();
    lsh.insert(&"m3", &m3).unwrap();
    let result = lsh.query(&m1);
    println!(
        "Approximate neighbours with Jaccard similarity > 0.5: {:?}",
        result
    );
}

#[test]
fn an_index_refuses_fewer_than_two_slots() {
    let outcome = MinHashLsh::<u64>::with_params(1, LshParams { b: 1, r: 1 });
    assert_eq!(outcome.err(), Some(MinHashingError::NumPermFuncsTooLow));
    assert!(MinHashLsh::<u64>::with_params(2, LshParams { b: 1, r: 1 }).is_ok());
}

#[test]
fn a_new_index_is_empty() {
    let lsh = MinHashLsh::<u64>::with_params(8, LshParams { b: 4, r: 2 }).unwrap();
    assert!(lsh.is_empty());
    assert_eq!(lsh.len(), 0);
    assert_eq!(lsh.num_perm(), 8);
    assert_eq!(lsh.params(), LshParams { b: 4, r: 2 });
    assert_eq!(lsh.get_counts(), vec![Vec::new(); 4]);
    assert!(!lsh.contains_key(&3));
    assert_eq!(lsh.query(&MinHash::new(8, Some(0)).unwrap()), Ok(HashSet::new()));
}

#[test]
fn insert_files_the_key_under_each_band_of_the_signature() {
    let mut lsh = MinHashLsh::<u64>::with_params(7, LshParams { b: 3, r: 2 }).unwrap();
    let sketch = sketch_of(7, &[1, 2, 3]);
    let signature = sketch.hash_values.0.clone();
    lsh.insert(10, &sketch).unwrap();
    assert!(!lsh.is_empty());
    assert_eq!(lsh.len(), 1);
    let expected: Vec<HashValuePart> =
        (0..3).map(|i| HashValuePart(signature[2 * i..2 * i + 2].to_vec())).collect();
    assert_eq!(lsh.band_keys(&10), Some(&expected));
    for (index, part) in expected.iter().enumerate() {
        assert_eq!(lsh.bucket(index, part), Some(&HashSet::from([10])));
    }
    // The last slot is in no band.
    assert_eq!(lsh.bucket(3, &HashValuePart(vec![signature[6]])), None);
    assert_eq!(
        lsh.get_counts(),
        expected.iter().map(|part| vec![(part.clone(), 1)]).collect::<Vec<_>>()
    );
}

#[test]
fn insert_refuses_a_sketch_of_another_length_and_changes_nothing() {
    let mut lsh = MinHashLsh::<u64>::with_params(8, LshParams { b: 2, r: 4 }).unwrap();
    lsh.insert(1, &sketch_of(8, &["x"])).unwrap();
    let counts = lsh.get_counts();
    let outcome = lsh.insert(2, &sketch_of(9, &["y"]));
    assert_eq!(outcome, Err(MinHashingError::DifferentNumPermFuncs));
    assert!(!lsh.contains_key(&2));
    assert_eq!(lsh.get_counts(), counts);
    assert_eq!(lsh.query(&sketch_of(7, &["x"])), Err(MinHashingError::DifferentNumPermFuncs));
}

#[test]
fn after_insert_the_key_is_found() {
    let mut lsh = MinHashLsh::<u64>::with_params(16, LshParams { b: 4, r: 4 }).unwrap();
    for key in 0..20u64 {
        let sketch = sketch_of(16, &[key, key + 100]);
        lsh.insert(key, &sketch).unwrap();
        assert!(lsh.contains_key(&key));
        assert!(lsh.query(&sketch).unwrap().contains(&key));
    }
    assert_eq!(lsh.len(), 20);
}

#[test]
fn query_unites_the_buckets() {
    let mut lsh = MinHashLsh::<u64>::with_params(4, LshParams { b: 2, r: 2 }).unwrap();
    let sketch = sketch_of(4, &["same"]);
    lsh.insert(1, &sketch).unwrap();
    lsh.insert(2, &sketch).unwrap();
    lsh.insert(3, &sketch_of(4, &["other"])).unwrap();
    let found = lsh.query(&sketch).unwrap();
    assert_eq!(found, HashSet::from([1, 2]));
}

#[test]
fn remove_refuses_a_key_that_is_not_on_record() {
    let mut lsh = MinHashLsh::<u64>::with_params(8, LshParams { b: 2, r: 4 }).unwrap();
    assert_eq!(lsh.remove(&5), Err(MinHashingError::KeyDoesNotExist));
    lsh.insert(5, &sketch_of(8, &[5])).unwrap();
    assert_eq!(lsh.remove(&6), Err(MinHashingError::KeyDoesNotExist));
    assert_eq!(lsh.len(), 1);
    assert_eq!(lsh.remove(&5), Ok(()));
    assert_eq!(lsh.remove(&5), Err(MinHashingError::KeyDoesNotExist));
}

#[test]
fn after_remove_no_query_finds_the_key() {
    let (mut lsh, m1, m2) = two_keys(16);
    lsh.remove(&"a").unwrap();
    assert!(!lsh.contains_key(&"a"));
    assert!(!lsh.query(&m1).unwrap().contains(&"a"));
    assert!(!lsh.query(&m2).unwrap().contains(&"a"));
    assert!(lsh.query(&m2).unwrap().contains(&"b"));
    lsh.remove(&"b").unwrap();
    assert!(lsh.is_empty());
    assert!(lsh.get_counts().iter().all(|table| table.is_empty()));
}

#[test]
fn remove_drops_the_buckets_that_it_empties_and_no_others() {
    let mut lsh = MinHashLsh::<u64>::with_params(4, LshParams { b: 2, r: 2 }).unwrap();
    let sketch = sketch_of(4, &["same"]);
    lsh.insert(1, &sketch).unwrap();
    lsh.insert(2, &sketch).unwrap();
    lsh.remove(&1).unwrap();
    let parts = lsh.band_keys(&2).unwrap().clone();
    for (index, part) in parts.iter().enumerate() {
        assert_eq!(lsh.bucket(index, part), Some(&HashSet::from([2])));
    }
    lsh.remove(&2).unwrap();
    for (index, part) in parts.iter().enumerate() {
        assert_eq!(lsh.bucket(index, part), None);
    }
}

#[test]
fn inserting_a_key_again_replaces_its_record_and_keeps_the_old_buckets() {
    let mut lsh = MinHashLsh::<u64>::with_params(4, LshParams { b: 2, r: 2 }).unwrap();
    let first = sketch_of(4, &["first"]);
    let second = sketch_of(4, &["second"]);
    lsh.insert(1, &first).unwrap();
    lsh.insert(1, &second).unwrap();
    assert_eq!(lsh.len(), 1);
    assert_eq!(lsh.query(&first).unwrap(), HashSet::from([1]));
    assert_eq!(lsh.query(&second).unwrap(), HashSet::from([1]));
    lsh.remove(&1).unwrap();
    assert!(!lsh.contains_key(&1));
    assert_eq!(lsh.query(&second).unwrap(), HashSet::new());
    // What the first record filed is still there.
    assert_eq!(lsh.query(&first).unwrap(), HashSet::from([1]));
}

#[test]
fn the_counts_of_each_band_add_up_to_the_number_of_keys() {
    let mut lsh = MinHashLsh::<u64>::with_params(12, LshParams { b: 3, r: 4 }).unwrap();
    for key in 0..30u64 {
        lsh.insert(key, &sketch_of(12, &[key % 7])).unwrap();
    }
    lsh.remove(&4).unwrap();
    let counts = lsh.get_counts();
    assert_eq!(counts.len(), 3);
    for table in &counts {
        assert_eq!(table.len(), 7);
        assert_eq!(table.iter().map(|(_, count)| *count).sum::<usize>(), 29);
    }
    assert_eq!(lsh.len(), 29);
}

#[test]
fn settings_are_looked_at_in_their_order() {
    let good = Some(Weights { within_unit_interval: true, sum_is_one: true });
    let wide = Some(Weights { within_unit_interval: false, sum_is_one: false });
    let off = Some(Weights { within_unit_interval: true, sum_is_one: false });
    let inside = Some(Threshold { within_unit_interval: true });
    let outside = Some(Threshold { within_unit_interval: false });
    let table = vec![vec![9, 8, 7, 6], vec![5, 2], vec![2], vec![1]];
    let none = Vec::new();
    assert_eq!(
        MinHashLsh::<u64>::new(1, wide, outside, &none).err(),
        Some(MinHashingError::WrongThresholdInterval)
    );
    assert_eq!(
        MinHashLsh::<u64>::new(1, wide, inside, &none).err(),
        Some(MinHashingError::NumPermFuncsTooLow)
    );
    assert_eq!(
        MinHashLsh::<u64>::new(0, None, None, &none).err(),
        Some(MinHashingError::NumPermFuncsTooLow)
    );
    assert_eq!(
        MinHashLsh::<u64>::new(4, wide, inside, &none).err(),
        Some(MinHashingError::WrongWeightThreshold)
    );
    assert_eq!(
        MinHashLsh::<u64>::new(4, off, None, &none).err(),
        Some(MinHashingError::UnexpectedSumWeight)
    );
    let lsh = MinHashLsh::<u64>::new(4, good, inside, &table).unwrap();
    assert_eq!(lsh.params(), LshParams { b: 4, r: 1 });
    let lsh = MinHashLsh::<u64>::new(4, None, None, &table).unwrap();
    assert_eq!(lsh.params(), LshParams { b: 4, r: 1 });
    assert_eq!(lsh.get_counts().len(), 4);
    assert!(lsh.is_empty());
}

#[test]
fn float_settings_out_of_range_are_refused() {
    assert_eq!(
        new_index::<u64>(16, None, Some(1.5)).err(),
        Some(MinHashingError::WrongThresholdInterval)
    );
    assert_eq!(
        new_index::<u64>(16, None, Some(-0.1)).err(),
        Some(MinHashingError::WrongThresholdInterval)
    );
    assert_eq!(
        new_index::<u64>(1, None, Some(0.5)).err(),
        Some(MinHashingError::NumPermFuncsTooLow)
    );
    assert_eq!(
        new_index::<u64>(16, Some((1.2, 0.0)), None).err(),
        Some(MinHashingError::WrongWeightThreshold)
    );
    assert_eq!(
        new_index::<u64>(16, Some((0.5, 0.6)), None).err(),
        Some(MinHashingError::UnexpectedSumWeight)
    );
    let lsh = new_index::<u64>(16, Some((0.3, 0.7)), Some(1.0)).unwrap();
    assert!(lsh.params().b >= 1 && lsh.params().r >= 1);
    assert!(lsh.params().b * lsh.params().r <= 16);
}

#[test]
fn a_copy_of_the_index_answers_alike() {
    let (lsh, m1, m2) = two_keys(16);
    let mut copy = lsh.clone();
    assert_eq!(copy.query(&m1), lsh.query(&m1));
    assert_eq!(copy.query(&m2), lsh.query(&m2));
    assert_eq!(copy.len(), 2);
    copy.remove(&"a").unwrap();
    assert!(lsh.contains_key(&"a"));
    assert!(lsh.query(&m1).unwrap().contains(&"a"));
    assert!(!copy.query(&m1).unwrap().contains(&"a"));
}

#[test]
fn many_band_keys_are_told_apart() {
    let mut lsh = MinHashLsh::<u64>::with_params(8, LshParams { b: 4, r: 2 }).unwrap();
    let sketches: Vec<MinHash> = (0..200u64).map(|key| sketch_of(8, &[key])).collect();
    for (key, sketch) in sketches.iter().enumerate() {
        lsh.insert(key as u64, sketch).unwrap();
    }
    for (key, sketch) in sketches.iter().enumerate() {
        let found = lsh.query(sketch).unwrap();
        assert!(found.contains(&(key as u64)));
        for other in found {
            let shares_a_band = (0..4).any(|i| {
                sketches[other as usize].hash_values.0[2 * i..2 * i + 2]
                    == sketch.hash_values.0[2 * i..2 * i + 2]
            });
            assert!(shares_a_band);
        }
    }
    for table in lsh.get_counts() {
        assert_eq!(table.iter().map(|(_, count)| *count).sum::<usize>(), 200);
    }
    for key in 0..200u64 {
        lsh.remove(&key).unwrap();
    }
    assert!(lsh.is_empty());
}
