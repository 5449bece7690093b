use ndarray::{Array1, Array2};
use ndarray_rand::rand_distr::Uniform;
use ndarray_rand::RandomExt;
use rand::SeedableRng;
use rand_pcg::Pcg64;
use semantic_hashing::bucket::bucket_hashes;
use semantic_hashing::distance::hamming_distance;
use semantic_hashing::hashing::code_from_signs;

/// Seed used for hyperplane generation in the demo runs.
const SEED: u64 = 2254;

fn hash_vector(v: Vec<f64>, hyperplanes: Array2<f64>) -> String {
    let v_array = Array1::from_vec(v);
    let v_dot = hyperplanes.dot(&v_array);
    let signs: Vec<bool> = v_dot.iter().map(|x| *x > 0.0).collect();
    code_from_signs(&signs)
}

#[test]
fn test_hash_vector() {
    // Create a seeded random number generator
    let mut rng = Pcg64::seed_from_u64(SEED);
    let nbits = 4;

    // Generate hyperplanes
    let hyperplanes: Array2<f64> =
        Array2::random_using((nbits, nbits), Uniform::new(-0.5, 0.5), &mut rng);

    let v = vec![2.3, 4.5, 6f64, 7.2];
    assert_eq!(hash_vector(v, hyperplanes), "0010".to_string());
}

#[test]
fn test_bucket_hashes() {
    let hashed_vector = vec![
        "1001".to_string(),
        "1100".to_string(),
        "1101".to_string(),
        "1001".to_string(),
        "1110".to_string(),
        "1110".to_string(),
        "1100".to_string(),
        "1100".to_string(),
        "1101".to_string(),
        "1000".to_string(),
        "1111".to_string(),
        "1111".to_string(),
        "1101".to_string(),
        "1100".to_string(),
        "0100".to_string(),
        "0100".to_string(),
        "1111".to_string(),
        "0100".to_string(),
        "0010".to_string(),
        "0100".to_string(),
    ];
    let expected: Vec<(&str, Vec<usize>)> = vec![
        ("1001", vec![0, 3]),
        ("1100", vec![1, 6, 7, 13]),
        ("1101", vec![2, 8, 12]),
        ("1110", vec![4, 5]),
        ("1000", vec![9]),
        ("1111", vec![10, 11, 16]),
        ("0100", vec![14, 15, 17, 19]),
        ("0010", vec![18]),
    ];

    let result = bucket_hashes(hashed_vector.iter().map(|s| s.to_owned()).collect());
    assert_eq!(result.num_buckets(), expected.len());
    for (code, indices) in expected {
        assert_eq!(result.get_bucket(&code.to_string()), Some(&indices));
    }
}

#[test]
fn test_hamming_distance_panic() {
    assert!(hamming_distance("0010".to_string(), "100".to_string()).is_err());
}

#[test]
fn test_hamming_distance() {
    assert_eq!(hamming_distance("0010".to_string(), "1001".to_string()).unwrap(), 3u16);
}
