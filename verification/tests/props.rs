use ndarray::{Array1, Array2};
use ndarray_rand::rand_distr::Uniform;
use ndarray_rand::RandomExt;
use rand::SeedableRng;
use rand_pcg::Pcg64;
use semantic_hashing::bucket::bucket_hashes;
use semantic_hashing::distance::hamming_distance;
use semantic_hashing::errors::LshError;
use semantic_hashing::hashing::{check_dimensions, code_from_signs, validate_matrix_size};
use semantic_hashing::text::{clean_texts, update_text};

fn generate(seed: u64, nbits: usize, dim: usize) -> Array2<f64> {
    let mut rng = Pcg64::seed_from_u64(seed);
    Array2::random_using((nbits, dim), Uniform::new(-0.5, 0.5), &mut rng)
}

fn hash(v: &[f64], hyperplanes: &Array2<f64>) -> String {
    let v_array = Array1::from_vec(v.to_vec());
    let v_dot = hyperplanes.dot(&v_array);
    let signs: Vec<bool> = v_dot.iter().map(|x| *x > 0.0).collect();
    code_from_signs(&signs)
}

#[test]
fn generate_is_deterministic() {
    let a = generate(2254, 8, 16);
    let b = generate(2254, 8, 16);
    assert_eq!(a, b);
}

#[test]
fn hash_is_deterministic() {
    let hyperplanes = generate(2254, 8, 4);
    let v = [2.3, 4.5, 6.0, 7.2];
    let first = hash(&v, &hyperplanes);
    let second = hash(&v, &hyperplanes);
    assert_eq!(first, second);
}

#[test]
fn hash_code_shape() {
    let hyperplanes = generate(99, 8, 4);
    let code = hash(&[1.0, -2.0, 0.5, 3.25], &hyperplanes);
    assert_eq!(code.len(), 8);
    assert!(code.chars().all(|c| c == '0' || c == '1'));
}

#[test]
fn code_from_signs_exact() {
    let signs = vec![false, false, true, false];
    assert_eq!(code_from_signs(&signs), "0010");
    assert_eq!(code_from_signs(&vec![]), "");
    assert_eq!(code_from_signs(&vec![true; 5]), "11111");
}

#[test]
fn bucket_completeness() {
    let codes: Vec<String> =
        ["01", "10", "01", "11", "10", "01"].iter().map(|s| s.to_string()).collect();
    let n = codes.len();
    let result = bucket_hashes(codes.clone());
    let mut seen = vec![0usize; n];
    for code in ["01", "10", "11"] {
        for &i in result.get_bucket(&code.to_string()).unwrap() {
            seen[i] += 1;
        }
    }
    assert!(seen.iter().all(|&c| c == 1));
}

#[test]
fn bucket_grouping() {
    let codes: Vec<String> = ["aa", "ab", "aa", "ab", "ba"].iter().map(|s| s.to_string()).collect();
    let result = bucket_hashes(codes.clone());
    assert_eq!(result.num_buckets(), 3);
    // two positions share a bucket exactly when their codes are equal
    assert_eq!(result.get_bucket(&"aa".to_string()), Some(&vec![0, 2]));
    assert_eq!(result.get_bucket(&"ab".to_string()), Some(&vec![1, 3]));
    assert_eq!(result.get_bucket(&"ba".to_string()), Some(&vec![4]));
    assert_eq!(result.get_bucket(&"bb".to_string()), None);
}

#[test]
fn bucket_empty_input() {
    let result = bucket_hashes(Vec::new());
    assert_eq!(result.num_buckets(), 0);
    assert_eq!(result.get_bucket(&"0".to_string()), None);
}

#[test]
fn hamming_symmetry_and_identity() {
    let a = "100110".to_string();
    let b = "101010".to_string();
    assert_eq!(hamming_distance(a.clone(), b.clone()).unwrap(), hamming_distance(b, a.clone()).unwrap());
    assert_eq!(hamming_distance(a.clone(), a).unwrap(), 0);
    assert_eq!(hamming_distance(String::new(), String::new()).unwrap(), 0);
}

#[test]
fn hamming_mismatch_error() {
    assert_eq!(
        hamming_distance("0010".to_string(), "100".to_string()),
        Err(LshError::LengthMismatch)
    );
}

#[test]
fn size_validation() {
    assert_eq!(validate_matrix_size(8, 1536), Ok(()));
    assert_eq!(validate_matrix_size(0, 1536), Err(LshError::InvalidSize));
    assert_eq!(validate_matrix_size(8, 0), Err(LshError::InvalidSize));
    assert_eq!(check_dimensions(4, 4), Ok(()));
    assert_eq!(check_dimensions(4, 3), Err(LshError::DimensionMismatch));
}

#[test]
fn update_text_cleans() {
    assert_eq!(update_text(&"a\nb".to_string()), "a b");
    assert_eq!(update_text(&"x<br />y<br />z".to_string()), "x y z");
    assert_eq!(update_text(&"<br\n/>".to_string()), " ");
    assert_eq!(update_text(&"plain".to_string()), "plain");
    assert_eq!(update_text(&String::new()), "");
}

#[test]
fn clean_texts_keeps_order() {
    let texts = vec!["a\nb".to_string(), "c<br />d".to_string()];
    assert_eq!(clean_texts(&texts), vec!["a b".to_string(), "c d".to_string()]);
}
