use pabs_crf::mlwe::{MLWEKeyPair, MLWEParameters};
use pabs_crf::trapdoor::StrictTrapdoor;

#[test]
fn test_same_seed_produces_same_a_prime() {
    let params = MLWEParameters::new_128();
    let seed = [42u8; 32];
    let a_prime_1 = MLWEKeyPair::generate_a_prime_from_seed(&seed, &params);
    let a_prime_2 = MLWEKeyPair::generate_a_prime_from_seed(&seed, &params);
    assert_eq!(a_prime_1.rows, a_prime_2.rows);
    assert_eq!(a_prime_1.cols, a_prime_2.cols);
    for (row1, row2) in a_prime_1.elements.iter().zip(a_prime_2.elements.iter()) {
        for (p1, p2) in row1.iter().zip(row2.iter()) {
            assert_eq!(p1.coeffs, p2.coeffs);
        }
    }
}

#[test]
fn test_a_prime_coefficients_in_range() {
    let params = MLWEParameters::new_128();
    let seed = [7u8; 32];
    let a_prime = MLWEKeyPair::generate_a_prime_from_seed(&seed, &params);
    let q = params.q;
    for row in &a_prime.elements {
        for poly in row {
            for &c in &poly.coeffs {
                assert!(c >= 0 && c < q as i32, "Coefficient {} out of range [0, {})", c, q);
            }
        }
    }
}

#[test]
fn test_different_seed_produces_different_a_prime() {
    let params = MLWEParameters::new_128();
    let seed1 = [1u8; 32];
    let seed2 = [2u8; 32];
    let a_prime_1 = MLWEKeyPair::generate_a_prime_from_seed(&seed1, &params);
    let a_prime_2 = MLWEKeyPair::generate_a_prime_from_seed(&seed2, &params);
    let mut any_diff = false;
    for (row1, row2) in a_prime_1.elements.iter().zip(a_prime_2.elements.iter()) {
        for (p1, p2) in row1.iter().zip(row2.iter()) {
            if p1.coeffs != p2.coeffs {
                any_diff = true;
                break;
            }
        }
        if any_diff {
            break;
        }
    }
    assert!(any_diff, "Different seeds should produce different A-prime matrices");
}

#[test]
fn test_full_a_matrix_coefficients_in_range() {
    let params = MLWEParameters::new_128();
    let public_seed = [13u8; 32];
    let a_prime = MLWEKeyPair::generate_a_prime_from_seed(&public_seed, &params);
    let mut rng = rand::thread_rng();
    let strict = StrictTrapdoor::new(&params);
    let (a_full, _) = strict.generate_with_a_prime(a_prime, &mut rng).unwrap();
    let q = params.q;
    for row in &a_full.elements {
        for poly in row {
            for &c in &poly.coeffs {
                assert!(c >= 0 && c < q as i32, "Coefficient {} out of range [0, {})", c, q);
            }
        }
    }
}

#[test]
fn test_public_seed_does_not_determine_trapdoor() {
    let params = MLWEParameters::new_128();
    let public_seed = [41u8; 32];
    let mut rng = rand::thread_rng();
    let strict = StrictTrapdoor::new(&params);
    let (a1, t1) = strict.generate_with_a_prime(MLWEKeyPair::generate_a_prime_from_seed(&public_seed, &params), &mut rng).unwrap();
    let (a2, t2) = strict.generate_with_a_prime(MLWEKeyPair::generate_a_prime_from_seed(&public_seed, &params), &mut rng).unwrap();

    assert_ne!(t1, t2, "Independent secret seeds must produce different trapdoors");
    assert_ne!(a1, a2, "The public seed fixes A-prime, not the trapdoor-dependent full matrix");
}
