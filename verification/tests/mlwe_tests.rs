use pabs_crf::errors::PabsCrfError;
use pabs_crf::mlwe::{MLWEKeyPair, MLWEParameters, Polynomial, PolynomialMatrix, PolynomialVector};
use pabs_crf::mlwe_sig::MLWESignature;
use rand::thread_rng;

#[test]
fn test_mlwe_keygen_sign_verify_roundtrip() {
    let params = MLWEParameters::new_128();
    let mut rng = thread_rng();

    let kp = MLWEKeyPair::generate(&params, &mut rng);
    let message = b"Test message for MLWE signature";
    let context = b"test context";
    let sig = MLWESignature::try_sign(&params, &kp, message, context, &mut rng, &[], &[]).unwrap();

    assert!(MLWESignature::verify(&params, &kp, message, context, &sig, &[], &[]), "Valid signature should verify");
}

#[test]
fn test_mlwe_wrong_message_fails() {
    let params = MLWEParameters::new_128();
    let mut rng = thread_rng();

    let kp = MLWEKeyPair::generate(&params, &mut rng);
    let message = b"Original message";
    let context = b"test context";
    let sig = MLWESignature::try_sign(&params, &kp, message, context, &mut rng, &[], &[]).unwrap();

    let wrong_message = b"Wrong message";
    assert!(
        !MLWESignature::verify(&params, &kp, wrong_message, context, &sig, &[], &[]),
        "Signature on wrong message should NOT verify"
    );
}

#[test]
fn test_mlwe_wrong_key_fails() {
    let params = MLWEParameters::new_128();
    let mut rng = thread_rng();

    let kp1 = MLWEKeyPair::generate(&params, &mut rng);
    let kp2 = MLWEKeyPair::generate(&params, &mut rng);
    let message = b"Test message";
    let context = b"test context";

    let sig = MLWESignature::try_sign(&params, &kp1, message, context, &mut rng, &[], &[]).unwrap();

    assert!(
        !MLWESignature::verify(&params, &kp2, message, context, &sig, &[], &[]),
        "Signature with wrong public key should NOT verify"
    );
}

#[test]
fn test_mlwe_public_key_consistency() {
    let params = MLWEParameters::new_128();
    let mut rng = thread_rng();

    let kp = MLWEKeyPair::generate(&params, &mut rng);

    let as_result = MLWEKeyPair::matrix_vector_mul(&kp.matrix_a, &kp.secret_key, params.q);
    let expected_t = PolynomialVector {
        elements: as_result
            .elements
            .iter()
            .zip(kp.error_vector.elements.iter())
            .map(|(a_i, e_i)| a_i.add(e_i, params.q))
            .collect(),
    };

    for (t_i, exp_i) in kp.public_key.elements.iter().zip(expected_t.elements.iter()) {
        assert_eq!(t_i.coeffs, exp_i.coeffs, "Public key t must equal As + e");
    }
}

#[test]
fn test_matrix_vector_mul_ntt_matches_reference() {
    let params = MLWEParameters::new_128();
    let mut rng = thread_rng();
    let matrix = MLWEKeyPair::generate_matrix_a(&params, &mut rng);
    let vector = PolynomialVector {
        elements: (0..params.m).map(|_| Polynomial::rand_poly(params.n, params.eta1, &mut rng)).collect(),
    };

    let reference = PolynomialVector {
        elements: (0..matrix.rows)
            .map(|i| {
                let mut result = Polynomial::new(params.n);
                for j in 0..matrix.cols {
                    let prod = matrix.elements[i][j].mul(&vector.elements[j], params.q);
                    result = result.add(&prod, params.q);
                }
                result
            })
            .collect(),
    };
    let accelerated = MLWEKeyPair::matrix_vector_mul_ntt(&matrix, &vector, params.q);

    assert_eq!(reference, accelerated);
}

#[test]
fn test_mlwe_try_sign_returns_error_on_rejection_exhaustion() {
    let params = MLWEParameters {
        k: 1,
        n: 64,
        q: 8380417,
        eta1: 2,
        eta2: 2,
        beta: 0,
        gamma1: 1,
        gamma2: 95232,
        m: 1,
        ell: 1,
        base: 256,
        sigma_bits: 100.0f64.to_bits(),
        tau: 39,
    };
    let mut rng = thread_rng();

    let huge_secret = Polynomial { coeffs: vec![params.q as i32 / 2; params.n] };
    let kp = MLWEKeyPair {
        public_key: PolynomialVector::new(1, params.n),
        secret_key: PolynomialVector { elements: vec![huge_secret] },
        error_vector: PolynomialVector::new(1, params.n),
        matrix_a: PolynomialMatrix::new(1, 1, params.n),
    };

    let result = MLWESignature::try_sign(&params, &kp, b"msg", b"ctx", &mut rng, &[], &[]);
    assert!(matches!(result, Err(PabsCrfError::SignFailed(_))));
}

#[test]
fn test_challenge_includes_delta_bytes() {
    let params = MLWEParameters::new_128();
    let mut rng = thread_rng();
    let kp = MLWEKeyPair::generate(&params, &mut rng);
    let message = b"delta binding test";
    let context = b"ctx";
    let tr = MLWESignature::compute_system_tr(&kp.matrix_a, &kp.public_key);
    let pk_hash = MLWESignature::compute_pk_hash(&kp.public_key, params.q);

    let w1 = PolynomialVector::new(params.k, params.n);

    let c_no_delta = MLWESignature::derive_challenge_public(&params, &w1, message, context, &tr, &pk_hash, &[]);
    let c_delta_a = MLWESignature::derive_challenge_public(&params, &w1, message, context, &tr, &pk_hash, b"delta_A");
    let c_delta_b = MLWESignature::derive_challenge_public(&params, &w1, message, context, &tr, &pk_hash, b"delta_B");

    assert_ne!(
        c_no_delta.coeffs, c_delta_a.coeffs,
        "Challenge with empty delta MUST differ from challenge with non-empty delta"
    );
    assert_ne!(c_delta_a.coeffs, c_delta_b.coeffs, "Different delta values MUST produce different challenges (P1-9 binding)");
}

#[test]
fn test_decompose_roundtrip_algebraic_identity() {
    let q = 8380417u32;
    let gamma2 = 95232i32;

    for base in [0, gamma2, 2 * gamma2, q as i32 / 2, q as i32 - gamma2] {
        for offset in -3..=3 {
            let r = base + offset;
            let (r0, r1) = MLWEParameters::decompose(r, gamma2, q);
            let recovered = r1 * 2 * gamma2 + r0;
            let r_mod = ((r % q as i32) + q as i32) % q as i32;
            let recovered_mod = ((recovered % q as i32) + q as i32) % q as i32;
            assert_eq!(r_mod, recovered_mod, "r1*2g2 + r0 should recover r mod q; failed at r={}", r);
            assert!(r0.abs() <= gamma2, "|r0|={} should be <= gamma2={} for r={}", r0.abs(), gamma2, r);
        }
    }
}

#[test]
fn test_mod_reduce_coefficient_internals() {
    let q = 8380417u32;
    for &c in &[-1234567i32, -1, 0, 1, 8380416, 8380417 + 5] {
        let reduced = ((c % q as i32) + q as i32) % q as i32;
        assert!(reduced >= 0 && reduced < q as i32, "mod should produce value in [0,q)");
    }
}

#[test]
fn from_coeffs_reduces_into_range() {
    let q = 8380417u32;
    let p = Polynomial::from_coeffs(&[-1234567, -1, 0, 1, 8380416, 8380417 + 5], q);
    assert_eq!(p.coeffs, vec![8380417 - 1234567, 8380416, 0, 1, 8380416, 5]);
}

#[test]
fn test_make_hint_decompose_consistency_at_canonical_representatives() {
    let q = 8380417u32;
    let q_i = q as i32;
    let gamma2 = 95232i32;
    for idx in 0..65 {
        let r_base = ((idx * (q / 65)) % q) as i32;
        for z_gap in [0i32, 1, gamma2 / 2, gamma2, 2 * gamma2 - 1] {
            let r_mod = ((r_base % q_i) + q_i) % q_i;
            let z_mod = ((z_gap % q_i) + q_i) % q_i;
            let hint_from_func = MLWEParameters::make_hint(z_mod, r_mod, gamma2, q);
            assert!(hint_from_func == 0 || hint_from_func == 1, "hint must be boolean, was {}", hint_from_func);
            let h0 = MLWEParameters::use_hint(0, r_mod, gamma2, q);
            let (_, r1) = MLWEParameters::decompose(r_mod, gamma2, q);
            assert_eq!(h0, r1, "use_hint(h=0, r) should match decompose(r).1");
        }
    }
}

#[test]
fn test_power2round_algebraic_identity() {
    for d in [8, 13, 17] {
        for v in [0i32, 1, 4095, 65536, 131072, 1 << 19, 8380416 / 2] {
            let (r0, r1) = MLWEParameters::power2round(v, d);
            let reconstructed = r1 * (1i32 << d) + r0;
            let mask = (1i32 << d) - 1;
            assert_eq!(v & mask, r0, "power2round low bits disagreement");
            assert_eq!(reconstructed, v, "power2round: r1*2^d + r0 should recover original for v={},d={}", v, d);
        }
    }
}

#[test]
fn test_matrix_a_from_seed_deterministic() {
    let params = MLWEParameters::new_128();
    let seed = [42u8; 32];
    let a1 = MLWEKeyPair::generate_matrix_a_from_seed(&seed, &params);
    let a2 = MLWEKeyPair::generate_matrix_a_from_seed(&seed, &params);
    assert_eq!(a1.rows, a2.rows);
    assert_eq!(a1.cols, a2.cols);
    for (row1, row2) in a1.elements.iter().zip(a2.elements.iter()) {
        for (p1, p2) in row1.iter().zip(row2.iter()) {
            assert_eq!(p1.coeffs, p2.coeffs);
        }
    }
}

#[test]
fn test_matrix_a_different_seeds() {
    let params = MLWEParameters::new_128();
    let seed1 = [1u8; 32];
    let seed2 = [2u8; 32];
    let a1 = MLWEKeyPair::generate_matrix_a_from_seed(&seed1, &params);
    let a2 = MLWEKeyPair::generate_matrix_a_from_seed(&seed2, &params);
    let mut any_diff = false;
    for (row1, row2) in a1.elements.iter().zip(a2.elements.iter()) {
        for (p1, p2) in row1.iter().zip(row2.iter()) {
            if p1.coeffs != p2.coeffs {
                any_diff = true;
                break;
            }
        }
        if any_diff {
            break;
        }
    }
    assert!(any_diff, "Different seeds should produce different matrices");
}

#[test]
fn test_matrix_a_coefficients_in_range() {
    let params = MLWEParameters::new_128();
    let seed = [7u8; 32];
    let a = MLWEKeyPair::generate_matrix_a_from_seed(&seed, &params);
    let q = params.q;
    for row in &a.elements {
        for poly in row {
            for &c in &poly.coeffs {
                assert!(c >= 0 && c < q as i32, "Coefficient {} out of range [0, {})", c, q);
            }
        }
    }
}

#[test]
fn test_rand_poly_uniform_no_modular_bias() {
    let mut rng = thread_rng();
    let bound: u32 = 10;
    let range = (2 * bound + 1) as usize;
    let n_samples: usize = 200_000;
    let expected = n_samples as f64 / range as f64;
    let mut counts = vec![0u32; range];
    for _ in 0..n_samples {
        let poly = Polynomial::rand_poly_uniform(1, bound, &mut rng);
        let shifted = (poly.coeffs[0] + bound as i32) as usize;
        counts[shifted] += 1;
    }
    for (i, &c) in counts.iter().enumerate() {
        let deviation = ((c as f64) - expected).abs() / expected;
        assert!(
            deviation < 0.03,
            "bias detected at value {}: count={}, expected={:.1}, deviation={:.3}%",
            i as i32 - bound as i32,
            c,
            expected,
            deviation * 100.0
        );
    }

    let large_bound: u32 = 8380416;
    let poly = Polynomial::rand_poly_uniform(256, large_bound, &mut rng);
    for &c in &poly.coeffs {
        assert!(
            c >= -(large_bound as i32) && c <= large_bound as i32,
            "coefficient {} out of range [-{}, {}]",
            c,
            large_bound,
            large_bound
        );
    }
}
