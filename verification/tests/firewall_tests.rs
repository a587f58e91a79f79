use pabs_crf::errors::PabsCrfError;
use pabs_crf::firewall::{serialize_polynomial_vector_for_hash, StrongFirewall};
use pabs_crf::mlwe::{MLWEKeyPair, MLWEParameters, Polynomial, PolynomialMatrix, PolynomialVector};
use pabs_crf::pabs::types::CorePredicateSignature;
use pabs_crf::policy::Policy;

fn small_params() -> MLWEParameters {
    let mut p = MLWEParameters::new_128();
    p.k = 2;
    p.m = 3;
    p.n = 4;
    p
}

fn core_signature(params: &MLWEParameters) -> CorePredicateSignature {
    let mut z = PolynomialVector::new(params.m, params.n);
    z.elements[0].coeffs[0] = 5;
    z.elements[1].coeffs[2] = params.q as i32 - 3;
    let mut challenge = Polynomial::new(params.n);
    challenge.coeffs[1] = 1;
    CorePredicateSignature {
        z,
        challenge,
        hints: Some(PolynomialVector::new(params.k, params.n)),
        policy: Policy::parse("admin").unwrap(),
        message_hash: vec![1u8; 32],
        attributes_used: vec!["admin".to_string()],
        policy_digest: vec![2u8; 32],
        parameter_set_id: "top-tier-128".to_string(),
        gid: [4u8; 32],
    }
}

fn matrix(params: &MLWEParameters) -> PolynomialMatrix {
    MLWEKeyPair::generate_matrix_a_from_seed(&[9u8; 32], params)
}

#[test]
fn hash_bytes_are_i64_little_endian() {
    let mut v = PolynomialVector::new(2, 1);
    v.elements[0].coeffs[0] = -1;
    v.elements[1].coeffs[0] = 2;
    let mut expected = (-1i64).to_le_bytes().to_vec();
    expected.extend_from_slice(&2i64.to_le_bytes());
    assert_eq!(serialize_polynomial_vector_for_hash(&v), expected);
}

#[test]
fn precommit_rejects_mask_of_wrong_width() {
    let params = small_params();
    let fw = StrongFirewall::new(params, 3);
    let err = fw.precommit_with_mask(&matrix(&params), PolynomialVector::new(params.m + 1, params.n)).unwrap_err();
    assert!(matches!(err, PabsCrfError::InvalidInput(_)));
}

#[test]
fn precommit_binds_delta_bytes() {
    let params = small_params();
    let fw = StrongFirewall::new(params, 3);
    let a = matrix(&params);
    let mut mask = PolynomialVector::new(params.m, params.n);
    mask.elements[0].coeffs[0] = 1;
    let pc = fw.precommit_with_mask(&a, mask).unwrap();
    let expected = MLWEKeyPair::matrix_vector_mul(&a, &{
        let mut m = PolynomialVector::new(params.m, params.n);
        m.elements[0].coeffs[0] = 1;
        m
    }, params.q);
    assert_eq!(pc.delta(), &expected);
    assert_eq!(pc.delta_bytes(), serialize_polynomial_vector_for_hash(&expected).as_slice());
}

#[test]
fn transform_is_always_refused() {
    let params = small_params();
    let a = matrix(&params);
    let err = StrongFirewall::new(params, 3).transform(core_signature(&params), &a, &[], 0).unwrap_err();
    assert!(matches!(err, PabsCrfError::InvalidInput(_)));
    let err = StrongFirewall::new(params, 0).transform(core_signature(&params), &a, &[], 0).unwrap_err();
    assert!(matches!(err, PabsCrfError::InvalidParameters(_)));
}

#[test]
fn transform_with_mask_produces_valid_metadata() {
    let params = small_params();
    let a = matrix(&params);
    let fw = StrongFirewall::new(params, 3);
    let mut mask = PolynomialVector::new(params.m, params.n);
    mask.elements[0].coeffs[0] = -2;
    let sig = fw.transform_with_mask(core_signature(&params), &a, mask, &[7u8; 32], 11).unwrap();
    assert_eq!(sig.z.elements[0].coeffs[0], 3);
    assert_eq!(sig.z.elements[1].coeffs[2], params.q as i32 - 3);
    assert_eq!(sig.tau, 11);
    assert_eq!(sig.pk_hash, vec![7u8; 32]);
    assert_eq!(sig.firewall_tag.len(), 32);
    assert!(fw.validate_metadata(&sig).is_ok());
    let mut tampered = sig.clone();
    tampered.tau = 12;
    assert!(matches!(fw.validate_metadata(&tampered), Err(PabsCrfError::VerificationFailed(_))));
}

#[test]
fn finalize_rejects_precommitment_for_other_matrix() {
    let params = small_params();
    let a = matrix(&params);
    let b = MLWEKeyPair::generate_matrix_a_from_seed(&[8u8; 32], &params);
    let fw = StrongFirewall::new(params, 3);
    let mut mask = PolynomialVector::new(params.m, params.n);
    mask.elements[2].coeffs[3] = 1;
    let pc = fw.precommit_with_mask(&a, mask).unwrap();
    let err = fw.finalize_precommitted(core_signature(&params), &b, pc, &[], 0).unwrap_err();
    assert!(matches!(err, PabsCrfError::SecurityViolation(_)));
}

#[test]
fn rejection_check_refuses_large_response() {
    let params = small_params();
    let a = matrix(&params);
    let fw = StrongFirewall::new(params, 3);
    let mut mask = PolynomialVector::new(params.m, params.n);
    mask.elements[0].coeffs[0] = params.gamma1 as i32;
    let err = fw.transform_with_mask(core_signature(&params), &a, mask, &[], 0).unwrap_err();
    assert!(matches!(err, PabsCrfError::SecurityViolation(_)));
}

#[test]
fn test_error_message_has_kind_prefix() {
    let err = PabsCrfError::PolicyError("bad policy".to_string());
    assert_eq!(err.message(), "Policy error: bad policy");
    let err = PabsCrfError::CompressionError(String::new());
    assert_eq!(err.message(), "Compression error: ");
}
