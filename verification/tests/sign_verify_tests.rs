use pabs_crf::errors::PabsCrfError;
use pabs_crf::gaussian::CdtGaussianSampler;
use pabs_crf::keygen::{keygen_structured, UserSecretKey};
use pabs_crf::mlwe::{MLWEParameters, Polynomial, PolynomialVector};
use pabs_crf::pabs::types::{CompressedFirewallSignature, FirewallSignature};
use pabs_crf::policy::Policy;
use pabs_crf::setup::{setup_structured, PublicParameters};
use pabs_crf::sign::{sign_structured, Sign, Signature};
use pabs_crf::verify::{verify_signature_struct, Verify};

fn cdt_sampler(sigma: f64) -> CdtGaussianSampler {
    let tail_cutoff = (sigma * 14.0).ceil() as usize;
    let sigma_sq_2 = 2.0 * sigma * sigma;
    let scale = (u64::MAX as f64) + 1.0;
    let rho: Vec<f64> = (0..=tail_cutoff).map(|x| (-((x as f64) * (x as f64)) / sigma_sq_2).exp()).collect();
    let z: f64 = rho[0] + 2.0 * rho[1..].iter().sum::<f64>();
    let mut table = Vec::with_capacity(tail_cutoff + 1);
    let mut cumulative: f64 = 0.0;
    for x in 0..=tail_cutoff {
        cumulative += if x == 0 { rho[x] } else { 2.0 * rho[x] };
        table.push(((cumulative / z).min(1.0) * scale) as u64);
    }
    CdtGaussianSampler::from_table(table, (sigma * 256.0) as u64, u64::MAX)
}

fn user_key(pp: &PublicParameters, msk: &pabs_crf::setup::MasterSecretKey, attrs: &[&str]) -> UserSecretKey {
    let sampler = cdt_sampler(f64::from_bits(pp.params.sigma_bits));
    let mut rng = rand::thread_rng();
    keygen_structured(pp, msk, attrs, &sampler, &mut rng).unwrap()
}

#[test]
fn test_compressed_signature_encodes_witness_rows() {
    let params = MLWEParameters::new_128();
    let policy = Policy::parse("admin AND finance").expect("policy should parse");

    let mut z = PolynomialVector::new(params.m, params.n);
    for (poly_idx, poly) in z.elements.iter_mut().enumerate() {
        for (coeff_idx, coeff) in poly.coeffs.iter_mut().enumerate() {
            *coeff = ((poly_idx + coeff_idx) as i32 % 17) - 8;
        }
    }

    let mut challenge = Polynomial::new(params.n);
    challenge.coeffs[1] = 1;
    challenge.coeffs[9] = -1;

    let signature = FirewallSignature {
        z,
        challenge,
        hints: None,
        policy: policy.clone(),
        message_hash: vec![42u8; 32],
        attributes_used: vec!["admin".to_string(), "finance".to_string()],
        policy_digest: vec![1u8; 32],
        firewall_delta: PolynomialVector::new(params.k, params.n),
        firewall_tag: vec![3u8; 32],
        parameter_set_id: "top-tier-128".to_string(),
        pk_hash: Vec::new(),
        crf_seed: None,
        tau: 0,
        gid: [0u8; 32],
    };

    let compressed = signature.compress(&params).expect("compression should succeed");
    let blob = compressed.to_bytes().expect("compression should succeed");
    let decoded = CompressedFirewallSignature::from_bytes(&blob).expect("compressed signature should deserialize");

    assert_eq!(decoded.packed_z, compressed.packed_z);
    assert_eq!(decoded.encoded_c, compressed.encoded_c);
    assert_eq!(decoded.witness_rows, vec![0, 1]);
    assert_eq!(decoded.witness_attributes(&policy).expect("witness rows should decode"), signature.attributes_used);
}

#[test]
fn test_puncture_prevents_signing() {
    let (pp, msk) = setup_structured(128);
    let mut sk = user_key(&pp, &msk, &["admin", "finance"]);
    let policy = Policy::parse("admin AND finance").unwrap();
    let message = b"puncture test message";

    sk.puncture(42).unwrap();
    let err = sign_structured(&sk, message, &policy, 42).unwrap_err();
    assert!(matches!(err, PabsCrfError::InvalidInput(ref s) if s.contains("punctured tag tau=42")));
}

#[test]
fn test_sign_with_non_punctured_tag_succeeds() {
    let (pp, msk) = setup_structured(128);
    let mut sk = user_key(&pp, &msk, &["admin", "finance"]);
    let policy = Policy::parse("admin AND finance").unwrap();
    let message = b"non-punctured tag test";

    sk.puncture(1).unwrap();
    let sig = sign_structured(&sk, message, &policy, 2).unwrap();
    assert!(verify_signature_struct(&pp, message, &policy, &sig).unwrap());
}

#[test]
fn test_puncture_tag_included_in_challenge() {
    let (pp, msk) = setup_structured(128);
    let sk = user_key(&pp, &msk, &["admin", "finance"]);
    let policy = Policy::parse("admin AND finance").unwrap();
    let message = b"challenge divergence test";

    let sig42 = sign_structured(&sk, message, &policy, 42).unwrap();
    let sig43 = sign_structured(&sk, message, &policy, 43).unwrap();

    assert_ne!(sig42.challenge.coeffs, sig43.challenge.coeffs);
}

#[test]
fn test_verify_checks_tau() {
    let (pp, msk) = setup_structured(128);
    let sk = user_key(&pp, &msk, &["admin", "finance"]);
    let policy = Policy::parse("admin AND finance").unwrap();
    let message = b"tau binding verification test";

    let sig = sign_structured(&sk, message, &policy, 42).unwrap();
    assert_eq!(sig.tau, 42);
    assert!(verify_signature_struct(&pp, message, &policy, &sig).unwrap());
}

#[test]
fn test_verify_rejects_bound_metadata_tampering() {
    let (pp, msk) = setup_structured(128);
    let sk = user_key(&pp, &msk, &["admin", "finance"]);
    let policy = Policy::parse("admin AND finance").unwrap();
    let message = b"metadata binding verification test";

    let sig = sign_structured(&sk, message, &policy, 42).unwrap();
    assert!(verify_signature_struct(&pp, message, &policy, &sig).unwrap());

    let assert_rejected = |label: &str, tampered: Signature| {
        assert!(
            !verify_signature_struct(&pp, message, &policy, &tampered).unwrap(),
            "tampered {} field was accepted",
            label
        );
    };

    let mut tampered = sig.clone();
    tampered.parameter_set_id = "top-tier-192".to_string();
    assert_rejected("parameter_set_id", tampered);

    let mut tampered = sig.clone();
    tampered.pk_hash[0] ^= 0x01;
    assert_rejected("pk_hash", tampered);

    let mut tampered = sig.clone();
    tampered.policy_digest[0] ^= 0x01;
    assert_rejected("policy_digest", tampered);

    let mut tampered = sig.clone();
    tampered.message_hash[0] ^= 0x01;
    assert_rejected("message_hash", tampered);

    let mut tampered = sig.clone();
    tampered.tau ^= 0x01;
    assert_rejected("tau", tampered);

    let mut tampered = sig.clone();
    tampered.gid[0] ^= 0x01;
    assert_rejected("gid", tampered);

    let mut tampered = sig.clone();
    tampered.firewall_tag[0] ^= 0x01;
    assert_rejected("firewall_tag", tampered);

    let mut tampered = sig.clone();
    let q = pp.params.q as i32;
    tampered.firewall_delta.elements[0].coeffs[0] = (tampered.firewall_delta.elements[0].coeffs[0] + 1).rem_euclid(q);
    assert_rejected("firewall_delta", tampered);
}

#[test]
fn test_verify_compressed_end_to_end() {
    let (pp, msk) = setup_structured(128);
    let sk = user_key(&pp, &msk, &["admin", "finance"]);
    let policy = Policy::parse("admin AND finance").unwrap();
    let message = b"compressed verification path";

    let signer = Sign::new();
    let verifier = Verify::new();
    let compressed =
        signer.sign_compressed_structured(&sk, message, &policy, 0).expect("compressed signing should succeed");

    assert!(verifier
        .verify_compressed_structured(&pp, message, &policy, &compressed)
        .expect("compressed verification should succeed"));

    let wrong_policy = Policy::parse("admin").unwrap();
    assert!(!verifier
        .verify_compressed_structured(&pp, message, &wrong_policy, &compressed)
        .expect("verification should return false on policy mismatch"));
}

#[test]
fn signing_with_unsatisfied_policy_is_a_policy_error() {
    let (pp, msk) = setup_structured(128);
    let sk = user_key(&pp, &msk, &["admin"]);
    let policy = Policy::parse("admin AND finance").unwrap();
    let err = sign_structured(&sk, b"m", &policy, 3).unwrap_err();
    assert!(matches!(err, PabsCrfError::PolicyError(_)));
}

#[test]
fn test_user_secret_key_zeroize() {
    let (pp, msk) = setup_structured(128);
    let mut sk = user_key(&pp, &msk, &["attr1", "attr2"]);
    sk.zeroize();
    assert!(sk.attributes.iter().all(|s| s.is_empty()));
    assert!(sk
        .preimages
        .iter()
        .all(|pv| pv.elements.iter().all(|p| p.coeffs.iter().all(|&c| c == 0))));
    assert!(sk.puncture_count == 0);
}

#[test]
fn test_master_secret_key_zeroize() {
    let (_, mut msk) = setup_structured(128);
    msk.zeroize();
    assert!(msk
        .matrix_a
        .elements
        .iter()
        .all(|row| row.iter().all(|p| p.coeffs.iter().all(|&c| c == 0))));
    assert!(msk
        .trapdoor_t
        .elements
        .iter()
        .all(|row| row.iter().all(|p| p.coeffs.iter().all(|&c| c == 0))));
}
