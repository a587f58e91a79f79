use ed25519_dalek::SigningKey;
use pabs_crf::hardware_root::{FullChainProtection, HardwarePunctureState, HardwareRootOfTrust, HardwareType, PunctureProof};
use rand::rngs::OsRng;

#[test]
fn test_hardware_puncture_state() {
    let mut state = HardwarePunctureState::new(HardwareType::SoftwareSimulated);
    assert!(!state.is_punctured(42));
    state.puncture(42);
    assert!(state.is_punctured(42));
    assert!(!state.is_punctured(43));
    assert_eq!(state.puncture_count(), 1);
}

#[test]
fn test_puncture_proof() {
    let mut state = HardwarePunctureState::new(HardwareType::SoftwareSimulated);
    state.puncture(100);
    let pubkey = state.get_pubkey().expect("should have pubkey");
    let proof = state.generate_puncture_proof(100);
    assert!(proof.punctured);
    assert!(proof.verify_with_pubkey(&pubkey));
    assert_eq!(proof.version, 1);
}

#[test]
fn test_hw_integrity_verification() {
    let mut state = HardwarePunctureState::new(HardwareType::SoftwareSimulated);
    state.puncture(1);
    state.puncture(2);
    assert!(state.verify_integrity());

    let mut tampered = state.clone();
    tampered.punctured_tags.insert(3);
    assert!(!tampered.verify_integrity());
}

#[test]
fn test_ed25519_signature_verification() {
    let mut state = HardwarePunctureState::new(HardwareType::SoftwareSimulated);
    state.puncture(42);
    state.puncture(99);

    assert!(state.verify(), "ed25519 signature over puncture state must verify");

    let pubkey = state.get_pubkey().unwrap();
    let proof = state.generate_puncture_proof(42);
    assert!(proof.verify_with_pubkey(&pubkey), "puncture proof must verify with correct pubkey");

    let mut csprng = OsRng;
    let wrong_signing_key = SigningKey::generate(&mut csprng);
    assert!(
        !proof.verify_with_pubkey(&wrong_signing_key.verifying_key()),
        "puncture proof must NOT verify with wrong pubkey"
    );
}

#[test]
fn test_tampered_signature_fails() {
    let mut state = HardwarePunctureState::new(HardwareType::SoftwareSimulated);
    state.puncture(1);
    assert!(state.verify());

    let mut tampered = state.clone();
    if !tampered.hw_signature.is_empty() {
        tampered.hw_signature[0] ^= 0xff;
    }
    assert!(!tampered.verify(), "tampered signature must fail ed25519 verification");
}

#[test]
fn test_puncture_proof_no_key_fails() {
    let proof = PunctureProof {
        tag: 1,
        punctured: true,
        version: 1,
        hw_signature: Vec::new(),
        hw_type: HardwareType::SoftwareSimulated,
        timestamp: 0,
    };
    assert!(!proof.verify(), "legacy verify() must return false without pubkey context");
}

#[test]
fn repeated_puncture_keeps_version_and_integrity() {
    let mut state = HardwarePunctureState::new(HardwareType::Tpm20);
    assert!(state.verify());
    state.puncture(7);
    state.puncture(7);
    assert_eq!(state.version, 1);
    assert_eq!(state.puncture_count(), 1);
    assert!(state.verify());
    let proof = state.generate_puncture_proof(8);
    assert!(!proof.punctured);
    assert_eq!(proof.hw_signature.len(), 64);
    assert!(proof.verify_with_pubkey_bytes(&state.hw_pubkey));
    assert!(!proof.verify_with_pubkey_bytes(&[0u8; 31]));
}

#[test]
fn puncture_with_foreign_key_breaks_integrity() {
    let own = SigningKey::generate(&mut OsRng);
    let other = SigningKey::generate(&mut OsRng);
    let mut state = HardwarePunctureState::new_with_keypair(HardwareType::SecureElement, &own);
    state.puncture_with_keypair(5, &own);
    assert!(state.verify());
    state.puncture_with_keypair(6, &other);
    assert!(!state.verify());
}

#[test]
fn test_full_chain_protection() {
    let mut fc = FullChainProtection::new(HardwareType::SoftwareSimulated, 10);
    fc.puncture_with_protection(1);
    fc.puncture_with_protection(2);
    assert!(fc.verify_puncture(1));
    assert!(fc.verify_puncture(2));
    assert!(!fc.verify_puncture(3));

    for _ in 0..1000 {
        fc.record_crf_operation();
    }

    assert!(fc.hw_integrity());
    assert_eq!(fc.puncture_count(), 2);
    assert_eq!(fc.crf_count(), 1000);
}
