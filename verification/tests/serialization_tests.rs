use pabs_crf::errors::PabsCrfError;
use pabs_crf::pabs::types::CompressedFirewallSignature;
use pabs_crf::serialization::{
    decode_compact_layout, deserialize_compressed_signature, encode_compact_layout, serialize_compressed_signature,
};

fn make_minimal_compressed_sig() -> CompressedFirewallSignature {
    CompressedFirewallSignature {
        packed_z: vec![0u8; 64],
        encoded_c: vec![0u8; 32],
        packed_hints: None,
        packed_delta: vec![0u8; 64],
        witness_rows: vec![0],
        policy_digest: vec![0u8; 32],
        firewall_tag: vec![0u8; 32],
        parameter_set_id: "top-tier-128".to_string(),
        pk_hash: Vec::new(),
        crf_seed: None,
        tau: 0,
        gid: [0u8; 32],
    }
}

#[test]
fn test_valid_signature_roundtrip() {
    let sig = make_minimal_compressed_sig();
    let blob = serialize_compressed_signature(&sig).expect("serialization should succeed");
    let recovered = deserialize_compressed_signature(&blob).expect("deserialization should succeed");
    assert_eq!(sig, recovered);
}

#[test]
fn test_nonzero_z_roundtrip() {
    let mut sig = make_minimal_compressed_sig();
    sig.packed_z = (0..128).map(|i| (i * 7 + 3) as u8).collect();
    let blob = serialize_compressed_signature(&sig).expect("serialization should succeed");
    let recovered = deserialize_compressed_signature(&blob).expect("deserialization should succeed");
    assert_eq!(sig, recovered);
}

#[test]
fn test_zstd_decompress_size_limit() {
    let oversized_raw = vec![0u8; 11 * 1024 * 1024];
    let compressed_blob = zstd::encode_all(oversized_raw.as_slice(), 1).expect("compressing zeros should succeed");
    let result = deserialize_compressed_signature(&compressed_blob);
    match result {
        Err(PabsCrfError::CompressionError(msg)) => {
            assert!(msg.contains("exceeds"), "Expected size-limit error, got: {}", msg);
        },
        other => panic!("Expected CompressionError, got: {:?}", other),
    }
}

#[test]
fn compact_layout_roundtrip_with_hints() {
    let mut sig = make_minimal_compressed_sig();
    sig.packed_hints = Some(vec![1, 0, 0, 0, 2, 0, 3, 0]);
    sig.pk_hash = vec![9u8; 32];
    sig.witness_rows = vec![3, 1, 4];
    sig.tau = 77;
    let raw = encode_compact_layout(&sig);
    assert_eq!(&raw[0..4], b"PABS");
    assert_eq!(raw.len(), 114 + 64 + 64 + 32 + 8 + 32 + 6 + 12 + 13);
    let back = decode_compact_layout(&raw).unwrap();
    assert_eq!(back, sig);
}

#[test]
fn truncated_layout_is_rejected() {
    let raw = encode_compact_layout(&make_minimal_compressed_sig());
    let err = decode_compact_layout(&raw[..raw.len() - 1]).unwrap_err();
    assert!(matches!(err, PabsCrfError::DeserializationError(_)));
}
