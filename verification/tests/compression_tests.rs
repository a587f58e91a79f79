use pabs_crf::compression::{
    challenge_blob_valid, decode_challenge, encode_challenge, pack_hints, pack_polyvec_mod_q, pack_z, unpack_hints,
    unpack_polyvec_mod_q, unpack_z,
};
use pabs_crf::mlwe::{Polynomial, PolynomialVector};

#[test]
fn test_unpack_hints_short_input_returns_error() {
    let result = unpack_hints(&[0u8; 2], 4, 256);
    assert!(result.is_err());
}

#[test]
fn test_unpack_hints_truncated_data_returns_error() {
    let data = [5, 0, 0, 0, 0, 0];
    let result = unpack_hints(&data, 4, 256);
    assert!(result.is_err());
}

#[test]
fn test_unpack_hints_valid_data() {
    let mut data = vec![1, 0, 0, 0];
    data.extend_from_slice(&0u16.to_le_bytes());
    data.extend_from_slice(&0u16.to_le_bytes());
    let result = unpack_hints(&data, 4, 256);
    assert!(result.is_ok());
    let hints = result.unwrap();
    assert_eq!(hints.elements[0].coeffs[0], 1);
}

#[test]
fn test_unpack_hints_index_out_of_range() {
    let mut data = vec![1, 0, 0, 0];
    data.extend_from_slice(&10u16.to_le_bytes());
    data.extend_from_slice(&0u16.to_le_bytes());
    let result = unpack_hints(&data, 4, 256);
    assert!(result.is_err());
}

#[test]
fn test_pack_unpack_hints_u16_roundtrip() {
    let k = 4;
    let n = 512;
    let mut hints = PolynomialVector::new(k, n);
    hints.elements[1].coeffs[300] = 1;
    hints.elements[3].coeffs[500] = 1;
    let packed = pack_hints(&hints);
    let unpacked = unpack_hints(&packed, k, n).unwrap();
    assert_eq!(unpacked.elements[1].coeffs[300], 1);
    assert_eq!(unpacked.elements[3].coeffs[500], 1);
}

#[test]
fn pack_hints_exact_bytes() {
    let mut hints = PolynomialVector::new(2, 4);
    hints.elements[1].coeffs[2] = 1;
    assert_eq!(pack_hints(&hints), vec![1, 0, 0, 0, 1, 0, 2, 0]);
}

#[test]
fn challenge_encoding_roundtrip() {
    let mut c = Polynomial::new(8);
    c.coeffs[1] = 1;
    c.coeffs[5] = -1;
    c.coeffs[6] = 1;
    let enc = encode_challenge(&c, 8);
    assert_eq!(enc, vec![2, 1, 0, 6, 0, 5, 0]);
    assert!(challenge_blob_valid(&enc, 8));
    assert!(!challenge_blob_valid(&enc, 6));
    assert!(!challenge_blob_valid(&[], 8));
    let d = decode_challenge(&enc, 8);
    assert_eq!(d.coeffs, c.coeffs);
}

#[test]
fn z_packing_roundtrip() {
    let gamma1 = 131072u32;
    let mut z = PolynomialVector::new(2, 4);
    z.elements[0].coeffs = vec![-131071, 0, 5, 131071];
    z.elements[1].coeffs = vec![1, -1, 2, -2];
    let packed = pack_z(&z, gamma1, 4);
    assert_eq!(packed.len(), (18 * 8 + 7) / 8);
    let back = unpack_z(&packed, 2, 4, gamma1).unwrap();
    assert_eq!(back.elements[0].coeffs, z.elements[0].coeffs);
    assert_eq!(back.elements[1].coeffs, z.elements[1].coeffs);
    assert!(unpack_z(&packed[..packed.len() - 1], 2, 4, gamma1).is_err());
}

#[test]
fn mod_q_packing_roundtrip() {
    let q = 8380417u32;
    let mut v = PolynomialVector::new(1, 3);
    v.elements[0].coeffs = vec![-1, 8380416, 17];
    let packed = pack_polyvec_mod_q(&v, q);
    let back = unpack_polyvec_mod_q(&packed, 1, 3, q).unwrap();
    assert_eq!(back.elements[0].coeffs, vec![8380416, 8380416, 17]);
    assert!(unpack_polyvec_mod_q(&packed[..1], 1, 3, q).is_err());
}
