use pabs_crf::mlwe::PolynomialVector;
use pabs_crf::pabs::{challenge_context, policy_digest};
use pabs_crf::policy::Policy;

#[test]
fn test_challenge_context_binds_public_metadata() {
    let digest = vec![7u8; 32];
    let mut gid = [3u8; 32];
    let base = challenge_context(&digest, 42, &gid, "top-tier-128");

    let mut different_digest = digest.clone();
    different_digest[0] ^= 0x01;
    assert_ne!(base, challenge_context(&different_digest, 42, &gid, "top-tier-128"));

    assert_ne!(base, challenge_context(&digest, 43, &gid, "top-tier-128"));

    gid[0] ^= 0x01;
    assert_ne!(base, challenge_context(&digest, 42, &gid, "top-tier-128"));

    assert_ne!(base, challenge_context(&digest, 42, &[3u8; 32], "top-tier-192"));
}

#[test]
fn challenge_context_layout() {
    let ctx = challenge_context(&[9u8], 1, &[0u8; 32], "x");
    let mut expected: Vec<u8> = b"PABS-CRF-v4-FS-context".to_vec();
    expected.extend_from_slice(&13u32.to_le_bytes());
    expected.extend_from_slice(b"policy_digest");
    expected.extend_from_slice(&1u32.to_le_bytes());
    expected.push(9);
    expected.extend_from_slice(&3u32.to_le_bytes());
    expected.extend_from_slice(b"tau");
    expected.extend_from_slice(&8u32.to_le_bytes());
    expected.extend_from_slice(&1u64.to_le_bytes());
    expected.extend_from_slice(&3u32.to_le_bytes());
    expected.extend_from_slice(b"gid");
    expected.extend_from_slice(&32u32.to_le_bytes());
    expected.extend_from_slice(&[0u8; 32]);
    expected.extend_from_slice(&16u32.to_le_bytes());
    expected.extend_from_slice(b"parameter_set_id");
    expected.extend_from_slice(&1u32.to_le_bytes());
    expected.extend_from_slice(b"x");
    assert_eq!(ctx, expected);
}

#[test]
fn policy_digest_is_order_insensitive() {
    let a = Policy::parse("admin AND finance").unwrap();
    let b = Policy::parse("finance AND admin").unwrap();
    let c = Policy::parse("admin OR finance").unwrap();
    assert_eq!(policy_digest(&a), policy_digest(&b));
    assert_ne!(policy_digest(&a), policy_digest(&c));
    assert_eq!(policy_digest(&a).len(), 32);
}

#[test]
fn test_center_mod_q_reduction_range() {
    let q: u32 = 4096;
    let half_q = q as i64 / 2;

    let cases: Vec<i32> = vec![
        0,
        1,
        -1,
        (q / 2) as i32,
        (q / 2 + 1) as i32,
        (q - 1) as i32,
        -(q as i32 / 2),
        -((q / 2 + 1) as i32),
        i32::MIN + 1,
        i32::MAX,
    ];

    for &v in &cases {
        let reduced = ((v as i64 % q as i64) + q as i64) % q as i64;
        let centered = if reduced > half_q { reduced - q as i64 } else { reduced };
        assert!(
            centered > -half_q && centered <= half_q,
            "centered value {} not in (-q/2, q/2] for input {}, q={}",
            centered,
            v,
            q
        );
    }
}

#[test]
fn test_polynomial_vector_mod_q_reduction() {
    let q: u32 = 4096;
    let n = 4;
    let m = 2;
    let half_q = q as i64 / 2;

    let mut pv = PolynomialVector::new(m, n);
    pv.elements[0].coeffs = vec![5000i32, -5000i32, (q as i32) + 100, -(q as i32) - 100];
    pv.elements[1].coeffs = vec![0, q as i32 - 1, 1, -1];

    for j in 0..m {
        for coeff_idx in 0..n {
            let v = pv.elements[j].coeffs[coeff_idx];
            let reduced = ((v as i64 % q as i64) + q as i64) % q as i64;
            let centered = if reduced > half_q { reduced - q as i64 } else { reduced };
            pv.elements[j].coeffs[coeff_idx] = centered as i32;
        }
    }

    for j in 0..m {
        for coeff_idx in 0..n {
            let c = pv.elements[j].coeffs[coeff_idx] as i64;
            assert!(
                c > -half_q && c <= half_q,
                "coefficient {} not in (-q/2, q/2] at poly={}, idx={}",
                c,
                j,
                coeff_idx
            );
        }
    }

    assert_eq!(pv.elements[0].coeffs[0], 5000 - q as i32);
    assert_eq!(pv.elements[0].coeffs[1], -5000 + q as i32);
    assert_eq!(pv.elements[0].coeffs[2], 100);
    assert_eq!(pv.elements[0].coeffs[3], -100);
}

#[test]
fn test_i64_accumulator_no_intermediate_overflow() {
    let q: u32 = 8380417;
    let n = 4;
    let m = 2;

    let mut acc_i64: Vec<Vec<i64>> = (0..m).map(|_| vec![0i64; n]).collect();

    let large_coeff: i64 = (q as i64) / 2 - 1;
    let recon_coeff: i64 = (q as i64) / 2 - 1;

    for _ in 0..3 {
        for j in 0..m {
            for coeff_idx in 0..n {
                acc_i64[j][coeff_idx] += recon_coeff * large_coeff;
            }
        }
    }

    for j in 0..m {
        for coeff_idx in 0..n {
            let v = acc_i64[j][coeff_idx];
            assert!(v.abs() < i64::MAX / 2, "i64 accumulator should not overflow: got {}", v);
            let reduced = ((v % q as i64) + q as i64) % q as i64;
            let centered = if reduced > q as i64 / 2 { reduced - q as i64 } else { reduced };
            assert!(centered.abs() <= q as i64 / 2, "centered value {} should be in (-q/2, q/2]", centered);
            let as_i32 = i32::try_from(centered);
            assert!(as_i32.is_ok(), "centered value {} should fit in i32 after mod q reduction", centered);
        }
    }
}
