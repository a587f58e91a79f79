use pabs_crf::lsss::LSSSShareMatrix;

#[test]
fn test_single_attribute() {
    let matrix = LSSSShareMatrix::from_boolean_tree("admin").unwrap();
    assert_eq!(matrix.rows(), 1);
    assert!(matrix.is_satisfied(&["admin".to_string()]));
    assert!(!matrix.is_satisfied(&["user".to_string()]));
}

#[test]
fn test_and_gate() {
    let matrix = LSSSShareMatrix::from_boolean_tree("A AND B").unwrap();
    assert!(matrix.is_satisfied(&["A".to_string(), "B".to_string()]));
    assert!(!matrix.is_satisfied(&["A".to_string()]));
    assert!(!matrix.is_satisfied(&["B".to_string()]));
}

#[test]
fn test_or_gate() {
    let matrix = LSSSShareMatrix::from_boolean_tree("A OR B").unwrap();
    assert!(matrix.is_satisfied(&["A".to_string()]));
    assert!(matrix.is_satisfied(&["B".to_string()]));
    assert!(matrix.is_satisfied(&["A".to_string(), "B".to_string()]));
    assert!(!matrix.is_satisfied(&["C".to_string()]));
}

#[test]
fn test_nested_policy() {
    let matrix = LSSSShareMatrix::from_boolean_tree("(A AND B) OR C").unwrap();
    assert!(matrix.is_satisfied(&["A".to_string(), "B".to_string()]));
    assert!(matrix.is_satisfied(&["C".to_string()]));
    assert!(!matrix.is_satisfied(&["A".to_string()]));
    assert!(!matrix.is_satisfied(&["B".to_string()]));
}

#[test]
fn test_share_reconstruction() {
    let q = 8380417u32;
    let matrix = LSSSShareMatrix::from_boolean_tree("A AND B").unwrap();
    let secret = 12345i64;

    let shares = matrix.share(secret, q);
    assert_eq!(shares.len(), 2);

    let reconstructed = matrix.reconstruct(&[(0, shares[0]), (1, shares[1])], q).unwrap();
    assert_eq!(reconstructed, secret);
}

#[test]
fn test_reconstruction_constants_satisfy_linear_constraint() {
    let q = 8380417u32;

    let matrix = LSSSShareMatrix::from_boolean_tree("(A AND B) OR C").unwrap();

    let constants_ab = matrix
        .get_reconstruction_constants(&["A".to_string(), "B".to_string()], q)
        .expect("A,B should satisfy (A AND B) OR C");
    let indices_ab: Vec<usize> = (0..matrix.rows())
        .filter(|i| ["A".to_string(), "B".to_string()].contains(&matrix.row_to_attr()[*i]))
        .collect();
    let q_i64 = q as i64;
    let mut first_col_sum: i64 = 0;
    for (i, &omega) in constants_ab.iter().enumerate() {
        first_col_sum = (first_col_sum + omega * matrix.matrix()[indices_ab[i]][0]) % q_i64;
    }
    first_col_sum = (first_col_sum % q_i64 + q_i64) % q_i64;
    assert_eq!(first_col_sum, 1, "Σ ω_i · M_i[0] must equal 1 (mod q) for {{A, B}}");

    let constants_c = matrix
        .get_reconstruction_constants(&["C".to_string()], q)
        .expect("C should satisfy (A AND B) OR C");
    let indices_c: Vec<usize> = (0..matrix.rows()).filter(|i| matrix.row_to_attr()[*i] == "C").collect();
    let mut first_col_sum_c: i64 = 0;
    for (i, &omega) in constants_c.iter().enumerate() {
        first_col_sum_c = (first_col_sum_c + omega * matrix.matrix()[indices_c[i]][0]) % q_i64;
    }
    first_col_sum_c = (first_col_sum_c % q_i64 + q_i64) % q_i64;
    assert_eq!(first_col_sum_c, 1, "Σ ω_i · M_i[0] must equal 1 (mod q) for {{C}}");

    assert!(matrix.get_reconstruction_constants(&["A".to_string()], q).is_none());
    assert!(matrix.get_reconstruction_constants(&["B".to_string()], q).is_none());
}

#[test]
fn test_solve_linear_system_single_row() {
    let q = 8380417u32;
    let constants = pabs_crf::lsss::solve_linear_system(&[vec![1i64]], q).expect("solvable");
    assert_eq!(constants, vec![1i64]);
    let constants = pabs_crf::lsss::solve_linear_system(&[vec![2i64]], q).expect("solvable");
    assert_eq!((constants[0] * 2).rem_euclid(q as i64), 1);
    assert!(pabs_crf::lsss::solve_linear_system(&[vec![0i64]], q).is_none());
}

#[test]
fn test_reconstruct_needs_satisfying_shares() {
    let q = 8380417u32;
    let matrix = LSSSShareMatrix::from_boolean_tree("A AND B").unwrap();
    let shares = matrix.share(777, q);
    assert!(matrix.reconstruct(&[], q).is_err());
    assert!(matrix.reconstruct(&[(0, shares[0])], q).is_err());
    let or_matrix = LSSSShareMatrix::from_boolean_tree("A OR B").unwrap();
    let or_shares = or_matrix.share(-5, q);
    assert_eq!(or_matrix.reconstruct(&[(1, or_shares[1])], q).unwrap(), (-5i64).rem_euclid(q as i64));
}

#[test]
fn test_attribute_names_containing_not_letters() {
    let policy = pabs_crf::policy::Policy::parse("NOTARY").unwrap();
    let m = policy.to_lsss().expect("a single attribute lowers to a sharing matrix");
    assert_eq!(m.rows(), 1);
    assert!(m.is_satisfied(&["NOTARY".to_string()]));
    assert!(!m.is_satisfied(&["ARY".to_string()]));
    assert!(LSSSShareMatrix::from_boolean_tree("ANNOTATION AND B").is_ok());
    assert!(LSSSShareMatrix::from_boolean_tree("NOT A").is_err());
    assert!(LSSSShareMatrix::from_boolean_tree("A AND (NOT B)").is_err());
}

#[test]
fn test_reconstruction_with_redundant_or_branch() {
    let q = 8380417u32;
    let matrix = LSSSShareMatrix::from_boolean_tree("(A OR B) AND C").unwrap();
    let attrs = vec!["A".to_string(), "B".to_string(), "C".to_string()];
    let omega = matrix.get_reconstruction_constants(&attrs, q).expect("A, B and C satisfy the policy");
    let cols = matrix.cols();
    for j in 0..cols {
        let sum: i64 = (0..matrix.rows()).map(|i| omega[i] * matrix.matrix()[i][j]).sum();
        assert_eq!(sum.rem_euclid(q as i64), if j == 0 { 1 } else { 0 });
    }
    let secret = 4242i64;
    let shares = matrix.share(secret, q);
    let pairs: Vec<(usize, i64)> = (0..matrix.rows()).map(|i| (i, shares[i])).collect();
    assert_eq!(matrix.reconstruct(&pairs, q).unwrap(), secret);
}
