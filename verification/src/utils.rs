//! Hashing attributes to target vectors, flat polynomial decoding, and
//! constant-time comparison.
use vstd::prelude::*;
use subtle::ConstantTimeEq;
use vstd::string::StringSliceAdditionalSpecFns;
use crate::codec::le_u32_at;
use crate::hashing::{sha256, sha256_spec, xof_sample_values, xof_values, WordRule};
use crate::mlwe::{valid_q, vec_uniform, MLWEParameters, Polynomial, PolynomialMatrix, PolynomialVector};

verus! {

/// The values of a flat sequence cut into `k` polynomials of `n` coefficients.
pub open spec fn split_rows(vals: Seq<i32>, k: int, n: int) -> Seq<Seq<i32>> {
    Seq::new(k as nat, |i: int| Seq::new(n as nat, |j: int| vals[i * n + j]))
}

/// Cutting values in `[0, q)` into rows keeps them in `[0, q)`.
pub proof fn lemma_split_rows_range(vals: Seq<i32>, k: int, n: int, q: int)
    requires
        k >= 0,
        n >= 0,
        vals.len() == k * n,
        forall|i: int| 0 <= i < vals.len() ==> 0 <= #[trigger] vals[i] < q,
    ensures
        forall|a: int, b: int| 0 <= a < k && 0 <= b < n ==> 0 <= #[trigger] split_rows(vals, k, n)[a][b] < q,
{
    assert forall|a: int, b: int| 0 <= a < k && 0 <= b < n implies 0 <= #[trigger] split_rows(vals, k, n)[a][b] < q by {
        assert(a * n + b < k * n) by (nonlinear_arith)
            requires 0 <= a < k, 0 <= b < n;
        assert(0 <= a * n) by (nonlinear_arith)
            requires a >= 0, n >= 0;
        assert(split_rows(vals, k, n)[a][b] == vals[a * n + b]);
    }
}

/// Cut `vals` (holding `k*n` values) into `k` polynomials of `n` coefficients.
fn polys_from_values(vals: &Vec<i32>, k: usize, n: usize) -> (v: PolynomialVector)
    requires
        vals@.len() == k * n,
    ensures
        v@ == split_rows(vals@, k as int, n as int),
{
    let vlen = vals.len();
    let mut elements: Vec<Polynomial> = Vec::with_capacity(k);
    let mut i: usize = 0;
    while i < k
        invariant
            vals@.len() == k * n,
            vlen == vals@.len(),
            i <= k,
            elements@.len() == i,
            forall|a: int| 0 <= a < i ==> (#[trigger] elements@[a])@ == split_rows(vals@, k as int, n as int)[a],
        decreases k - i,
    {
        assert((i + 1) * n <= k * n) by (nonlinear_arith)
            requires i + 1 <= k;
        assert((i + 1) * n == i * n + n) by (nonlinear_arith);
        let mut coeffs: Vec<i32> = Vec::with_capacity(n);
        let mut j: usize = 0;
        while j < n
            invariant
                vals@.len() == k * n,
                vlen == vals@.len(),
                i < k,
                (i + 1) * n <= k * n,
                (i + 1) * n == i * n + n,
                j <= n,
                coeffs@.len() == j,
                forall|b: int| 0 <= b < j ==> #[trigger] coeffs@[b] == vals@[i * n + b],
            decreases n - j,
        {
            assert(i * n + j < k * n) by (nonlinear_arith)
                requires i < k, j < n;
            assert(0 <= i * n) by (nonlinear_arith);
            coeffs.push(vals[i * n + j]);
            j += 1;
        }
        assert(coeffs@ =~= split_rows(vals@, k as int, n as int)[i as int]);
        elements.push(Polynomial { coeffs });
        i += 1;
    }
    let v = PolynomialVector { elements };
    assert(v@ =~= split_rows(vals@, k as int, n as int)) by {
        assert forall|a: int| 0 <= a < k implies #[trigger] v@[a] == split_rows(vals@, k as int, n as int)[a] by {
            assert(v@[a] == v.elements@[a]@);
        }
    }
    v
}

/// The target vector of `attribute` bound to the user `gid`: `k*n` values in
/// `[0, q)` from the SHAKE-256 stream of `attribute || gid` (23-bit words,
/// rejection above `q`), cut into `k` polynomials.
pub open spec fn target_vector_spec(attribute: Seq<u8>, gid: Seq<u8>, k: nat, n: nat, q: u32) -> Seq<Seq<i32>> {
    split_rows(xof_values(attribute + gid, WordRule::Mask23(q), k * n), k as int, n as int)
}

/// Hash an attribute bound to a user GID to a target polynomial vector in `R_q^k`.
///
/// Different users obtain distinct target vectors for the same attribute,
/// which keeps their preimages from being combined.
pub fn hash_to_target_vector_with_gid(attribute: &str, gid: &[u8; 32], params: &MLWEParameters) -> (v: PolynomialVector)
    requires
        params.q >= 1,
        params.k * params.n <= usize::MAX,
    ensures
        v@ == target_vector_spec(attribute.spec_bytes(), gid@, params.k as nat, params.n as nat, params.q),
        v@.len() == params.k,
        vec_uniform(v@, params.n as int),
{
    let mut input: Vec<u8> = Vec::new();
    crate::codec::extend_bytes(&mut input, attribute.as_bytes());
    crate::codec::extend_bytes(&mut input, gid.as_slice());
    let rule = WordRule::Mask23(params.q);
    let vals = xof_sample_values(input.as_slice(), &rule, params.k * params.n);
    let v = polys_from_values(&vals, params.k, params.n);
    assert(vec_uniform(v@, params.n as int)) by {
        assert forall|a: int| 0 <= a < v@.len() implies (#[trigger] v@[a]).len() == params.n by {}
    }
    v
}

/// Hash an attribute (bound to the all-zero GID) to a target polynomial vector.
///
/// Use `hash_to_target_vector_with_gid`: without a user GID the target vectors
/// of different users coincide.
pub fn hash_to_target_vector(attribute: &str, params: &MLWEParameters) -> (v: PolynomialVector)
    requires
        params.q >= 1,
        params.k * params.n <= usize::MAX,
    ensures
        v@ == target_vector_spec(attribute.spec_bytes(), Seq::new(32, |i: int| 0u8), params.k as nat, params.n as nat, params.q),
{
    let gid = [0u8; 32];
    assert(gid@ =~= Seq::new(32, |i: int| 0u8));
    hash_to_target_vector_with_gid(attribute, &gid, params)
}

/// The `i32` stored little-endian at `idx`, reduced into `[0, q)`, or 0 when
/// the bytes run out.
pub open spec fn decoded_coeff(bytes: Seq<u8>, idx: int, q: u32) -> i32 {
    if idx + 4 <= bytes.len() {
        let u = le_u32_at(bytes, idx);
        let c = if u >= 0x8000_0000 { u - 0x1_0000_0000 } else { u };
        (c % (q as int)) as i32
    } else {
        0
    }
}

fn read_coeff(bytes: &[u8], idx: usize, q: u32) -> (c: i32)
    requires
        valid_q(q),
    ensures
        c == decoded_coeff(bytes@, idx as int, q),
{
    if idx <= bytes.len() && bytes.len() - idx >= 4 {
        let u = crate::codec::read_u32_le_at(bytes, idx);
        let c: i32 = if u >= 0x8000_0000 {
            (u as i64 - 0x1_0000_0000i64) as i32
        } else {
            u as i32
        };
        crate::mlwe::mod_reduce(c, q)
    } else {
        0
    }
}

/// Decode `k` polynomials of `n` little-endian `i32` coefficients (reduced mod
/// `q`; missing bytes read as 0).
pub fn deserialize_polynomial_vector(bytes: &[u8], k: usize, n: usize, q: u32) -> (v: PolynomialVector)
    requires
        valid_q(q),
        k * n * 4 + 4 <= usize::MAX,
    ensures
        v@.len() == k,
        vec_uniform(v@, n as int),
        forall|i: int, j: int| 0 <= i < k && 0 <= j < n ==> #[trigger] v@[i][j] == decoded_coeff(
            bytes@,
            4 * (i * n + j),
            q,
        ),
{
    let mut elements: Vec<Polynomial> = Vec::with_capacity(k);
    let mut i: usize = 0;
    while i < k
        invariant
            valid_q(q),
            k * n * 4 + 4 <= usize::MAX,
            i <= k,
            elements@.len() == i,
            forall|a: int| 0 <= a < i ==> (#[trigger] elements@[a])@.len() == n,
            forall|a: int, b: int| 0 <= a < i && 0 <= b < n ==> #[trigger] elements@[a]@[b] == decoded_coeff(
                bytes@,
                4 * (a * n + b),
                q,
            ),
        decreases k - i,
    {
        let mut coeffs: Vec<i32> = Vec::with_capacity(n);
        let mut j: usize = 0;
        while j < n
            invariant
                valid_q(q),
                k * n * 4 + 4 <= usize::MAX,
                i < k,
                j <= n,
                coeffs@.len() == j,
                forall|b: int| 0 <= b < j ==> #[trigger] coeffs@[b] == decoded_coeff(bytes@, 4 * (i * n + b), q),
            decreases n - j,
        {
            assert(4 * (i * n + j) < k * n * 4) by (nonlinear_arith)
                requires i < k, j < n;
            let idx = 4 * (i * n + j);
            coeffs.push(read_coeff(bytes, idx, q));
            j += 1;
        }
        elements.push(Polynomial { coeffs });
        i += 1;
    }
    let v = PolynomialVector { elements };
    assert forall|a: int| 0 <= a < v@.len() implies (#[trigger] v@[a]).len() == n by {
        assert(v@[a] == v.elements@[a]@);
    }
    assert forall|a: int, b: int| 0 <= a < k && 0 <= b < n implies #[trigger] v@[a][b] == decoded_coeff(
        bytes@,
        4 * (a * n + b),
        q,
    ) by {
        assert(v@[a] == v.elements@[a]@);
    }
    v
}

/// Decode a `rows x cols` matrix of polynomials of `n` little-endian `i32`
/// coefficients (reduced mod `q`; missing bytes read as 0).
pub fn deserialize_polynomial_matrix(bytes: &[u8], rows: usize, cols: usize, n: usize, q: u32) -> (m: PolynomialMatrix)
    requires
        valid_q(q),
        rows * cols * n * 4 + 4 <= usize::MAX,
    ensures
        m.rows == rows,
        m.cols == cols,
        m@.len() == rows,
        forall|i: int| 0 <= i < rows ==> (#[trigger] m@[i]).len() == cols,
        forall|i: int, j: int| 0 <= i < rows && 0 <= j < cols ==> (#[trigger] m@[i][j]).len() == n,
        forall|i: int, j: int, l: int|
            0 <= i < rows && 0 <= j < cols && 0 <= l < n ==> #[trigger] m@[i][j][l] == decoded_coeff(
                bytes@,
                4 * ((i * cols + j) * n + l),
                q,
            ),
{
    let mut elements: Vec<Vec<Polynomial>> = Vec::with_capacity(rows);
    let mut i: usize = 0;
    while i < rows
        invariant
            valid_q(q),
            rows * cols * n * 4 + 4 <= usize::MAX,
            i <= rows,
            elements@.len() == i,
            forall|a: int| 0 <= a < i ==> (#[trigger] elements@[a])@.len() == cols,
            forall|a: int, b: int| 0 <= a < i && 0 <= b < cols ==> (#[trigger] elements@[a]@[b])@.len() == n,
            forall|a: int, b: int, l: int|
                0 <= a < i && 0 <= b < cols && 0 <= l < n ==> #[trigger] elements@[a]@[b]@[l] == decoded_coeff(
                    bytes@,
                    4 * ((a * cols + b) * n + l),
                    q,
                ),
        decreases rows - i,
    {
        let mut row: Vec<Polynomial> = Vec::with_capacity(cols);
        let mut j: usize = 0;
        while j < cols
            invariant
                valid_q(q),
                rows * cols * n * 4 + 4 <= usize::MAX,
                i < rows,
                j <= cols,
                row@.len() == j,
                forall|b: int| 0 <= b < j ==> (#[trigger] row@[b])@.len() == n,
                forall|b: int, l: int| 0 <= b < j && 0 <= l < n ==> #[trigger] row@[b]@[l] == decoded_coeff(
                    bytes@,
                    4 * ((i * cols + b) * n + l),
                    q,
                ),
            decreases cols - j,
        {
            let mut coeffs: Vec<i32> = Vec::with_capacity(n);
            let mut l: usize = 0;
            while l < n
                invariant
                    valid_q(q),
                    rows * cols * n * 4 + 4 <= usize::MAX,
                    i < rows,
                    j < cols,
                    l <= n,
                    coeffs@.len() == l,
                    forall|t: int| 0 <= t < l ==> #[trigger] coeffs@[t] == decoded_coeff(
                        bytes@,
                        4 * ((i * cols + j) * n + t),
                        q,
                    ),
                decreases n - l,
            {
                assert(i * cols + j < rows * cols) by (nonlinear_arith)
                    requires i < rows, j < cols;
                assert(rows * cols <= rows * cols * n) by (nonlinear_arith)
                    requires n >= 1;
                assert((i * cols + j) * n + l < rows * cols * n) by (nonlinear_arith)
                    requires i * cols + j < rows * cols, l < n;
                assert(4 * ((i * cols + j) * n + l) < rows * cols * n * 4) by (nonlinear_arith)
                    requires (i * cols + j) * n + l < rows * cols * n;
                assert(0 <= i * cols) by (nonlinear_arith);
                assert(0 <= (i * cols + j) * n) by (nonlinear_arith);
                let idx = 4 * ((i * cols + j) * n + l);
                coeffs.push(read_coeff(bytes, idx, q));
                l += 1;
            }
            row.push(Polynomial { coeffs });
            j += 1;
        }
        elements.push(row);
        i += 1;
    }
    let m = PolynomialMatrix { rows, cols, elements };
    proof {
        assert forall|a: int| 0 <= a < rows implies (#[trigger] m@[a]).len() == cols by {
            assert(m@[a] == m.elements@[a]@.map_values(|p: Polynomial| p@));
        }
        assert forall|a: int, b: int| 0 <= a < rows && 0 <= b < cols implies (#[trigger] m@[a][b]).len() == n by {
            assert(m@[a] == m.elements@[a]@.map_values(|p: Polynomial| p@));
            assert(m@[a][b] == m.elements@[a]@[b]@);
        }
        assert forall|a: int, b: int, l: int|
            0 <= a < rows && 0 <= b < cols && 0 <= l < n implies #[trigger] m@[a][b][l] == decoded_coeff(
                bytes@,
                4 * ((a * cols + b) * n + l),
                q,
            ) by {
            assert(m@[a] == m.elements@[a]@.map_values(|p: Polynomial| p@));
            assert(m@[a][b] == m.elements@[a]@[b]@);
        }
    }
    m
}

/// Hash utilities.
pub struct HashUtils;

impl HashUtils {
    /// SHA-256 of a message.
    pub fn hash_message(message: &[u8]) -> (h: Vec<u8>)
        ensures
            h@ == sha256_spec(message@),
    {
        sha256(message)
    }

    /// SHA-256 of an attribute name.
    pub fn hash_attribute(attribute: &str) -> (h: Vec<u8>)
        ensures
            h@ == sha256_spec(attribute.spec_bytes()),
    {
        sha256(attribute.as_bytes())
    }
}

/// Constant-time operations.
pub struct ConstantTimeOps;

/// `ConstantTimeEq::ct_eq` on byte slices.
///
/// Trusted: true exactly when the slices are equal (different lengths compare unequal).
#[verifier::external_body]
fn ct_eq_bytes(a: &[u8], b: &[u8]) -> (r: bool)
    ensures
        r == (a@ == b@),
{
    a.ct_eq(b).into()
}

impl ConstantTimeOps {
    /// Compare two byte strings in time independent of their contents.
    pub fn constant_time_compare(a: &[u8], b: &[u8]) -> (r: bool)
        ensures
            r == (a@ == b@),
    {
        ct_eq_bytes(a, b)
    }
}

/// Side-channel resistant helpers.
pub type SideChannelProtection = ConstantTimeOps;

} // verus!
