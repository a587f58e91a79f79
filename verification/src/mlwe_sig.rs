//! The Dilithium-style signature over Module-LWE: challenge derivation,
//! signing by rejection sampling, and verification.
use vstd::prelude::*;
use rand::rngs::ThreadRng;
use crate::canonical::{canonical_serialize_w1, canonical_w1_bytes, w1_in_range};
use crate::codec::{le32, le_u16_at, push_u32_le};
use crate::compression::flat;
use crate::hashing::{i32_le, push_i32_le, sha256, sha256_spec, shake256, shake256_spec, max_stream_len};
use crate::mlwe::{
    MLWEKeyPair, MLWEParameters, Polynomial, PolynomialMatrix, PolynomialVector, decompose_ok, hint_ok,
    spec_decompose, spec_use_hint, valid_q,
};

verus! {

// ---------------------------------------------------------------------------
// Byte encodings hashed into the transcript
// ---------------------------------------------------------------------------

/// `i32::to_le_bytes` of every value, concatenated.
pub open spec fn i32s_le(s: Seq<i32>) -> Seq<u8>
    decreases s.len(),
{
    if s.len() == 0 {
        Seq::empty()
    } else {
        i32s_le(s.drop_last()) + i32_le(s.last())
    }
}

/// The coefficients of a matrix, row after row.
pub open spec fn mat_flat(a: Seq<Seq<Seq<i32>>>) -> Seq<i32>
    decreases a.len(),
{
    if a.len() == 0 {
        Seq::empty()
    } else {
        mat_flat(a.drop_last()) + flat(a.last())
    }
}

pub proof fn lemma_i32s_le_concat(x: Seq<i32>, y: Seq<i32>)
    ensures
        i32s_le(x + y) == i32s_le(x) + i32s_le(y),
    decreases y.len(),
{
    if y.len() == 0 {
        assert(x + y =~= x);
        assert(i32s_le(y) =~= Seq::<u8>::empty());
        assert(i32s_le(x) + i32s_le(y) =~= i32s_le(x));
    } else {
        lemma_i32s_le_concat(x, y.drop_last());
        assert((x + y).drop_last() =~= x + y.drop_last());
        assert((x + y).last() == y.last());
        assert(i32s_le(x) + i32s_le(y) =~= i32s_le(x) + i32s_le(y.drop_last()) + i32_le(y.last()));
    }
}

/// Append the little-endian bytes of every coefficient of `p`.
pub(crate) fn push_poly_le(buf: &mut Vec<u8>, p: &Polynomial)
    ensures
        final(buf)@ == old(buf)@ + i32s_le(p@),
{
    let mut i: usize = 0;
    while i < p.coeffs.len()
        invariant
            i <= p@.len(),
            buf@ == old(buf)@ + i32s_le(p@.take(i as int)),
        decreases p@.len() - i,
    {
        let ghost before = buf@;
        push_i32_le(buf, p.coeffs[i]);
        proof {
            assert(p@.take(i + 1).drop_last() =~= p@.take(i as int));
            assert(p@.take(i + 1).last() == p@[i as int]);
            assert(buf@ =~= old(buf)@ + i32s_le(p@.take(i + 1)));
        }
        i += 1;
    }
    assert(p@.take(p@.len() as int) =~= p@);
}

/// Append the little-endian bytes of every coefficient of `v`, polynomial after polynomial.
fn push_vec_le(buf: &mut Vec<u8>, v: &Vec<Polynomial>)
    ensures
        final(buf)@ == old(buf)@ + i32s_le(flat(v@.map_values(|p: Polynomial| p@))),
{
    let ghost vv = v@.map_values(|p: Polynomial| p@);
    let mut j: usize = 0;
    while j < v.len()
        invariant
            j <= v@.len(),
            vv == v@.map_values(|p: Polynomial| p@),
            buf@ == old(buf)@ + i32s_le(flat(vv.take(j as int))),
        decreases v@.len() - j,
    {
        push_poly_le(buf, &v[j]);
        proof {
            assert(vv.take(j + 1).drop_last() =~= vv.take(j as int));
            assert(vv.take(j + 1).last() == v@[j as int]@);
            lemma_i32s_le_concat(flat(vv.take(j as int)), v@[j as int]@);
            assert(buf@ =~= old(buf)@ + i32s_le(flat(vv.take(j + 1))));
        }
        j += 1;
    }
    assert(vv.take(v@.len() as int) =~= vv);
}

/// Domain label of the system transcript hash.
pub open spec fn tr_domain() -> Seq<u8> {
    seq![0x50u8, 0x41, 0x42, 0x53, 0x2d, 0x43, 0x52, 0x46, 0x2d, 0x76, 0x34, 0x2d, 0x74, 0x72]
}

/// Domain label of the public-key hash.
pub open spec fn pk_domain() -> Seq<u8> {
    seq![0x50u8, 0x41, 0x42, 0x53, 0x2d, 0x43, 0x52, 0x46, 0x2d, 0x76, 0x34, 0x2d, 0x70, 0x6b]
}

/// Domain label of the challenge hash.
pub open spec fn challenge_domain() -> Seq<u8> {
    seq![
        0x50u8, 0x41, 0x42, 0x53, 0x2d, 0x43, 0x52, 0x46, 0x2d, 0x63, 0x68, 0x61, 0x6c, 0x6c, 0x65, 0x6e, 0x67, 0x65,
        0x2d, 0x76, 0x32,
    ]
}

/// `tr = SHA-256("PABS-CRF-v4-tr" || A || u)`, every coefficient as an `i32` little-endian.
pub open spec fn system_tr(a: Seq<Seq<Seq<i32>>>, u: Seq<Seq<i32>>) -> Seq<u8> {
    sha256_spec(tr_domain() + i32s_le(mat_flat(a)) + i32s_le(flat(u)))
}

/// Every coefficient reduced into `[0, q)`, as a `u32` little-endian.
pub open spec fn u32s_mod_le(s: Seq<i32>, q: int) -> Seq<u8>
    decreases s.len(),
{
    if s.len() == 0 {
        Seq::empty()
    } else {
        u32s_mod_le(s.drop_last(), q) + le32((s.last() as int) % q)
    }
}

/// `SHA-256("PABS-CRF-v4-pk" || u mod q)`.
pub open spec fn pk_hash_spec(u: Seq<Seq<i32>>, q: int) -> Seq<u8> {
    sha256_spec(pk_domain() + u32s_mod_le(flat(u), q))
}

// ---------------------------------------------------------------------------
// Sparse challenge sampling
// ---------------------------------------------------------------------------

/// Index candidates at or above this bound are rejected, so that `cand % n` is uniform.
pub open spec fn index_limit(n: nat) -> int {
    (65536nat / n * n) as int
}

/// Place `tau - count` more signs into `coeffs`, reading the stream from `pos`:
/// a two-byte little-endian index candidate, rejected at or above
/// `index_limit(n)` or when its position (`cand % n`) is taken, otherwise
/// followed by one byte whose low bit picks the sign (`0` gives `+1`).
/// `None` when the stream ends first.
pub open spec fn sample_ball(stream: Seq<u8>, n: nat, tau: int, pos: nat, coeffs: Seq<i32>, count: int) -> Option<
    Seq<i32>,
>
    decreases stream.len() - pos,
{
    if count >= tau {
        Some(coeffs)
    } else if pos + 2 > stream.len() {
        None
    } else {
        let cand = le_u16_at(stream, pos as int);
        if cand >= index_limit(n) {
            sample_ball(stream, n, tau, pos + 2, coeffs, count)
        } else {
            let p = cand % (n as int);
            if coeffs[p] != 0 {
                sample_ball(stream, n, tau, pos + 2, coeffs, count)
            } else if pos + 3 > stream.len() {
                None
            } else {
                let sign = sign_of(stream[pos + 2int]);
                sample_ball(stream, n, tau, pos + 3, coeffs.update(p, sign), count + 1)
            }
        }
    }
}

/// The sign selected by a byte: `+1` when its low bit is clear, else `-1`.
pub open spec fn sign_of(b: u8) -> i32 {
    if b % 2 == 0 { 1i32 } else { -1i32 }
}

/// The all-zero polynomial of `n` coefficients.
pub open spec fn zero_poly(n: nat) -> Seq<i32> {
    Seq::new(n, |i: int| 0i32)
}

/// The challenge expanded from `seed`: `tau` signs placed by [`sample_ball`]
/// on the SHAKE-256 stream of `seed` (all zero in the event, of negligible
/// probability, that even the longest prefix requested does not suffice).
pub open spec fn challenge_from_seed(seed: Seq<u8>, n: nat, tau: int) -> Seq<i32> {
    match sample_ball(shake256_spec(seed, max_stream_len()), n, tau, 0, zero_poly(n), 0) {
        Some(c) => c,
        None => zero_poly(n),
    }
}

/// Number of high-bits buckets plus one: `(q - 1) / (2 gamma2) + 1`.
pub open spec fn w1_modulus(q: u32, gamma2: i32) -> u32 {
    ((q - 1) / (2 * gamma2) + 1) as u32
}

/// The bytes absorbed before the challenge seed is squeezed.
pub open spec fn challenge_input(
    params: MLWEParameters,
    w1: Seq<Seq<i32>>,
    message: Seq<u8>,
    context: Seq<u8>,
    tr: Seq<u8>,
    pk_hash: Seq<u8>,
    delta: Seq<u8>,
) -> Seq<u8> {
    let w1_bytes = canonical_w1_bytes(w1, w1_modulus(params.q, params.gamma2));
    challenge_domain() + tr + le32((w1_bytes.len() as int) % 0x1_0000_0000) + w1_bytes + message + context + pk_hash
        + delta
}

/// The challenge polynomial: the seed is the first 32 bytes of SHAKE-256 of
/// the challenge input, then expanded by [`challenge_from_seed`].
pub open spec fn challenge_spec(
    params: MLWEParameters,
    w1: Seq<Seq<i32>>,
    message: Seq<u8>,
    context: Seq<u8>,
    tr: Seq<u8>,
    pk_hash: Seq<u8>,
    delta: Seq<u8>,
) -> Seq<i32> {
    challenge_from_seed(
        shake256_spec(challenge_input(params, w1, message, context, tr, pk_hash, delta), 32),
        params.n as nat,
        params.tau as int,
    )
}

/// Parameters under which the challenge can be derived: an index fits in two
/// bytes, and there are enough positions for `tau` signs.
pub open spec fn challenge_params_ok(params: MLWEParameters) -> bool {
    &&& 1 <= params.n <= 65536
    &&& params.tau <= params.n
    &&& hint_ok(params.gamma2, params.q)
    &&& (params.q - 1) % (2 * params.gamma2 as int) + params.gamma2 < 2 * params.gamma2
}

proof fn lemma_sample_ball_prefix(
    s1: Seq<u8>,
    s2: Seq<u8>,
    n: nat,
    tau: int,
    pos: nat,
    coeffs: Seq<i32>,
    count: int,
)
    requires
        n >= 1,
        coeffs.len() == n,
        s1.len() <= s2.len(),
        s1 == s2.take(s1.len() as int),
        sample_ball(s1, n, tau, pos, coeffs, count) is Some,
    ensures
        sample_ball(s2, n, tau, pos, coeffs, count) == sample_ball(s1, n, tau, pos, coeffs, count),
    decreases s1.len() - pos,
{
    if count < tau {
        assert(s1[pos as int] == s2[pos as int]);
        assert(s1[pos + 1int] == s2[pos + 1int]);
        let cand = le_u16_at(s1, pos as int);
        if cand >= index_limit(n) {
            lemma_sample_ball_prefix(s1, s2, n, tau, pos + 2, coeffs, count);
        } else {
            let p = cand % (n as int);
            if coeffs[p] != 0 {
                lemma_sample_ball_prefix(s1, s2, n, tau, pos + 2, coeffs, count);
            } else {
                assert(s1[pos + 2int] == s2[pos + 2int]);
                let sign = sign_of(s1[pos + 2int]);
                lemma_sample_ball_prefix(s1, s2, n, tau, pos + 3, coeffs.update(p, sign), count + 1);
            }
        }
    }
}

proof fn lemma_sample_ball_shape(stream: Seq<u8>, n: nat, tau: int, pos: nat, coeffs: Seq<i32>, count: int)
    requires
        n >= 1,
        coeffs.len() == n,
        forall|i: int| 0 <= i < n ==> -1 <= #[trigger] coeffs[i] <= 1,
    ensures
        sample_ball(stream, n, tau, pos, coeffs, count) matches Some(c) ==> c.len() == n && forall|i: int|
            0 <= i < n ==> -1 <= #[trigger] c[i] <= 1,
    decreases stream.len() - pos,
{
    if count < tau && pos + 2 <= stream.len() {
        let cand = le_u16_at(stream, pos as int);
        if cand >= index_limit(n) {
            lemma_sample_ball_shape(stream, n, tau, pos + 2, coeffs, count);
        } else {
            let p = cand % (n as int);
            if coeffs[p] != 0 {
                lemma_sample_ball_shape(stream, n, tau, pos + 2, coeffs, count);
            } else if pos + 3 <= stream.len() {
                let sign = sign_of(stream[pos + 2int]);
                lemma_sample_ball_shape(stream, n, tau, pos + 3, coeffs.update(p, sign), count + 1);
            }
        }
    }
}

/// Run [`sample_ball`] on a stream prefix.
fn sample_ball_exec(stream: &Vec<u8>, n: usize, tau: i32) -> (r: Option<Vec<i32>>)
    requires
        1 <= n <= 65536,
    ensures
        r matches Some(c) ==> sample_ball(stream@, n as nat, tau as int, 0, zero_poly(n as nat), 0) == Some(c@),
        r is None ==> sample_ball(stream@, n as nat, tau as int, 0, zero_poly(n as nat), 0) is None,
{
    let mut coeffs: Vec<i32> = Vec::with_capacity(n);
    let mut z: usize = 0;
    while z < n
        invariant
            z <= n,
            coeffs@ == Seq::new(z as nat, |i: int| 0i32),
        decreases n - z,
    {
        coeffs.push(0);
        z += 1;
        assert(coeffs@ =~= Seq::new(z as nat, |i: int| 0i32));
    }
    let nn = n as u32;
    assert((65536u32 / nn) * nn <= 65536) by (nonlinear_arith)
        requires nn >= 1;
    let limit: u32 = (65536u32 / nn) * nn;
    let slen = stream.len();
    let mut pos: usize = 0;
    let mut count: i32 = 0;
    let ghost total = sample_ball(stream@, n as nat, tau as int, 0, zero_poly(n as nat), 0);
    assert(coeffs@ =~= zero_poly(n as nat));
    while count < tau
        invariant
            1 <= n <= 65536,
            limit == index_limit(n as nat),
            slen == stream@.len(),
            coeffs@.len() == n,
            0 <= count,
            count == 0 || count <= tau,
            nn == n,
            pos <= slen,
            total == sample_ball(stream@, n as nat, tau as int, 0, zero_poly(n as nat), 0),
            total == sample_ball(stream@, n as nat, tau as int, pos as nat, coeffs@, count as int),
        decreases slen - pos,
    {
        if slen - pos < 2 {
            assert(sample_ball(stream@, n as nat, tau as int, pos as nat, coeffs@, count as int) is None);
            return None;
        }
        let cand = crate::codec::read_u16_le_at(stream.as_slice(), pos) as u32;
        if cand >= limit {
            pos = pos + 2;
        } else {
            let p = (cand % nn) as usize;
            if coeffs[p] != 0 {
                pos = pos + 2;
            } else {
                if slen - pos < 3 {
                    assert(sample_ball(stream@, n as nat, tau as int, pos as nat, coeffs@, count as int) is None);
                    return None;
                }
                let sign: i32 = if stream[pos + 2] % 2 == 0 { 1 } else { -1 };
                coeffs.set(p, sign);
                count = count + 1;
                pos = pos + 3;
            }
        }
    }
    Some(coeffs)
}

/// The challenge polynomial expanded from a 32-byte seed, reading a longer
/// prefix of the SHAKE-256 stream until `tau` signs are placed.
fn challenge_from_seed_exec(seed: &[u8], n: usize, tau: i32) -> (c: Vec<i32>)
    requires
        1 <= n <= 65536,
    ensures
        c@ == challenge_from_seed(seed@, n as nat, tau as int),
{
    let mut len: usize = 1024;
    loop
        invariant
            1 <= n <= 65536,
            len >= 1,
        decreases usize::MAX - len,
    {
        let stream = shake256(seed, len);
        match sample_ball_exec(&stream, n, tau) {
            Some(c) => {
                proof {
                    let full = shake256_spec(seed@, max_stream_len());
                    assert(stream@.len() <= full.len() && full.take(len as int) == stream@);
                    lemma_sample_ball_prefix(stream@, full, n as nat, tau as int, 0, zero_poly(n as nat), 0);
                }
                return c;
            },
            None => {
                if len == usize::MAX {
                    assert(stream@ == shake256_spec(seed@, max_stream_len()));
                    let mut zeros: Vec<i32> = Vec::new();
                    let mut i: usize = 0;
                    while i < n
                        invariant
                            i <= n,
                            zeros@ == Seq::new(i as nat, |t: int| 0i32),
                        decreases n - i,
                    {
                        zeros.push(0);
                        i += 1;
                        assert(zeros@ =~= Seq::new(i as nat, |t: int| 0i32));
                    }
                    return zeros;
                }
                len = if len <= usize::MAX / 2 { 2 * len } else { usize::MAX };
            },
        }
    }
}

/// Facts about a derived challenge: `n` coefficients, each in `{-1, 0, 1}`.
pub proof fn lemma_challenge_shape(seed: Seq<u8>, n: nat, tau: int)
    requires
        n >= 1,
    ensures
        challenge_from_seed(seed, n, tau).len() == n,
        forall|i: int| 0 <= i < n ==> -1 <= #[trigger] challenge_from_seed(seed, n, tau)[i] <= 1,
{
    lemma_sample_ball_shape(shake256_spec(seed, max_stream_len()), n, tau, 0, zero_poly(n), 0);
}

// ---------------------------------------------------------------------------
// Vector-level views of the signing and verification steps
// ---------------------------------------------------------------------------

/// High bits of every coefficient (the second part of `decompose`).
pub open spec fn high_bits_vec(v: Seq<Seq<i32>>, gamma2: i32, q: u32) -> Seq<Seq<i32>> {
    Seq::new(
        v.len(),
        |j: int| Seq::new(v[j].len(), |i: int| spec_decompose(v[j][i] as int, gamma2 as int, q as int).1 as i32),
    )
}

/// `UseHint` applied coefficient-wise (over the common prefix of the two vectors).
pub open spec fn use_hint_vec(v: Seq<Seq<i32>>, h: Seq<Seq<i32>>, gamma2: i32, q: u32) -> Seq<Seq<i32>> {
    Seq::new(
        if v.len() < h.len() { v.len() } else { h.len() },
        |j: int| Seq::new(v[j].len(), |i: int| spec_use_hint(h[j][i] as int, v[j][i] as int, gamma2 as int, q as int) as i32),
    )
}

/// `A z - c t mod q`, the value the verifier compares against the commitment.
pub open spec fn verifier_commitment(
    a: Seq<Seq<Seq<i32>>>,
    rows: int,
    cols: int,
    n: int,
    z: Seq<Seq<i32>>,
    t: Seq<Seq<i32>>,
    c: Seq<i32>,
    q: int,
) -> Seq<Seq<i32>> {
    Seq::new(
        rows as nat,
        |i: int| Seq::new(n as nat, |k: int| ((crate::mlwe::row_dot(a[i], z, k, cols) - crate::mlwe::negacyclic_coeff(t[i], c, k)) % q) as i32),
    )
}

/// Every polynomial of `z`, centered modulo `q`, has infinity norm below `bound`.
pub open spec fn z_norm_ok(z: Seq<Seq<i32>>, q: int, bound: int) -> bool {
    forall|j: int| 0 <= j < z.len() ==> crate::mlwe::max_abs(#[trigger] crate::mlwe::center_i32_seq(z[j], q)) < bound
}

proof fn lemma_high_bits_range(r: int, gamma2: int, q: int)
    requires
        q >= 1,
        gamma2 >= 1,
        2 * gamma2 <= q - 1,
        (q - 1) % (2 * gamma2) + gamma2 < 2 * gamma2,
    ensures
        0 <= spec_decompose(r, gamma2, q).1 < (q - 1) / (2 * gamma2) + 1,
{
    crate::mlwe::lemma_decompose(r, gamma2, q);
    let alpha = 2 * gamma2;
    let m = (q - 1) / alpha;
    let rem = (q - 1) % alpha;
    vstd::arithmetic::div_mod::lemma_fundamental_div_mod(q - 1, alpha);
    vstd::arithmetic::div_mod::lemma_mod_bound(r, q);
    let r1 = spec_decompose(r, gamma2, q).1;
    assert(r1 * alpha <= q - 1 + gamma2);
    assert(q - 1 + gamma2 < (m + 1) * alpha) by (nonlinear_arith)
        requires q - 1 == alpha * m + rem, rem + gamma2 < alpha;
    assert(r1 < m + 1) by (nonlinear_arith)
        requires r1 * alpha < (m + 1) * alpha, alpha >= 1;
}

pub proof fn lemma_use_hint_range(h: int, r: int, gamma2: int, q: int)
    requires
        q >= 1,
        gamma2 >= 1,
        2 * gamma2 <= q - 1,
        (q - 1) % (2 * gamma2) + gamma2 < 2 * gamma2,
    ensures
        0 <= spec_use_hint(h, r, gamma2, q) < (q - 1) / (2 * gamma2) + 1,
{
    let alpha = 2 * gamma2;
    let m = (q - 1) / alpha;
    vstd::arithmetic::div_mod::lemma_mod_bound(r, q);
    lemma_high_bits_range(r % q, gamma2, q);
    crate::mlwe::lemma_decompose(r % q, gamma2, q);
    vstd::arithmetic::div_mod::lemma_div_is_ordered(alpha, q - 1, alpha);
    vstd::arithmetic::div_mod::lemma_div_by_self(alpha);
    let r1 = spec_decompose(r % q, gamma2, q).1;
    if h != 0 {
        vstd::arithmetic::div_mod::lemma_mod_bound(r1 + 1, m);
        vstd::arithmetic::div_mod::lemma_mod_bound(r1 - 1 + m, m);
    }
}

/// The signature bound on `z` used by the verifier: `gamma1 - beta + margin`.
pub open spec fn z_bound_spec(params: MLWEParameters, margin: int) -> int {
    params.gamma1 - params.beta + margin
}

/// The outcome of [`MLWESignature::verify`].
pub open spec fn verify_spec(
    params: MLWEParameters,
    a: Seq<Seq<Seq<i32>>>,
    rows: int,
    cols: int,
    t: Seq<Seq<i32>>,
    message: Seq<u8>,
    context: Seq<u8>,
    z: Seq<Seq<i32>>,
    c: Seq<i32>,
    hints: Option<Seq<Seq<i32>>>,
    pk_hash: Seq<u8>,
    delta: Seq<u8>,
) -> bool {
    let q = params.q;
    let v = verifier_commitment(a, rows, cols, params.n as int, z, t, c, q as int);
    let w1 = match hints {
        Some(h) => use_hint_vec(v, h, params.gamma2, q),
        None => high_bits_vec(v, params.gamma2, q),
    };
    &&& z_norm_ok(z, q as int, z_bound_spec(params, 0))
    &&& challenge_spec(params, w1, message, context, system_tr(a, t), pk_hash, delta) == c
}

/// An MLWE signature `(z, c, h)`.
///
/// `z = y + c s` is the masked response, `c` the sparse challenge derived from
/// the commitment's high bits and the message, and `h` the hints that let the
/// verifier recover those high bits.
#[derive(Debug, Clone, PartialEq)]
pub struct MLWESignature {
    /// Signature vector z = y + c·s (must have small norm)
    pub z: PolynomialVector,
    /// Challenge polynomial c derived from message and commitment
    pub challenge: Polynomial,
    /// Hint vector h used to reconstruct high bits of w
    pub hints: Option<PolynomialVector>,
    /// Additional metadata for verification
    pub metadata: std::collections::HashMap<String, Vec<u8>>,
    /// Optional CRF seed used during re-randomization (for audit testing)
    pub crf_seed: Option<Vec<u8>>,
}

/// The hints of a signature as coefficient sequences.
pub open spec fn hints_view(h: Option<PolynomialVector>) -> Option<Seq<Seq<i32>>> {
    match h {
        Some(v) => Some(v@),
        None => None,
    }
}

impl MLWESignature {
    /// `tr = SHA-256("PABS-CRF-v4-tr" || A || u)`, binding the transcript to the public matrix and key.
    pub fn compute_system_tr(matrix_a: &PolynomialMatrix, u_policy: &PolynomialVector) -> (tr: [u8; 32])
        ensures
            tr@ == system_tr(matrix_a@, u_policy@),
    {
        let mut buf: Vec<u8> = vec![0x50u8, 0x41, 0x42, 0x53, 0x2d, 0x43, 0x52, 0x46, 0x2d, 0x76, 0x34, 0x2d, 0x74, 0x72];
        assert(buf@ =~= tr_domain());
        let ghost rows = matrix_a@;
        let mut i: usize = 0;
        while i < matrix_a.elements.len()
            invariant
                i <= matrix_a.elements@.len(),
                rows == matrix_a@,
                buf@ == tr_domain() + i32s_le(mat_flat(rows.take(i as int))),
            decreases matrix_a.elements@.len() - i,
        {
            let ghost before = buf@;
            push_vec_le(&mut buf, &matrix_a.elements[i]);
            proof {
                assert(rows.take(i + 1).drop_last() =~= rows.take(i as int));
                assert(rows.take(i + 1).last() == matrix_a.elements@[i as int]@.map_values(|p: Polynomial| p@));
                lemma_i32s_le_concat(mat_flat(rows.take(i as int)), flat(rows[i as int]));
                assert(buf@ =~= tr_domain() + i32s_le(mat_flat(rows.take(i + 1))));
            }
            i += 1;
        }
        assert(rows.take(matrix_a.elements@.len() as int) =~= rows);
        let ghost mid = buf@;
        push_vec_le(&mut buf, &u_policy.elements);
        assert(buf@ =~= tr_domain() + i32s_le(mat_flat(matrix_a@)) + i32s_le(flat(u_policy@)));
        let h = sha256(buf.as_slice());
        let mut out = [0u8; 32];
        let mut k: usize = 0;
        while k < 32
            invariant
                k <= 32,
                h@.len() == 32,
                forall|t: int| 0 <= t < k ==> out@[t] == h@[t],
            decreases 32 - k,
        {
            out[k] = h[k];
            k += 1;
        }
        assert(out@ =~= h@);
        out
    }

    /// `SHA-256("PABS-CRF-v4-pk" || u mod q)`, each coefficient as a `u32` little-endian.
    pub fn compute_pk_hash(u_policy: &PolynomialVector, q: u32) -> (h: Vec<u8>)
        requires
            1 <= q <= i32::MAX,
        ensures
            h@ == pk_hash_spec(u_policy@, q as int),
            h@.len() == 32,
    {
        let mut buf: Vec<u8> = vec![0x50u8, 0x41, 0x42, 0x53, 0x2d, 0x43, 0x52, 0x46, 0x2d, 0x76, 0x34, 0x2d, 0x70, 0x6b];
        assert(buf@ =~= pk_domain());
        let ghost vv = u_policy@;
        let qi = q as i32;
        let mut j: usize = 0;
        while j < u_policy.elements.len()
            invariant
                j <= u_policy.elements@.len(),
                vv == u_policy@,
                1 <= q <= i32::MAX,
                qi == q,
                buf@ == pk_domain() + u32s_mod_le(flat(vv.take(j as int)), q as int),
            decreases u_policy.elements@.len() - j,
        {
            let p = &u_policy.elements[j];
            let ghost start = flat(vv.take(j as int));
            let mut i: usize = 0;
            while i < p.coeffs.len()
                invariant
                    i <= p@.len(),
                    1 <= q <= i32::MAX,
                    qi == q,
                    buf@ == pk_domain() + u32s_mod_le(start + p@.take(i as int), q as int),
                decreases p@.len() - i,
            {
                let c = p.coeffs[i];
                proof {
                    crate::modarith::lemma_trem(c as int, q as int);
                }
                let q64 = q as i64;
                let r = ((c as i64 % q64) + q64) % q64;
                push_u32_le(&mut buf, r as u32);
                proof {
                    assert((start + p@.take(i + 1)).drop_last() =~= start + p@.take(i as int));
                    assert((start + p@.take(i + 1)).last() == c);
                    assert(buf@ =~= pk_domain() + u32s_mod_le(start + p@.take(i + 1), q as int));
                }
                i += 1;
            }
            proof {
                assert(p@.take(p@.len() as int) =~= p@);
                assert(vv.take(j + 1).drop_last() =~= vv.take(j as int));
                assert(vv.take(j + 1).last() == p@);
            }
            j += 1;
        }
        assert(vv.take(u_policy.elements@.len() as int) =~= vv);
        sha256(buf.as_slice())
    }
}

/// The key and signature shapes that verification relies on: `A` is
/// `rows x cols` with `n`-coefficient entries (`n = params.n`, `rows >= 1`),
/// `z` and `t` cover its columns and rows, the challenge has `n` coefficients
/// and the hints, when present, cover the commitment.
pub open spec fn verify_shapes_ok(params: MLWEParameters, kp: MLWEKeyPair, sig: MLWESignature) -> bool {
    let a = kp.matrix_a;
    let n = params.n as int;
    &&& crate::mlwe::mat_vec_ok(a, sig.z@, n)
    &&& crate::mlwe::first_entry_len(a@) == n
    &&& a.rows >= 1
    &&& kp.public_key@.len() >= a.rows
    &&& forall|i: int| 0 <= i < a.rows ==> (#[trigger] kp.public_key@[i]).len() == n
    &&& sig.challenge@.len() == n
    &&& sig.hints matches Some(h) ==> (h@.len() >= 1 && forall|j: int|
        0 <= j < a.rows && j < h@.len() ==> (#[trigger] h@[j]).len() >= n)
}

impl MLWESignature {
    /// Derive the sparse challenge from the commitment's high bits `w1`, the
    /// message, the context, the transcript hash and the public-key hash.
    fn derive_challenge(
        params: &MLWEParameters,
        w1: &PolynomialVector,
        message: &[u8],
        context: &[u8],
        tr: &[u8],
        pk_hash: &[u8],
        delta_bytes: &[u8],
    ) -> (c: Polynomial)
        requires
            challenge_params_ok(*params),
            w1@.len() > 0,
            w1_in_range(w1@, w1_modulus(params.q, params.gamma2)),
        ensures
            c@ == challenge_spec(*params, w1@, message@, context@, tr@, pk_hash@, delta_bytes@),
            c@.len() == params.n,
            forall|i: int| 0 <= i < params.n ==> -1 <= #[trigger] c@[i] <= 1,
    {
        let m_val = (params.q - 1) / (2 * params.gamma2 as u32) + 1;
        let w1_bytes = canonical_serialize_w1(w1, m_val);
        let mut input: Vec<u8> = vec![
            0x50u8, 0x41, 0x42, 0x53, 0x2d, 0x43, 0x52, 0x46, 0x2d, 0x63, 0x68, 0x61, 0x6c, 0x6c, 0x65, 0x6e, 0x67, 0x65,
            0x2d, 0x76, 0x32,
        ];
        assert(input@ =~= challenge_domain());
        crate::codec::extend_bytes(&mut input, tr);
        let len32 = (w1_bytes.len() as u64 % 0x1_0000_0000u64) as u32;
        push_u32_le(&mut input, len32);
        crate::codec::extend_bytes(&mut input, w1_bytes.as_slice());
        crate::codec::extend_bytes(&mut input, message);
        crate::codec::extend_bytes(&mut input, context);
        crate::codec::extend_bytes(&mut input, pk_hash);
        crate::codec::extend_bytes(&mut input, delta_bytes);
        assert(input@ =~= challenge_input(*params, w1@, message@, context@, tr@, pk_hash@, delta_bytes@));
        let seed = shake256(input.as_slice(), 32);
        let coeffs = challenge_from_seed_exec(seed.as_slice(), params.n, params.tau);
        proof {
            lemma_challenge_shape(seed@, params.n as nat, params.tau as int);
        }
        Polynomial { coeffs }
    }

    /// The challenge derivation, for the verification paths of other modules.
    pub fn derive_challenge_public(
        params: &MLWEParameters,
        w: &PolynomialVector,
        message: &[u8],
        context: &[u8],
        tr: &[u8],
        pk_hash: &[u8],
        delta_bytes: &[u8],
    ) -> (c: Polynomial)
        requires
            challenge_params_ok(*params),
            w@.len() > 0,
            w1_in_range(w@, w1_modulus(params.q, params.gamma2)),
        ensures
            c@ == challenge_spec(*params, w@, message@, context@, tr@, pk_hash@, delta_bytes@),
            c@.len() == params.n,
            forall|i: int| 0 <= i < params.n ==> -1 <= #[trigger] c@[i] <= 1,
    {
        Self::derive_challenge(params, w, message, context, tr, pk_hash, delta_bytes)
    }

    /// Multiply every polynomial of `v` by `p` in `R_q`.
    fn poly_vec_scalar_mul(v: &PolynomialVector, p: &Polynomial, q: u32) -> (r: PolynomialVector)
        requires
            valid_q(q),
            forall|j: int| 0 <= j < v@.len() ==> (#[trigger] v@[j]).len() == p@.len(),
        ensures
            r@.len() == v@.len(),
            forall|j: int| 0 <= j < v@.len() ==> (#[trigger] r@[j]).len() == p@.len(),
            forall|j: int, k: int| 0 <= j < v@.len() && 0 <= k < p@.len() ==> #[trigger] r@[j][k]
                == crate::mlwe::negacyclic_coeff(v@[j], p@, k) % (q as int),
    {
        MLWEKeyPair::vector_poly_mul_ntt(v, p, q)
    }

    /// Multiply every polynomial of `v` by the challenge `p` in `R_q`.
    pub fn poly_vec_scalar_mul_public(v: &PolynomialVector, p: &Polynomial, q: u32) -> (r: PolynomialVector)
        requires
            valid_q(q),
            forall|j: int| 0 <= j < v@.len() ==> (#[trigger] v@[j]).len() == p@.len(),
        ensures
            r@.len() == v@.len(),
            forall|j: int| 0 <= j < v@.len() ==> (#[trigger] r@[j]).len() == p@.len(),
            forall|j: int, k: int| 0 <= j < v@.len() && 0 <= k < p@.len() ==> #[trigger] r@[j][k]
                == crate::mlwe::negacyclic_coeff(v@[j], p@, k) % (q as int),
    {
        Self::poly_vec_scalar_mul(v, p, q)
    }

    /// The verification bound on `z`, widened by a CRF margin: `gamma1 - beta + margin`.
    pub fn verification_z_bound(params: &MLWEParameters, crf_margin: u32) -> (b: i64)
        requires
            0 <= params.beta <= params.gamma1,
            params.gamma1 - params.beta + crf_margin <= u32::MAX,
        ensures
            b == z_bound_spec(*params, crf_margin as int),
    {
        (params.gamma1 - params.beta as u32 + crf_margin) as i64
    }

    /// Verify a signature: every centered `z_i` has infinity norm below
    /// `gamma1 - beta`, and the challenge recomputed from the high bits of
    /// `A z - c t` (corrected by the hints when present) equals `c`.
    pub fn verify(
        params: &MLWEParameters,
        kp: &MLWEKeyPair,
        message: &[u8],
        context: &[u8],
        sig: &Self,
        pk_hash: &[u8],
        delta_bytes: &[u8],
    ) -> (ok: bool)
        requires
            challenge_params_ok(*params),
            0 <= params.beta <= params.gamma1,
            verify_shapes_ok(*params, *kp, *sig),
        ensures
            ok == verify_spec(
                *params,
                kp.matrix_a@,
                kp.matrix_a.rows as int,
                kp.matrix_a.cols as int,
                kp.public_key@,
                message@,
                context@,
                sig.z@,
                sig.challenge@,
                hints_view(sig.hints),
                pk_hash@,
                delta_bytes@,
            ),
    {
        let q = params.q;
        let n = params.n;
        let z_bound = (params.gamma1 - params.beta as u32) as i64;
        let mut j: usize = 0;
        while j < sig.z.elements.len()
            invariant
                j <= sig.z@.len(),
                q >= 1,
                q == params.q,
                z_bound == z_bound_spec(*params, 0),
                forall|t: int| 0 <= t < j ==> crate::mlwe::max_abs(#[trigger] crate::mlwe::center_i32_seq(sig.z@[t], q as int))
                    < z_bound,
            decreases sig.z@.len() - j,
        {
            let centered = sig.z.elements[j].center_coefficients(q);
            proof {
                assert forall|i: int| 0 <= i < centered@.len() implies #[trigger] centered@[i]
                    == crate::mlwe::center_i32_seq(sig.z@[j as int], q as int)[i] by {
                    crate::modarith::lemma_center(sig.z@[j as int][i] as int, q as int);
                }
                assert(centered@ =~= crate::mlwe::center_i32_seq(sig.z@[j as int], q as int));
            }
            if centered.infinity_norm_integer() >= z_bound {
                assert(!z_norm_ok(sig.z@, q as int, z_bound_spec(*params, 0))) by {
                    assert(crate::mlwe::max_abs(crate::mlwe::center_i32_seq(sig.z@[j as int], q as int)) >= z_bound);
                }
                return false;
            }
            j += 1;
        }
        let ghost rows = kp.matrix_a.rows as int;
        let ghost cols = kp.matrix_a.cols as int;
        let v = MLWEKeyPair::matrix_vector_mul_sub_poly_mul_ntt(
            &kp.matrix_a,
            &sig.z,
            &kp.public_key,
            &sig.challenge,
            q,
        );
        let ghost vs = verifier_commitment(kp.matrix_a@, rows, cols, n as int, sig.z@, kp.public_key@, sig.challenge@, q as int);
        assert(v@ =~= vs) by {
            assert forall|i: int| 0 <= i < rows implies #[trigger] v@[i] =~= vs[i] by {}
        }
        let w1_prime = match &sig.hints {
            Some(hints) => v.use_hint(hints, params.gamma2, q),
            None => {
                let (_v0, v1) = v.decompose(params.gamma2, q);
                v1
            },
        };
        let ghost w1s = match hints_view(sig.hints) {
            Some(h) => use_hint_vec(vs, h, params.gamma2, q),
            None => high_bits_vec(vs, params.gamma2, q),
        };
        proof {
            assert(w1_prime@ =~= w1s) by {
                assert forall|t: int| 0 <= t < w1s.len() implies #[trigger] w1_prime@[t] =~= w1s[t] by {}
            }
            assert(w1_in_range(w1s, w1_modulus(q, params.gamma2))) by {
                assert forall|t: int, i: int| 0 <= t < w1s.len() && 0 <= i < w1s[t].len() implies 0 <= #[trigger] w1s[t][i]
                    < w1_modulus(q, params.gamma2) by {
                    match hints_view(sig.hints) {
                        Some(h) => lemma_use_hint_range(h[t][i] as int, vs[t][i] as int, params.gamma2 as int, q as int),
                        None => lemma_high_bits_range(vs[t][i] as int, params.gamma2 as int, q as int),
                    }
                }
            }
        }
        let tr = Self::compute_system_tr(&kp.matrix_a, &kp.public_key);
        let challenge_prime = Self::derive_challenge(
            params,
            &w1_prime,
            message,
            context,
            tr.as_slice(),
            pk_hash,
            delta_bytes,
        );
        let same = challenge_prime.coeffs == sig.challenge.coeffs;
        proof {
            broadcast use vstd::std_specs::vec::lemma_vec_obeys_eq_spec;
            if same {
                assert(challenge_prime@ =~= sig.challenge@);
            }
        }
        same
    }
}

// ---------------------------------------------------------------------------
// Signing
// ---------------------------------------------------------------------------

/// `gamma1 - max(beta, 0)`, saturating at zero.
pub open spec fn sign_z_bound(params: MLWEParameters) -> int {
    let b: int = if params.beta > 0 { params.beta as int } else { 0 };
    if params.gamma1 >= b { params.gamma1 - b } else { 0 }
}

/// Bound of the masking coefficients: `max(z_bound / 2, 1)`.
pub open spec fn mask_bound(params: MLWEParameters) -> int {
    if sign_z_bound(params) / 2 >= 1 { sign_z_bound(params) / 2 } else { 1 }
}

/// A response is accepted when its integer infinity norm is below `max(z_bound - eta2, 1)`.
pub open spec fn accept_bound(params: MLWEParameters) -> int {
    if sign_z_bound(params) - params.eta2 >= 1 { sign_z_bound(params) - params.eta2 } else { 1 }
}

/// The commitment `w = A y mod q`.
pub open spec fn commitment_spec(a: Seq<Seq<Seq<i32>>>, rows: int, cols: int, n: int, y: Seq<Seq<i32>>, q: int) -> Seq<Seq<i32>> {
    Seq::new(rows as nat, |i: int| Seq::new(n as nat, |k: int| (crate::mlwe::row_dot(a[i], y, k, cols) % q) as i32))
}

/// The integer response `z = y + c s` (over the common prefix of `y` and `s`).
pub open spec fn response_spec(y: Seq<Seq<i32>>, s: Seq<Seq<i32>>, c: Seq<i32>) -> Seq<Seq<i32>> {
    Seq::new(
        if y.len() < s.len() { y.len() } else { s.len() },
        |j: int| Seq::new(
            if y[j].len() < s[j].len() { y[j].len() } else { s[j].len() },
            |i: int| (y[j][i] + crate::mlwe::mci_outer(s[j], c, i, c.len() as int)) as i32,
        ),
    )
}

/// Every coefficient reduced into `[0, q)`.
pub open spec fn reduce_vec(z: Seq<Seq<i32>>, q: int) -> Seq<Seq<i32>> {
    Seq::new(z.len(), |j: int| Seq::new(z[j].len(), |i: int| ((z[j][i] as int) % q) as i32))
}

/// The hints `MakeHint(-c e, w)`.
pub open spec fn sign_hints(e: Seq<Seq<i32>>, c: Seq<i32>, w: Seq<Seq<i32>>, gamma2: i32, q: int) -> Seq<Seq<i32>> {
    Seq::new(
        if e.len() < w.len() { e.len() } else { w.len() },
        |j: int| Seq::new(
            e[j].len(),
            |i: int| crate::mlwe::spec_make_hint(
                ((crate::mlwe::negacyclic_coeff(e[j], c, i) % q) * -1) % q,
                w[j][i] as int,
                gamma2 as int,
                q,
            ) as i32,
        ),
    )
}

/// One signing attempt with masking vector `y`: the signature parts
/// `(z mod q, c, hints)`, or `None` when the response is rejected.
pub open spec fn attempt_spec(
    params: MLWEParameters,
    kp: MLWEKeyPair,
    y: Seq<Seq<i32>>,
    message: Seq<u8>,
    context: Seq<u8>,
    pk_hash: Seq<u8>,
    delta: Seq<u8>,
) -> Option<(Seq<Seq<i32>>, Seq<i32>, Seq<Seq<i32>>)> {
    let a = kp.matrix_a;
    let q = params.q as int;
    let w = commitment_spec(a@, a.rows as int, a.cols as int, params.n as int, y, q);
    let c = challenge_spec(
        params,
        high_bits_vec(w, params.gamma2, params.q),
        message,
        context,
        system_tr(a@, kp.public_key@),
        pk_hash,
        delta,
    );
    let z = response_spec(y, kp.secret_key@, c);
    if crate::mlwe::vec_max_abs(z) < accept_bound(params) {
        Some((reduce_vec(z, q), c, sign_hints(kp.error_vector@, c, w, params.gamma2, q)))
    } else {
        None
    }
}

/// The shapes signing relies on: `A` is `rows x cols` with `n`-coefficient
/// entries (`n = params.n`, `rows >= 1`), and every polynomial of `s` and `e`
/// has `n` coefficients.
pub open spec fn sign_shapes_ok(params: MLWEParameters, kp: MLWEKeyPair) -> bool {
    let a = kp.matrix_a;
    let n = params.n as int;
    &&& crate::mlwe::mat_shape(a@, a.rows as int, a.cols as int, n)
    &&& crate::mlwe::first_entry_len(a@) == n
    &&& a.rows >= 1
    &&& a.cols >= 1
    &&& kp.secret_key@.len() >= a.cols
    &&& crate::mlwe::vec_uniform(kp.secret_key@, n)
    &&& crate::mlwe::vec_uniform(kp.error_vector@, n)
}

/// Parameters and key for which no integer response can leave `i32`:
/// `n * |s|_inf + mask_bound` fits, and the masking bound is small enough to sample.
pub open spec fn sign_bounds_ok(params: MLWEParameters, kp: MLWEKeyPair) -> bool {
    &&& params.n * params.n <= 0x8000_0000
    &&& params.gamma1 < 0x8000_0000
    &&& params.n * crate::mlwe::vec_max_abs(kp.secret_key@) + mask_bound(params) <= i32::MAX
}

/// A masking vector for the key: one polynomial of `n` coefficients in
/// `[-mask_bound, mask_bound]` per column of `A`.
pub open spec fn mask_ok(params: MLWEParameters, kp: MLWEKeyPair, y: Seq<Seq<i32>>) -> bool {
    &&& y.len() == kp.matrix_a.cols
    &&& crate::mlwe::vec_uniform(y, params.n as int)
    &&& crate::mlwe::vec_coeffs_within(y, -mask_bound(params), mask_bound(params))
}

proof fn lemma_abs_le_max_abs(p: Seq<i32>, i: int)
    requires
        0 <= i < p.len(),
    ensures
        -crate::mlwe::max_abs(p) <= p[i] <= crate::mlwe::max_abs(p),
{
    crate::mlwe::lemma_max_abs_bound(p, crate::mlwe::max_abs(p) + 1);
}

proof fn lemma_mci_inner_single(s: Seq<i32>, c: Seq<i32>, t: int, idx: int, upto: int)
    requires
        s.len() >= 1,
        0 <= idx < c.len(),
        0 <= t < s.len(),
        idx < s.len(),
        0 <= upto <= s.len(),
        -1 <= c[idx] <= 1,
    ensures
        -crate::mlwe::max_abs(s) <= crate::mlwe::mci_inner(s, c, t, idx, upto) <= crate::mlwe::max_abs(s),
        ({
            let n = s.len() as int;
            let istar = if t >= idx { t - idx } else { t - idx + n };
            crate::mlwe::mci_inner(s, c, t, idx, upto) == if istar < upto {
                crate::mlwe::mci_term(s, c, t, idx, istar)
            } else {
                0
            }
        }),
    decreases upto,
{
    let n = s.len() as int;
    let istar = if t >= idx { t - idx } else { t - idx + n };
    if upto > 0 {
        lemma_mci_inner_single(s, c, t, idx, upto - 1);
        let i = upto - 1;
        if idx + i < n {
            vstd::arithmetic::div_mod::lemma_small_mod((idx + i) as nat, n as nat);
        } else {
            vstd::arithmetic::div_mod::lemma_mod_add_multiples_vanish(idx + i - n, n);
            vstd::arithmetic::div_mod::lemma_small_mod((idx + i - n) as nat, n as nat);
        }
        if i != istar {
            assert(crate::mlwe::mci_term(s, c, t, idx, i) == 0);
        }
    }
    if istar < upto {
        lemma_abs_le_max_abs(s, istar);
        let m = crate::mlwe::max_abs(s);
        assert(-m <= s[istar] * c[idx] <= m) by (nonlinear_arith)
            requires -m <= s[istar] <= m, -1 <= c[idx] <= 1;
    }
    crate::mlwe::lemma_max_abs_bound(s, 0);
}

proof fn lemma_mci_outer_tight(s: Seq<i32>, c: Seq<i32>, t: int, upto: int)
    requires
        s.len() >= 1,
        c.len() == s.len(),
        0 <= t < s.len(),
        0 <= upto <= c.len(),
        forall|j: int| 0 <= j < c.len() ==> -1 <= #[trigger] c[j] <= 1,
    ensures
        -upto * crate::mlwe::max_abs(s) <= crate::mlwe::mci_outer(s, c, t, upto) <= upto * crate::mlwe::max_abs(s),
    decreases upto,
{
    if upto > 0 {
        lemma_mci_outer_tight(s, c, t, upto - 1);
        lemma_mci_inner_single(s, c, t, upto - 1, s.len() as int);
        let m = crate::mlwe::max_abs(s);
        assert(upto * m == (upto - 1) * m + m) by (nonlinear_arith);
        assert(-upto * m == -((upto - 1) * m) - m) by (nonlinear_arith);
        assert(-(upto - 1) * m == -((upto - 1) * m)) by (nonlinear_arith);
        assert(-1 <= c[upto - 1] <= 1);
    }
}

impl MLWESignature {
    /// One attempt of the signing loop with the masking vector `y`: commit to
    /// `w = A y`, derive the challenge `c` from its high bits, form
    /// `z = y + c s` over the integers, and accept when `|z|_inf` is below the
    /// acceptance bound; the accepted signature carries `z mod q` and the hints
    /// `MakeHint(-c e, w)`.
    pub fn sign_attempt(
        params: &MLWEParameters,
        kp: &MLWEKeyPair,
        y: &PolynomialVector,
        message: &[u8],
        context: &[u8],
        pk_hash: &[u8],
        delta_bytes: &[u8],
    ) -> (r: Option<Self>)
        requires
            challenge_params_ok(*params),
            sign_shapes_ok(*params, *kp),
            sign_bounds_ok(*params, *kp),
            mask_ok(*params, *kp, y@),
        ensures
            match attempt_spec(*params, *kp, y@, message@, context@, pk_hash@, delta_bytes@) {
                None => r is None,
                Some((z, c, h)) => r matches Some(sig) && sig.z@ == z && sig.challenge@ == c && hints_view(sig.hints)
                    == Some(h) && sig.crf_seed is None,
            },
    {
        let q = params.q;
        let n = params.n;
        let ghost a = kp.matrix_a;
        let w = MLWEKeyPair::matrix_vector_mul(&kp.matrix_a, y, q);
        let ghost ws = commitment_spec(a@, a.rows as int, a.cols as int, n as int, y@, q as int);
        assert(w@ =~= ws) by {
            assert forall|i: int| 0 <= i < a.rows implies #[trigger] w@[i] =~= ws[i] by {}
        }
        let (_w0, w1) = w.decompose(params.gamma2, q);
        let ghost w1s = high_bits_vec(ws, params.gamma2, q);
        proof {
            assert(w1@ =~= w1s) by {
                assert forall|t: int| 0 <= t < w1s.len() implies #[trigger] w1@[t] =~= w1s[t] by {}
            }
            assert(w1_in_range(w1s, w1_modulus(q, params.gamma2))) by {
                assert forall|t: int, i: int| 0 <= t < w1s.len() && 0 <= i < w1s[t].len() implies 0 <= #[trigger] w1s[t][i]
                    < w1_modulus(q, params.gamma2) by {
                    lemma_high_bits_range(ws[t][i] as int, params.gamma2 as int, q as int);
                }
            }
        }
        let tr = Self::compute_system_tr(&kp.matrix_a, &kp.public_key);
        let challenge = Self::derive_challenge(params, &w1, message, context, tr.as_slice(), pk_hash, delta_bytes);
        let ghost c = challenge@;
        let ghost yb = mask_bound(*params);
        let ghost zs = response_spec(y@, kp.secret_key@, c);
        let len = if y.elements.len() < kp.secret_key.elements.len() {
            y.elements.len()
        } else {
            kp.secret_key.elements.len()
        };
        let mut z_elems: Vec<Polynomial> = Vec::with_capacity(len);
        let mut j: usize = 0;
        while j < len
            invariant
                challenge_params_ok(*params),
                sign_shapes_ok(*params, *kp),
                sign_bounds_ok(*params, *kp),
                mask_ok(*params, *kp, y@),
                n == params.n,
                c == challenge@,
                c.len() == n,
                forall|i: int| 0 <= i < n ==> -1 <= #[trigger] c[i] <= 1,
                yb == mask_bound(*params),
                zs == response_spec(y@, kp.secret_key@, c),
                len == zs.len(),
                j <= len,
                z_elems@.len() == j,
                forall|t: int| 0 <= t < j ==> (#[trigger] z_elems@[t])@ == zs[t],
            decreases len - j,
        {
            let sj = &kp.secret_key.elements[j];
            assert(sj@ == kp.secret_key@[j as int]);
            assert(y.elements@[j as int]@ == y@[j as int]);
            proof {
                crate::mlwe::lemma_vec_max_abs_bound(kp.secret_key@, crate::mlwe::vec_max_abs(kp.secret_key@) + 1);
                let m = crate::mlwe::max_abs(sj@);
                let vm = crate::mlwe::vec_max_abs(kp.secret_key@);
                assert(m <= vm);
                assert(n * m <= n * vm) by (nonlinear_arith)
                    requires m <= vm, n >= 0;
                assert forall|t: int| 0 <= t < sj@.len() implies crate::mlwe::fits_i32(
                    #[trigger] crate::mlwe::mci_outer(sj@, c, t, c.len() as int),
                ) by {
                    lemma_mci_outer_tight(sj@, c, t, c.len() as int);
                    crate::mlwe::lemma_max_abs_bound(sj@, 0);
                    assert((-(n as int)) * m == -((n as int) * m)) by (nonlinear_arith);
                }
            }
            let cs = sj.mul_challenge_integer(&challenge);
            proof {
                let m = crate::mlwe::max_abs(sj@);
                let vm = crate::mlwe::vec_max_abs(kp.secret_key@);
                crate::mlwe::lemma_vec_max_abs_bound(kp.secret_key@, vm + 1);
                assert(m <= vm);
                assert(n * m <= n * vm) by (nonlinear_arith)
                    requires m <= vm, n >= 0;
                assert forall|i: int| 0 <= i < y@[j as int].len() && i < cs@.len() implies crate::mlwe::fits_i32(
                    #[trigger] (y@[j as int][i] + cs@[i]),
                ) by {
                    lemma_mci_outer_tight(sj@, c, i, c.len() as int);
                    crate::mlwe::lemma_max_abs_bound(sj@, 0);
                    assert((-(n as int)) * m == -((n as int) * m)) by (nonlinear_arith);
                    assert(crate::mlwe::coeffs_within(y@[j as int], -yb, yb));
                    assert(-yb <= y@[j as int][i] <= yb);
                    assert(cs@[i] == crate::mlwe::mci_outer(sj@, c, i, c.len() as int));
                    assert(n * m <= n * vm);
                }
            }
            let zj = y.elements[j].add_integer(&cs);
            assert(zj@ =~= zs[j as int]);
            z_elems.push(zj);
            j += 1;
        }
        let z_int = PolynomialVector { elements: z_elems };
        assert(z_int@ =~= zs) by {
            assert forall|t: int| 0 <= t < zs.len() implies #[trigger] z_int@[t] == zs[t] by {
                assert(z_int@[t] == z_int.elements@[t]@);
            }
        }
        let zb: i64 = if params.gamma1 >= (if params.beta > 0 { params.beta as u32 } else { 0 }) {
            params.gamma1 as i64 - (if params.beta > 0 { params.beta as i64 } else { 0 })
        } else {
            0
        };
        let bound: i64 = if zb - params.eta2 as i64 >= 1 { zb - params.eta2 as i64 } else { 1 };
        assert(bound == accept_bound(*params));
        if z_int.infinity_norm_integer() < bound {
            let mut z_red: Vec<Polynomial> = Vec::with_capacity(z_int.elements.len());
            let mut t: usize = 0;
            while t < z_int.elements.len()
                invariant
                    valid_q(q),
                    t <= z_int@.len(),
                    z_red@.len() == t,
                    forall|u: int| 0 <= u < t ==> (#[trigger] z_red@[u])@ == reduce_vec(z_int@, q as int)[u],
                decreases z_int@.len() - t,
            {
                let p = Polynomial::from_coeffs(z_int.elements[t].coeffs.as_slice(), q);
                assert(p@ =~= reduce_vec(z_int@, q as int)[t as int]);
                z_red.push(p);
                t += 1;
            }
            let z = PolynomialVector { elements: z_red };
            assert(z@ =~= reduce_vec(zs, q as int)) by {
                assert forall|u: int| 0 <= u < zs.len() implies #[trigger] z@[u] == reduce_vec(zs, q as int)[u] by {
                    assert(z@[u] == z.elements@[u]@);
                }
            }
            let ce = Self::poly_vec_scalar_mul(&kp.error_vector, &challenge, q);
            let mut neg: Vec<Polynomial> = Vec::with_capacity(ce.elements.len());
            let mut u: usize = 0;
            while u < ce.elements.len()
                invariant
                    valid_q(q),
                    u <= ce@.len(),
                    ce@.len() == kp.error_vector@.len(),
                    forall|a: int| 0 <= a < ce@.len() ==> (#[trigger] ce@[a]).len() == n,
                    forall|a: int, k: int| 0 <= a < ce@.len() && 0 <= k < n ==> #[trigger] ce@[a][k]
                        == crate::mlwe::negacyclic_coeff(kp.error_vector@[a], c, k) % (q as int),
                    c.len() == n,
                    neg@.len() == u,
                    forall|a: int| 0 <= a < u ==> (#[trigger] neg@[a])@.len() == n,
                    forall|a: int, k: int| 0 <= a < u && 0 <= k < n ==> #[trigger] neg@[a]@[k]
                        == ((crate::mlwe::negacyclic_coeff(kp.error_vector@[a], c, k) % (q as int)) * -1) % (q as int),
                decreases ce@.len() - u,
            {
                let pe = &ce.elements[u];
                assert(pe@ == ce@[u as int]);
                proof {
                    assert forall|k: int| 0 <= k < pe@.len() implies crate::mlwe::fits_i32(#[trigger] pe@[k] * -1) by {
                        vstd::arithmetic::div_mod::lemma_mod_bound(
                            crate::mlwe::negacyclic_coeff(kp.error_vector@[u as int], c, k),
                            q as int,
                        );
                    }
                }
                neg.push(pe.scalar_mul(-1, q));
                u += 1;
            }
            let neg_ce = PolynomialVector { elements: neg };
            assert forall|a: int| 0 <= a < neg_ce@.len() && a < w@.len() implies (#[trigger] w@[a]).len() >= neg_ce@[a].len() by {
                assert(neg_ce@[a] == neg_ce.elements@[a]@);
            }
            let hints = PolynomialVector::make_hint(&neg_ce, &w, params.gamma2, q);
            let ghost hs = sign_hints(kp.error_vector@, c, ws, params.gamma2, q as int);
            assert(hints@ =~= hs) by {
                assert forall|a: int| 0 <= a < hs.len() implies #[trigger] hints@[a] =~= hs[a] by {
                    assert(neg_ce@[a] == neg_ce.elements@[a]@);
                }
            }
            let metadata: std::collections::HashMap<String, Vec<u8>> = std::collections::HashMap::new();
            Some(MLWESignature { z, challenge, hints: Some(hints), metadata, crf_seed: None })
        } else {
            None
        }
    }
}

/// Most masking vectors tried before signing gives up.
pub const MAX_SIGN_ATTEMPTS: u32 = 5000;

/// `sig` is what one signing attempt gives for some admissible masking vector.
pub open spec fn signed_by(
    params: MLWEParameters,
    kp: MLWEKeyPair,
    message: Seq<u8>,
    context: Seq<u8>,
    pk_hash: Seq<u8>,
    delta: Seq<u8>,
    sig: MLWESignature,
) -> bool {
    &&& sig.hints is Some
    &&& sig.crf_seed is None
    &&& exists|y: Seq<Seq<i32>>|
        #[trigger] mask_ok(params, kp, y) && attempt_spec(params, kp, y, message, context, pk_hash, delta) == Some(
            (sig.z@, sig.challenge@, sig.hints->Some_0@),
        )
}

impl MLWESignature {
    /// Sign `message` under `context`, returning `SignFailed` when every one
    /// of `MAX_SIGN_ATTEMPTS` masking vectors is rejected.
    pub fn try_sign(
        params: &MLWEParameters,
        kp: &MLWEKeyPair,
        message: &[u8],
        context: &[u8],
        rng: &mut ThreadRng,
        pk_hash: &[u8],
        delta_bytes: &[u8],
    ) -> (r: Result<Self, crate::errors::PabsCrfError>)
        requires
            challenge_params_ok(*params),
            sign_shapes_ok(*params, *kp),
            sign_bounds_ok(*params, *kp),
        ensures
            r matches Ok(sig) ==> signed_by(*params, *kp, message@, context@, pk_hash@, delta_bytes@, sig),
            r matches Err(e) ==> e is SignFailed,
    {
        Self::sign_internal(params, kp, message, context, rng, pk_hash, delta_bytes)
    }

    /// The rejection-sampling loop: draw `y` uniformly from
    /// `[-mask_bound, mask_bound]^(cols x n)` and run [`Self::sign_attempt`]
    /// until a response is accepted.
    fn sign_internal(
        params: &MLWEParameters,
        kp: &MLWEKeyPair,
        message: &[u8],
        context: &[u8],
        rng: &mut ThreadRng,
        pk_hash: &[u8],
        delta_bytes: &[u8],
    ) -> (r: Result<Self, crate::errors::PabsCrfError>)
        requires
            challenge_params_ok(*params),
            sign_shapes_ok(*params, *kp),
            sign_bounds_ok(*params, *kp),
        ensures
            r matches Ok(sig) ==> signed_by(*params, *kp, message@, context@, pk_hash@, delta_bytes@, sig),
            r matches Err(e) ==> e is SignFailed,
    {
        let n = params.n;
        let k_in = kp.matrix_a.cols;
        let beta_pos: u32 = if params.beta > 0 { params.beta as u32 } else { 0 };
        let z_bound: u32 = if params.gamma1 >= beta_pos { params.gamma1 - beta_pos } else { 0 };
        let y_bound: u32 = if z_bound / 2 >= 1 { z_bound / 2 } else { 1 };
        assert(y_bound == mask_bound(*params));
        let mut attempt: u32 = 0;
        while attempt < MAX_SIGN_ATTEMPTS
            invariant
                challenge_params_ok(*params),
                sign_shapes_ok(*params, *kp),
                sign_bounds_ok(*params, *kp),
                n == params.n,
                k_in == kp.matrix_a.cols,
                y_bound == mask_bound(*params),
                y_bound < 0x4000_0000,
            decreases MAX_SIGN_ATTEMPTS - attempt,
        {
            attempt += 1;
            let mut elems: Vec<Polynomial> = Vec::with_capacity(k_in);
            let mut j: usize = 0;
            while j < k_in
                invariant
                    y_bound < 0x4000_0000,
                    j <= k_in,
                    elems@.len() == j,
                    forall|t: int| 0 <= t < j ==> (#[trigger] elems@[t])@.len() == n,
                    forall|t: int| 0 <= t < j ==> crate::mlwe::coeffs_within(
                        (#[trigger] elems@[t])@,
                        -(y_bound as int),
                        y_bound as int,
                    ),
                decreases k_in - j,
            {
                elems.push(Polynomial::rand_poly_uniform(n, y_bound, rng));
                j += 1;
            }
            let y = PolynomialVector { elements: elems };
            assert(mask_ok(*params, *kp, y@)) by {
                assert forall|t: int| 0 <= t < y@.len() implies (#[trigger] y@[t]).len() == n by {
                    assert(y@[t] == y.elements@[t]@);
                }
                assert forall|t: int| 0 <= t < y@.len() implies crate::mlwe::coeffs_within(
                    #[trigger] y@[t],
                    -mask_bound(*params),
                    mask_bound(*params),
                ) by {
                    assert(y@[t] == y.elements@[t]@);
                }
            }
            match Self::sign_attempt(params, kp, &y, message, context, pk_hash, delta_bytes) {
                Some(sig) => {
                    assert(mask_ok(*params, *kp, y@));
                    return Ok(sig);
                },
                None => {},
            }
        }
        Err(crate::errors::PabsCrfError::SignFailed("Rejection sampling failed after 5000 attempts".to_string()))
    }
}

} // verus!
