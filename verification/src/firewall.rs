//! Cryptographic reverse firewall for the structured signing path.
//!
//! Fiat-Shamir signatures cannot be post-processed once the challenge is
//! fixed, so the firewall works in two stages: it samples a secret mask `r` and
//! exposes only `delta = A r`, which the signer binds into its challenge; then it
//! emits `z + r` after an integer-domain rejection check. The verifier subtracts
//! `delta` from `A z - c u_policy`.
use vstd::prelude::*;
use vstd::string::StringSliceAdditionalSpecFns;
use rand::rngs::ThreadRng;
use crate::algebra::{combined, matrix_vector_mul, min_len, pairwise_fits, vector_sub};
use crate::codec::{le32, le64, push_u32_le, push_u64_le, extend_bytes};
use crate::compression::flat;
use crate::errors::{PabsCrfError, PabsCrfResult};
use crate::hashing::{sha256, sha256_spec};
use crate::mlwe::{
    first_entry_len, fits_i32, mat_shape, max_abs, row_dot, valid_q, vec_coeffs_within, vec_max_abs, vec_uniform,
    MLWEParameters, Polynomial, PolynomialMatrix, PolynomialVector,
};
use crate::mlwe_sig::{i32s_le, lemma_i32s_le_concat, push_poly_le, reduce_vec};
use crate::modarith::center;
use crate::pabs::types::{CorePredicateSignature, FirewallSignature};
use crate::samplers::sample_small_vector;

verus! {

// ---------------------------------------------------------------------------
// Byte encodings bound into the transcript
// ---------------------------------------------------------------------------

/// Domain separator of the firewall transcript, `PABS-CRF::CryptographicReverseFirewall::v4`.
pub open spec fn crf_domain() -> Seq<u8> {
    seq![
        0x50u8, 0x41, 0x42, 0x53, 0x2d, 0x43, 0x52, 0x46, 0x3a, 0x3a, 0x43, 0x72, 0x79, 0x70, 0x74, 0x6f, 0x67,
        0x72, 0x61, 0x70, 0x68, 0x69, 0x63, 0x52, 0x65, 0x76, 0x65, 0x72, 0x73, 0x65, 0x46, 0x69, 0x72, 0x65,
        0x77, 0x61, 0x6c, 0x6c, 0x3a, 0x3a, 0x76, 0x34,
    ]
}

/// Label of the metadata tag, `::FirewallTag||`.
pub open spec fn tag_label() -> Seq<u8> {
    seq![0x3au8, 0x3a, 0x46, 0x69, 0x72, 0x65, 0x77, 0x61, 0x6c, 0x6c, 0x54, 0x61, 0x67, 0x7c, 0x7c]
}

/// Two's-complement little-endian bytes of a coefficient widened to `i64`.
pub open spec fn i64_le(c: i32) -> Seq<u8> {
    le64(if c < 0 { c + 0x1_0000_0000_0000_0000 } else { c as int })
}

/// The `i64` little-endian bytes of every value of `s`, in order.
pub open spec fn i64s_le(s: Seq<i32>) -> Seq<u8>
    decreases s.len(),
{
    if s.len() == 0 {
        Seq::empty()
    } else {
        i64s_le(s.drop_last()) + i64_le(s.last())
    }
}

/// Canonical hash bytes of a polynomial vector: every coefficient as an `i64`.
pub open spec fn hash_bytes_spec(v: Seq<Seq<i32>>) -> Seq<u8> {
    i64s_le(flat(v))
}

/// Framing of a polynomial: its coefficient count as a `u64`, then the coefficients as `i32`.
pub open spec fn poly_frame(p: Seq<i32>) -> Seq<u8> {
    le64(p.len() as int) + i32s_le(p)
}

/// The framings of the polynomials of `v`, one after another.
pub open spec fn polys_frame(v: Seq<Seq<i32>>) -> Seq<u8>
    decreases v.len(),
{
    if v.len() == 0 {
        Seq::empty()
    } else {
        polys_frame(v.drop_last()) + poly_frame(v.last())
    }
}

/// Framing of a polynomial vector: its length as a `u64`, then each polynomial's framing.
pub open spec fn vec_frame(v: Seq<Seq<i32>>) -> Seq<u8> {
    le64(v.len() as int) + polys_frame(v)
}

/// A length as the low 32 bits, little-endian.
pub open spec fn len32(n: nat) -> Seq<u8> {
    le32((n % 0x1_0000_0000) as int)
}

/// The bytes hashed into the firewall metadata tag.
pub open spec fn tag_input(
    z: Seq<Seq<i32>>,
    delta: Seq<Seq<i32>>,
    challenge: Seq<i32>,
    policy_digest: Seq<u8>,
    message_hash: Seq<u8>,
    pk_hash: Seq<u8>,
    tau: u64,
    gid: Seq<u8>,
    parameter_set_id: Seq<u8>,
) -> Seq<u8> {
    let cb = poly_frame(challenge);
    let zb = vec_frame(z);
    let db = vec_frame(delta);
    crf_domain() + tag_label() + len32(parameter_set_id.len()) + parameter_set_id + le64(tau as int) + gid + len32(
        policy_digest.len(),
    ) + policy_digest + len32(message_hash.len()) + message_hash + len32(pk_hash.len()) + pk_hash + len32(cb.len())
        + cb + len32(zb.len()) + zb + len32(db.len()) + db
}

fn tag_prefix() -> (r: Vec<u8>)
    ensures
        r@ == crf_domain() + tag_label(),
{
    let r: Vec<u8> = vec![
        0x50u8, 0x41, 0x42, 0x53, 0x2d, 0x43, 0x52, 0x46, 0x3a, 0x3a, 0x43, 0x72, 0x79, 0x70, 0x74, 0x6f, 0x67,
        0x72, 0x61, 0x70, 0x68, 0x69, 0x63, 0x52, 0x65, 0x76, 0x65, 0x72, 0x73, 0x65, 0x46, 0x69, 0x72, 0x65,
        0x77, 0x61, 0x6c, 0x6c, 0x3a, 0x3a, 0x76, 0x34, 0x3a, 0x3a, 0x46, 0x69, 0x72, 0x65, 0x77, 0x61, 0x6c,
        0x6c, 0x54, 0x61, 0x67, 0x7c, 0x7c,
    ];
    assert(r@ =~= crf_domain() + tag_label());
    r
}

/// The firewall metadata tag: SHA-256 of `tag_input`.
pub open spec fn firewall_tag_spec(
    z: Seq<Seq<i32>>,
    delta: Seq<Seq<i32>>,
    challenge: Seq<i32>,
    policy_digest: Seq<u8>,
    message_hash: Seq<u8>,
    pk_hash: Seq<u8>,
    tau: u64,
    gid: Seq<u8>,
    parameter_set_id: Seq<u8>,
) -> Seq<u8> {
    sha256_spec(tag_input(z, delta, challenge, policy_digest, message_hash, pk_hash, tau, gid, parameter_set_id))
}

/// The bytes the metadata tag of a signature is computed from.
pub open spec fn signature_tag_input(sig: FirewallSignature) -> Seq<u8> {
    tag_input(
        sig.z@,
        sig.firewall_delta@,
        sig.challenge@,
        sig.policy_digest@,
        sig.message_hash@,
        sig.pk_hash@,
        sig.tau,
        sig.gid@,
        vstd::utf8::encode_utf8(sig.parameter_set_id@),
    )
}

/// The tag a signature carries when its metadata is intact: the SHA-256 of
/// its tag input.
pub open spec fn expected_tag(sig: FirewallSignature) -> Seq<u8> {
    sha256_spec(signature_tag_input(sig))
}

/// Every length-prefixed part of the tag input is shorter than 2^32 bytes.
pub open spec fn tag_fields_fit(sig: FirewallSignature) -> bool {
    &&& vstd::utf8::encode_utf8(sig.parameter_set_id@).len() < 0x1_0000_0000
    &&& sig.policy_digest@.len() < 0x1_0000_0000
    &&& sig.message_hash@.len() < 0x1_0000_0000
    &&& sig.pk_hash@.len() < 0x1_0000_0000
    &&& poly_frame(sig.challenge@).len() < 0x1_0000_0000
    &&& vec_frame(sig.z@).len() < 0x1_0000_0000
    &&& vec_frame(sig.firewall_delta@).len() < 0x1_0000_0000
}

/// The metadata tag binds every field it covers: two signatures whose tag
/// inputs are equal carry the same parameter set, puncture tag, GID, policy
/// digest, message hash and public-key hash, and the same framed challenge,
/// response and correction. So a signature with any of these fields changed
/// (moved to another message hash, say) is checked by `validate_metadata`
/// against the SHA-256 of another input than the one its tag was made from.
pub proof fn lemma_tag_input_binds_fields(s1: FirewallSignature, s2: FirewallSignature)
    requires
        tag_fields_fit(s1),
        tag_fields_fit(s2),
    ensures
        signature_tag_input(s1) == signature_tag_input(s2) ==> {
            &&& vstd::utf8::encode_utf8(s1.parameter_set_id@) == vstd::utf8::encode_utf8(s2.parameter_set_id@)
            &&& s1.tau == s2.tau
            &&& s1.gid@ == s2.gid@
            &&& s1.policy_digest@ == s2.policy_digest@
            &&& s1.message_hash@ == s2.message_hash@
            &&& s1.pk_hash@ == s2.pk_hash@
            &&& poly_frame(s1.challenge@) == poly_frame(s2.challenge@)
            &&& vec_frame(s1.z@) == vec_frame(s2.z@)
            &&& vec_frame(s1.firewall_delta@) == vec_frame(s2.firewall_delta@)
        },
{
    let t1 = tag_parts(s1);
    let t2 = tag_parts(s2);
    lemma_tag_parts(s1);
    lemma_tag_parts(s2);
    if signature_tag_input(s1) == signature_tag_input(s2) {
        let d = crf_domain() + tag_label();
        assert(s1.gid@.len() == 32 && s2.gid@.len() == 32);
        lemma_peel(d, t1.0, d, t2.0);
        lemma_peel_framed(t1.1, t1.2, t2.1, t2.2);
        lemma_le64_len(s1.tau as int);
        lemma_le64_len(s2.tau as int);
        lemma_peel(le64(s1.tau as int), t1.3, le64(s2.tau as int), t2.3);
        lemma_le64_injective(s1.tau, s2.tau);
        lemma_peel(s1.gid@, t1.4, s2.gid@, t2.4);
        lemma_peel_framed(s1.policy_digest@, t1.5, s2.policy_digest@, t2.5);
        lemma_peel_framed(s1.message_hash@, t1.6, s2.message_hash@, t2.6);
        lemma_peel_framed(s1.pk_hash@, t1.7, s2.pk_hash@, t2.7);
        lemma_peel_framed(poly_frame(s1.challenge@), t1.8, poly_frame(s2.challenge@), t2.8);
        lemma_peel_framed(vec_frame(s1.z@), t1.9, vec_frame(s2.z@), t2.9);
        let (db1, db2) = (vec_frame(s1.firewall_delta@), vec_frame(s2.firewall_delta@));
        lemma_len32_len(db1.len());
        lemma_len32_len(db2.len());
        lemma_peel(len32(db1.len()), db1, len32(db2.len()), db2);
        lemma_len32_injective(db1.len(), db2.len());
    }
}

/// The parameter-set bytes, then the rest of the tag input after the domain
/// prefix, each part followed by what comes after it.
spec fn tag_parts(sig: FirewallSignature) -> (
    Seq<u8>,
    Seq<u8>,
    Seq<u8>,
    Seq<u8>,
    Seq<u8>,
    Seq<u8>,
    Seq<u8>,
    Seq<u8>,
    Seq<u8>,
    Seq<u8>,
) {
    let pid = vstd::utf8::encode_utf8(sig.parameter_set_id@);
    let cb = poly_frame(sig.challenge@);
    let zb = vec_frame(sig.z@);
    let db = vec_frame(sig.firewall_delta@);
    let after_z = len32(db.len()) + db;
    let after_c = len32(zb.len()) + (zb + after_z);
    let after_pk = len32(cb.len()) + (cb + after_c);
    let after_m = len32(sig.pk_hash@.len()) + (sig.pk_hash@ + after_pk);
    let after_pd = len32(sig.message_hash@.len()) + (sig.message_hash@ + after_m);
    let after_gid = len32(sig.policy_digest@.len()) + (sig.policy_digest@ + after_pd);
    let after_tau = sig.gid@ + after_gid;
    let after_pid = le64(sig.tau as int) + after_tau;
    let all = len32(pid.len()) + (pid + after_pid);
    (all, pid, after_pid, after_tau, after_gid, after_pd, after_m, after_pk, after_c, after_z)
}

/// The tag input is the domain prefix followed by the nested parts.
proof fn lemma_tag_parts(sig: FirewallSignature)
    ensures
        signature_tag_input(sig) == crf_domain() + tag_label() + tag_parts(sig).0,
{
    let pid = vstd::utf8::encode_utf8(sig.parameter_set_id@);
    let cb = poly_frame(sig.challenge@);
    let zb = vec_frame(sig.z@);
    let db = vec_frame(sig.firewall_delta@);
    lemma_nest(
        crf_domain() + tag_label(),
        len32(pid.len()),
        pid,
        le64(sig.tau as int),
        sig.gid@,
        len32(sig.policy_digest@.len()),
        sig.policy_digest@,
        len32(sig.message_hash@.len()),
        sig.message_hash@,
        len32(sig.pk_hash@.len()),
        sig.pk_hash@,
        len32(cb.len()),
        cb,
        len32(zb.len()),
        zb,
        len32(db.len()),
        db,
    );
}

/// Seventeen parts concatenated from the left equal the same parts nested to
/// the right.
proof fn lemma_nest(
    a0: Seq<u8>,
    a1: Seq<u8>,
    a2: Seq<u8>,
    a3: Seq<u8>,
    a4: Seq<u8>,
    a5: Seq<u8>,
    a6: Seq<u8>,
    a7: Seq<u8>,
    a8: Seq<u8>,
    a9: Seq<u8>,
    a10: Seq<u8>,
    a11: Seq<u8>,
    a12: Seq<u8>,
    a13: Seq<u8>,
    a14: Seq<u8>,
    a15: Seq<u8>,
    a16: Seq<u8>,
)
    ensures
        a0 + a1 + a2 + a3 + a4 + a5 + a6 + a7 + a8 + a9 + a10 + a11 + a12 + a13 + a14 + a15 + a16 == a0 + (a1 + (a2 + (a3
            + (a4 + (a5 + (a6 + (a7 + (a8 + (a9 + (a10 + (a11 + (a12 + (a13 + (a14 + (a15 + a16))))))))))))))),
{
    let r15 = a15 + a16;
    let r14 = a14 + r15;
    let r13 = a13 + r14;
    let r12 = a12 + r13;
    let r11 = a11 + r12;
    let r10 = a10 + r11;
    let r9 = a9 + r10;
    let r8 = a8 + r9;
    let r7 = a7 + r8;
    let r6 = a6 + r7;
    let r5 = a5 + r6;
    let r4 = a4 + r5;
    let r3 = a3 + r4;
    let r2 = a2 + r3;
    let r1 = a1 + r2;
    lemma_assoc(a0 + a1 + a2 + a3 + a4 + a5 + a6 + a7 + a8 + a9 + a10 + a11 + a12 + a13 + a14, a15, a16);
    lemma_assoc(a0 + a1 + a2 + a3 + a4 + a5 + a6 + a7 + a8 + a9 + a10 + a11 + a12 + a13, a14, r15);
    lemma_assoc(a0 + a1 + a2 + a3 + a4 + a5 + a6 + a7 + a8 + a9 + a10 + a11 + a12, a13, r14);
    lemma_assoc(a0 + a1 + a2 + a3 + a4 + a5 + a6 + a7 + a8 + a9 + a10 + a11, a12, r13);
    lemma_assoc(a0 + a1 + a2 + a3 + a4 + a5 + a6 + a7 + a8 + a9 + a10, a11, r12);
    lemma_assoc(a0 + a1 + a2 + a3 + a4 + a5 + a6 + a7 + a8 + a9, a10, r11);
    lemma_assoc(a0 + a1 + a2 + a3 + a4 + a5 + a6 + a7 + a8, a9, r10);
    lemma_assoc(a0 + a1 + a2 + a3 + a4 + a5 + a6 + a7, a8, r9);
    lemma_assoc(a0 + a1 + a2 + a3 + a4 + a5 + a6, a7, r8);
    lemma_assoc(a0 + a1 + a2 + a3 + a4 + a5, a6, r7);
    lemma_assoc(a0 + a1 + a2 + a3 + a4, a5, r6);
    lemma_assoc(a0 + a1 + a2 + a3, a4, r5);
    lemma_assoc(a0 + a1 + a2, a3, r4);
    lemma_assoc(a0 + a1, a2, r3);
    lemma_assoc(a0, a1, r2);
}

proof fn lemma_assoc(a: Seq<u8>, b: Seq<u8>, c: Seq<u8>)
    ensures
        a + b + c == a + (b + c),
{
    assert(a + b + c =~= a + (b + c));
}

/// Two concatenations with equally long first parts are equal only part by part.
proof fn lemma_peel(a1: Seq<u8>, r1: Seq<u8>, a2: Seq<u8>, r2: Seq<u8>)
    requires
        a1.len() == a2.len(),
        a1 + r1 == a2 + r2,
    ensures
        a1 == a2,
        r1 == r2,
{
    assert(a1 =~= (a1 + r1).subrange(0, a1.len() as int));
    assert(a2 =~= (a2 + r2).subrange(0, a1.len() as int));
    assert(r1 =~= (a1 + r1).subrange(a1.len() as int, (a1 + r1).len() as int));
    assert(r2 =~= (a2 + r2).subrange(a1.len() as int, (a2 + r2).len() as int));
}

/// A field behind its four length bytes, followed by the rest, is read back.
proof fn lemma_peel_framed(m1: Seq<u8>, r1: Seq<u8>, m2: Seq<u8>, r2: Seq<u8>)
    requires
        m1.len() < 0x1_0000_0000,
        m2.len() < 0x1_0000_0000,
        len32(m1.len()) + (m1 + r1) == len32(m2.len()) + (m2 + r2),
    ensures
        m1 == m2,
        r1 == r2,
{
    lemma_len32_len(m1.len());
    lemma_len32_len(m2.len());
    lemma_peel(len32(m1.len()), m1 + r1, len32(m2.len()), m2 + r2);
    lemma_len32_injective(m1.len(), m2.len());
    lemma_peel(m1, r1, m2, r2);
}

proof fn lemma_le64_len(x: int)
    ensures
        le64(x).len() == 8,
{
}

/// Eight little-endian bytes determine the `u64` they encode.
proof fn lemma_le64_injective(a: u64, b: u64)
    requires
        le64(a as int) == le64(b as int),
    ensures
        a == b,
{
    let s = le64(a as int);
    assert(s.subrange(0, 8) =~= s);
    crate::codec::lemma_le64_roundtrip(a as int, s, 0);
    crate::codec::lemma_le64_roundtrip(b as int, s, 0);
}

proof fn lemma_len32_len(n: nat)
    ensures
        len32(n).len() == 4,
{
}

/// Below 2^32, the four length bytes determine the length.
proof fn lemma_len32_injective(a: nat, b: nat)
    requires
        a < 0x1_0000_0000,
        b < 0x1_0000_0000,
        len32(a) == len32(b),
    ensures
        a == b,
{
    vstd::arithmetic::div_mod::lemma_small_mod(a, 0x1_0000_0000);
    vstd::arithmetic::div_mod::lemma_small_mod(b, 0x1_0000_0000);
    lemma_le32_injective(a as int, b as int);
}

proof fn lemma_le32_injective(a: int, b: int)
    requires
        0 <= a < 0x1_0000_0000,
        0 <= b < 0x1_0000_0000,
        le32(a) == le32(b),
    ensures
        a == b,
{
    let s = le32(a);
    assert(s.subrange(0, 4) =~= s);
    crate::codec::lemma_le32_roundtrip(a, s, 0);
    crate::codec::lemma_le32_roundtrip(b, s, 0);
}

fn push_i64_le(buf: &mut Vec<u8>, c: i32)
    ensures
        final(buf)@ == old(buf)@ + i64_le(c),
{
    let u: u64 = if c < 0 {
        u64::MAX - ((-(c as i64)) as u64) + 1
    } else {
        c as u64
    };
    push_u64_le(buf, u);
}

fn push_poly_i64(buf: &mut Vec<u8>, p: &Polynomial)
    ensures
        final(buf)@ == old(buf)@ + i64s_le(p@),
{
    let mut i: usize = 0;
    while i < p.coeffs.len()
        invariant
            i <= p@.len(),
            buf@ == old(buf)@ + i64s_le(p@.take(i as int)),
        decreases p@.len() - i,
    {
        push_i64_le(buf, p.coeffs[i]);
        proof {
            assert(p@.take(i + 1).drop_last() =~= p@.take(i as int));
            assert(p@.take(i + 1).last() == p@[i as int]);
            assert(buf@ =~= old(buf)@ + i64s_le(p@.take(i + 1)));
        }
        i += 1;
    }
    assert(p@.take(p@.len() as int) =~= p@);
}

proof fn lemma_i64s_le_concat(x: Seq<i32>, y: Seq<i32>)
    ensures
        i64s_le(x + y) == i64s_le(x) + i64s_le(y),
    decreases y.len(),
{
    if y.len() == 0 {
        assert(x + y =~= x);
    } else {
        lemma_i64s_le_concat(x, y.drop_last());
        assert((x + y).drop_last() =~= x + y.drop_last());
        assert((x + y).last() == y.last());
        assert(i64s_le(x) + i64s_le(y) =~= i64s_le(x) + i64s_le(y.drop_last()) + i64_le(y.last()));
    }
}

/// Canonical polynomial-vector bytes used for the Fiat-Shamir binding of
/// `delta`: every coefficient as a little-endian `i64`.
pub fn serialize_polynomial_vector_for_hash(pv: &PolynomialVector) -> (bytes: Vec<u8>)
    ensures
        bytes@ == hash_bytes_spec(pv@),
{
    let ghost vv = pv@;
    let mut bytes: Vec<u8> = Vec::new();
    let mut j: usize = 0;
    while j < pv.elements.len()
        invariant
            j <= vv.len(),
            vv == pv@,
            bytes@ == i64s_le(flat(vv.take(j as int))),
        decreases vv.len() - j,
    {
        push_poly_i64(&mut bytes, &pv.elements[j]);
        proof {
            assert(vv.take(j + 1).drop_last() =~= vv.take(j as int));
            assert(vv.take(j + 1).last() == pv.elements@[j as int]@);
            lemma_i64s_le_concat(flat(vv.take(j as int)), vv[j as int]);
        }
        j += 1;
    }
    assert(vv.take(vv.len() as int) =~= vv);
    bytes
}

fn push_poly_frame(buf: &mut Vec<u8>, p: &Polynomial)
    ensures
        final(buf)@ == old(buf)@ + poly_frame(p@),
{
    push_u64_le(buf, p.coeffs.len() as u64);
    push_poly_le(buf, p);
    assert(final(buf)@ =~= old(buf)@ + poly_frame(p@));
}

fn vec_frame_bytes(v: &PolynomialVector) -> (out: Vec<u8>)
    ensures
        out@ == vec_frame(v@),
{
    let ghost vv = v@;
    let mut out: Vec<u8> = Vec::new();
    push_u64_le(&mut out, v.elements.len() as u64);
    let mut j: usize = 0;
    while j < v.elements.len()
        invariant
            j <= vv.len(),
            vv == v@,
            out@ == le64(vv.len() as int) + polys_frame(vv.take(j as int)),
        decreases vv.len() - j,
    {
        push_poly_frame(&mut out, &v.elements[j]);
        proof {
            assert(vv.take(j + 1).drop_last() =~= vv.take(j as int));
            assert(vv.take(j + 1).last() == v.elements@[j as int]@);
            assert(out@ =~= le64(vv.len() as int) + polys_frame(vv.take(j + 1)));
        }
        j += 1;
    }
    assert(vv.take(vv.len() as int) =~= vv);
    out
}

fn push_len32(buf: &mut Vec<u8>, n: usize)
    ensures
        final(buf)@ == old(buf)@ + len32(n as nat),
{
    let low: u64 = (n as u64) % 0x1_0000_0000;
    push_u32_le(buf, low as u32);
}

/// The firewall metadata tag over the response, the correction term and the
/// public signature metadata.
fn firewall_tag(
    z: &PolynomialVector,
    delta: &PolynomialVector,
    challenge: &Polynomial,
    policy_digest: &[u8],
    message_hash: &[u8],
    pk_hash: &[u8],
    tau: u64,
    gid: &[u8; 32],
    parameter_set_id: &str,
) -> (tag: Vec<u8>)
    ensures
        tag@ == firewall_tag_spec(
            z@,
            delta@,
            challenge@,
            policy_digest@,
            message_hash@,
            pk_hash@,
            tau,
            gid@,
            parameter_set_id.spec_bytes(),
        ),
{
    let z_bytes = vec_frame_bytes(z);
    let delta_bytes = vec_frame_bytes(delta);
    let mut challenge_bytes: Vec<u8> = Vec::new();
    push_poly_frame(&mut challenge_bytes, challenge);
    assert(challenge_bytes@ =~= poly_frame(challenge@));
    let pid = parameter_set_id.as_bytes();
    let mut input = tag_prefix();
    push_len32(&mut input, pid.len());
    extend_bytes(&mut input, pid);
    push_u64_le(&mut input, tau);
    extend_bytes(&mut input, gid.as_slice());
    push_len32(&mut input, policy_digest.len());
    extend_bytes(&mut input, policy_digest);
    push_len32(&mut input, message_hash.len());
    extend_bytes(&mut input, message_hash);
    push_len32(&mut input, pk_hash.len());
    extend_bytes(&mut input, pk_hash);
    push_len32(&mut input, challenge_bytes.len());
    extend_bytes(&mut input, challenge_bytes.as_slice());
    push_len32(&mut input, z_bytes.len());
    extend_bytes(&mut input, z_bytes.as_slice());
    push_len32(&mut input, delta_bytes.len());
    extend_bytes(&mut input, delta_bytes.as_slice());
    sha256(input.as_slice())
}

// ---------------------------------------------------------------------------
// The firewall
// ---------------------------------------------------------------------------

/// `A * v mod q` with the dimensions of `A`.
pub open spec fn mat_vec_spec(a: PolynomialMatrix, v: Seq<Seq<i32>>, q: int) -> Seq<Seq<i32>> {
    Seq::new(
        a.rows as nat,
        |i: int| Seq::new(first_entry_len(a@) as nat, |k: int| (row_dot(a@[i], v, k, a.cols as int) % q) as i32),
    )
}

/// The integer-domain response `center(z) + r`, over the common prefix of both vectors.
pub open spec fn crf_response(z: Seq<Seq<i32>>, mask: Seq<Seq<i32>>, q: int) -> Seq<Seq<i32>> {
    Seq::new(
        if z.len() < mask.len() { z.len() } else { mask.len() },
        |j: int| Seq::new(
            (if z[j].len() < mask[j].len() { z[j].len() } else { mask[j].len() }),
            |i: int| (center(z[j][i] as int, q) + mask[j][i]) as i32,
        ),
    )
}

/// Every coefficient of `center(z) + r` fits in an `i32`.
pub open spec fn crf_fits(z: Seq<Seq<i32>>, mask: Seq<Seq<i32>>, q: int) -> bool {
    forall|j: int, i: int|
        0 <= j < z.len() && j < mask.len() && 0 <= i < z[j].len() && i < mask[j].len() ==> fits_i32(
            center(#[trigger] z[j][i] as int, q) + #[trigger] mask[j][i],
        )
}

/// The rejection bound of the integer-domain check, `gamma1 - beta`.
pub open spec fn crf_bound(p: MLWEParameters) -> int {
    p.gamma1 - p.beta
}

/// The response passes the integer-domain rejection check.
pub open spec fn crf_accepts(p: MLWEParameters, z: Seq<Seq<i32>>, mask: Seq<Seq<i32>>) -> bool {
    vec_max_abs(crf_response(z, mask, p.q as int)) < crf_bound(p)
}

/// The firewall signature made from `core`, the correction term `delta` and the mask.
pub open spec fn firewall_output(
    p: MLWEParameters,
    core: CorePredicateSignature,
    delta: Seq<Seq<i32>>,
    mask: Seq<Seq<i32>>,
    pk_hash: Seq<u8>,
    tau: u64,
    sig: FirewallSignature,
) -> bool {
    &&& sig.z@ == reduce_vec(crf_response(core.z@, mask, p.q as int), p.q as int)
    &&& sig.firewall_delta@ == delta
    &&& sig.challenge == core.challenge
    &&& sig.hints == core.hints
    &&& sig.policy == core.policy
    &&& sig.message_hash == core.message_hash
    &&& sig.attributes_used == core.attributes_used
    &&& sig.policy_digest == core.policy_digest
    &&& sig.parameter_set_id == core.parameter_set_id
    &&& sig.pk_hash@ == pk_hash
    &&& sig.crf_seed is None
    &&& sig.tau == tau
    &&& sig.gid == core.gid
    &&& sig.firewall_tag@ == expected_tag(sig)
}

/// `v - delta mod q` over the common prefix of each pair of polynomials.
pub open spec fn adjusted_commitment(v: Seq<Seq<i32>>, delta: Seq<Seq<i32>>, q: int) -> Seq<Seq<i32>> {
    Seq::new(v.len(), |j: int| Seq::new(min_len(v[j], delta[j]) as nat, |i: int| ((v[j][i] - delta[j][i]) % q) as i32))
}

/// Every coefficient centered modulo `q`, as `i32`.
pub open spec fn centered_coeffs(z: Seq<Seq<i32>>, q: int) -> Seq<Seq<i32>> {
    Seq::new(z.len(), |j: int| Seq::new(z[j].len(), |l: int| center(z[j][l] as int, q) as i32))
}

/// The firewall is transparent to the verifier: for the rerandomized response
/// `z' = (center(z) + r) mod q` and the correction `delta = A r`, the corrected
/// commitment `A z' - c t - delta` equals the commitment `A z - c t` of the
/// core response, modulo `q`.
pub proof fn lemma_correction_cancels(
    a: PolynomialMatrix,
    z: Seq<Seq<i32>>,
    mask: Seq<Seq<i32>>,
    t: Seq<Seq<i32>>,
    c: Seq<i32>,
    q: int,
)
    requires
        1 <= q <= 0x4000_0000,
        mat_shape(a@, a.rows as int, a.cols as int, first_entry_len(a@)),
        a.rows >= 1,
        a.cols >= 1,
        first_entry_len(a@) >= 1,
        z.len() == a.cols,
        mask.len() == a.cols,
        forall|j: int| 0 <= j < a.cols ==> (#[trigger] z[j]).len() == first_entry_len(a@),
        forall|j: int| 0 <= j < a.cols ==> (#[trigger] mask[j]).len() == first_entry_len(a@),
        crf_fits(z, mask, q),
    ensures
        adjusted_commitment(
            crate::mlwe_sig::verifier_commitment(
                a@,
                a.rows as int,
                a.cols as int,
                first_entry_len(a@),
                reduce_vec(crf_response(z, mask, q), q),
                t,
                c,
                q,
            ),
            mat_vec_spec(a, mask, q),
            q,
        ) == crate::mlwe_sig::verifier_commitment(a@, a.rows as int, a.cols as int, first_entry_len(a@), z, t, c, q),
{
    let n = first_entry_len(a@);
    let rows = a.rows as int;
    let cols = a.cols as int;
    let resp = crf_response(z, mask, q);
    let zr = reduce_vec(resp, q);
    let zc = centered_coeffs(z, q);
    let v2 = crate::mlwe_sig::verifier_commitment(a@, rows, cols, n, zr, t, c, q);
    let v1 = crate::mlwe_sig::verifier_commitment(a@, rows, cols, n, z, t, c, q);
    let delta = mat_vec_spec(a, mask, q);
    let lhs = adjusted_commitment(v2, delta, q);
    assert forall|i: int, k: int| 0 <= i < rows && 0 <= k < n implies #[trigger] lhs[i][k] == v1[i][k] by {
        let row = a@[i];
        assert forall|j: int| 0 <= j < cols implies 0 <= k < (#[trigger] row[j]).len() by {}
        assert forall|j: int, l: int| 0 <= j < cols && 0 <= l < row[j].len() implies (#[trigger] zr[j][l] as int) % q
            == (resp[j][l] as int) % q by {
            vstd::arithmetic::div_mod::lemma_mod_twice(resp[j][l] as int, q);
        }
        crate::mlwe::lemma_row_dot_cong(row, zr, resp, k, cols, q);
        assert forall|j: int, l: int| 0 <= j < cols && 0 <= l < row[j].len() implies (#[trigger] resp[j][l] as int)
            == zc[j][l] + mask[j][l] by {
            crate::modarith::lemma_center(z[j][l] as int, q);
        }
        crate::mlwe::lemma_row_dot_add(row, zc, mask, resp, k, cols);
        assert forall|j: int, l: int| 0 <= j < cols && 0 <= l < row[j].len() implies (#[trigger] zc[j][l] as int) % q
            == (z[j][l] as int) % q by {
            crate::modarith::lemma_center(z[j][l] as int, q);
        }
        crate::mlwe::lemma_row_dot_cong(row, zc, z, k, cols, q);
        let dz = crate::mlwe::row_dot(row, z, k, cols);
        let dzr = crate::mlwe::row_dot(row, zr, k, cols);
        let dzc = crate::mlwe::row_dot(row, zc, k, cols);
        let dm = crate::mlwe::row_dot(row, mask, k, cols);
        let nc = crate::mlwe::negacyclic_coeff(t[i], c, k);
        assert(v2[i][k] == ((dzr - nc) % q) as i32);
        assert(delta[i][k] == (dm % q) as i32);
        lemma_cancel_mod(dzr, dzc, dm, dz, nc, q);
    }
    assert(lhs =~= v1) by {
        assert forall|i: int| 0 <= i < rows implies #[trigger] lhs[i] =~= v1[i] by {}
    }
}

/// `((dzr - nc) mod q - dm mod q) mod q == (dz - nc) mod q` when `dzr = dzc + dm` and `dzc = dz` modulo `q`.
proof fn lemma_cancel_mod(dzr: int, dzc: int, dm: int, dz: int, nc: int, q: int)
    requires
        1 <= q <= 0x4000_0000,
        dzr % q == (dzc + dm) % q,
        dzc % q == dz % q,
    ensures
        ((((dzr - nc) % q) as i32 - (dm % q) as i32) % q) as i32 == ((dz - nc) % q) as i32,
{
    vstd::arithmetic::div_mod::lemma_mod_bound(dzr - nc, q);
    vstd::arithmetic::div_mod::lemma_mod_bound(dm, q);
    vstd::arithmetic::div_mod::lemma_mod_bound(dz - nc, q);
    let x = (dzr - nc) % q;
    let y = dm % q;
    assert((x as i32) as int == x);
    assert((y as i32) as int == y);
    vstd::arithmetic::div_mod::lemma_sub_mod_noop(dzr - nc, dm, q);
    vstd::arithmetic::div_mod::lemma_mod_bound(x - y, q);
    assert((x - y) % q == (dzr - nc - dm) % q);
    vstd::arithmetic::div_mod::lemma_sub_mod_noop(dzr, nc + dm, q);
    vstd::arithmetic::div_mod::lemma_sub_mod_noop(dzc + dm, nc + dm, q);
    assert((dzr - (nc + dm)) % q == ((dzc + dm) - (nc + dm)) % q);
    vstd::arithmetic::div_mod::lemma_sub_mod_noop(dzc, nc, q);
    vstd::arithmetic::div_mod::lemma_sub_mod_noop(dz, nc, q);
}

/// CRF pre-commitment created before the core signer derives its challenge:
/// the secret mask `r`, the public correction `delta = A r` and its canonical bytes.
#[derive(Debug, PartialEq, Eq)]
pub struct CrfPrecommitment {
    mask: PolynomialVector,
    delta: PolynomialVector,
    delta_bytes: Vec<u8>,
}

impl CrfPrecommitment {
    /// The secret mask `r`.
    pub closed spec fn spec_mask(&self) -> Seq<Seq<i32>> {
        self.mask@
    }

    /// The public correction term.
    pub closed spec fn spec_delta(&self) -> Seq<Seq<i32>> {
        self.delta@
    }

    /// The canonical bytes of the correction term.
    pub closed spec fn spec_delta_bytes(&self) -> Seq<u8> {
        self.delta_bytes@
    }

    /// Public correction term `delta = A*r`.
    pub fn delta(&self) -> (r: &PolynomialVector)
        ensures
            r@ == self.spec_delta(),
    {
        &self.delta
    }

    /// Canonical bytes of `delta`, used as Fiat-Shamir input.
    pub fn delta_bytes(&self) -> (r: &[u8])
        ensures
            r@ == self.spec_delta_bytes(),
    {
        self.delta_bytes.as_slice()
    }
}

impl Clone for CrfPrecommitment {
    fn clone(&self) -> (r: Self)
        ensures
            r.spec_mask() == self.spec_mask(),
            r.spec_delta() == self.spec_delta(),
            r.spec_delta_bytes() == self.spec_delta_bytes(),
    {
        CrfPrecommitment {
            mask: self.mask.clone(),
            delta: self.delta.clone(),
            delta_bytes: self.delta_bytes.clone(),
        }
    }
}

/// Cryptographic reverse firewall bound to a parameter set and a retry budget.
pub struct StrongFirewall {
    params: MLWEParameters,
    max_attempts: usize,
}

/// Paper-facing name for the firewall API.
pub type CryptographicReverseFirewall = StrongFirewall;

fn security_violation() -> (e: PabsCrfError)
    ensures
        e is SecurityViolation,
{
    PabsCrfError::SecurityViolation("CRF integer-domain rejection check failed".to_string())
}

impl StrongFirewall {
    /// The parameters the firewall was made with.
    pub closed spec fn spec_params(&self) -> MLWEParameters {
        self.params
    }

    /// The retry budget the firewall was made with.
    pub closed spec fn spec_max_attempts(&self) -> usize {
        self.max_attempts
    }

    /// Create a firewall bound to the supplied parameters and retry budget.
    pub fn new(params: MLWEParameters, max_attempts: usize) -> (f: Self)
        ensures
            f.spec_params() == params,
            f.spec_max_attempts() == max_attempts,
    {
        StrongFirewall { params, max_attempts }
    }

    /// Generate a CRF pre-commitment to be bound into the core challenge: a
    /// fresh CBD(`eta2`) mask with one polynomial per column of `A`.
    pub fn precommit(&self, matrix_a: &PolynomialMatrix, rng: &mut ThreadRng) -> (r: PabsCrfResult<CrfPrecommitment>)
        requires
            valid_q(self.spec_params().q),
            self.spec_params().eta2 >= 0,
            mat_shape(matrix_a@, matrix_a.rows as int, matrix_a.cols as int, self.spec_params().n as int),
        ensures
            r is Err <==> self.spec_max_attempts() == 0 || matrix_a.rows == 0 || matrix_a.cols == 0,
            r matches Err(e) ==> e is InvalidParameters,
            r matches Ok(pc) ==> {
                &&& pc.spec_mask().len() == matrix_a.cols
                &&& vec_uniform(pc.spec_mask(), self.spec_params().n as int)
                &&& vec_coeffs_within(pc.spec_mask(), -(self.spec_params().eta2 as int), self.spec_params().eta2 as int)
                &&& pc.spec_delta() == mat_vec_spec(*matrix_a, pc.spec_mask(), self.spec_params().q as int)
                &&& pc.spec_delta_bytes() == hash_bytes_spec(pc.spec_delta())
            },
    {
        if self.max_attempts == 0 {
            return Err(PabsCrfError::InvalidParameters("CRF max_attempts must be positive".to_string()));
        }
        if matrix_a.rows == 0 || matrix_a.cols == 0 {
            return Err(
                PabsCrfError::InvalidParameters("CRF precommit requires a non-empty public matrix".to_string()),
            );
        }
        let mask = sample_small_vector(&self.params, matrix_a.cols, self.params.eta2, rng);
        proof {
            assert(matrix_a@[0].len() == matrix_a.cols);
            assert(first_entry_len(matrix_a@) == self.params.n);
        }
        self.precommit_with_mask(matrix_a, mask)
    }

    /// Build a CRF pre-commitment from a supplied mask.
    pub fn precommit_with_mask(&self, matrix_a: &PolynomialMatrix, mask: PolynomialVector) -> (r: PabsCrfResult<
        CrfPrecommitment,
    >)
        requires
            valid_q(self.spec_params().q),
            mask@.len() == matrix_a.cols ==> crate::mlwe::mat_vec_ok(*matrix_a, mask@, first_entry_len(matrix_a@)),
        ensures
            r is Err <==> mask@.len() != matrix_a.cols,
            r matches Err(e) ==> e is InvalidInput,
            r matches Ok(pc) ==> {
                &&& pc.spec_mask() == mask@
                &&& pc.spec_delta() == mat_vec_spec(*matrix_a, mask@, self.spec_params().q as int)
                &&& pc.spec_delta_bytes() == hash_bytes_spec(pc.spec_delta())
            },
    {
        if mask.elements.len() != matrix_a.cols {
            return Err(PabsCrfError::InvalidInput("CRF mask dimension mismatch".to_string()));
        }
        let delta = matrix_vector_mul(matrix_a, &mask, self.params.q);
        proof {
            lemma_mat_vec_spec(*matrix_a, mask@, delta@, self.params.q as int);
        }
        let delta_bytes = serialize_polynomial_vector_for_hash(&delta);
        Ok(CrfPrecommitment { mask, delta, delta_bytes })
    }

    /// Finish a core signature whose challenge already binds the
    /// pre-commitment's `delta` bytes: the pre-commitment must be consistent
    /// (`delta = A r`, canonical bytes), and the rerandomized response must pass
    /// the integer-domain rejection check.
    pub fn finalize_precommitted(
        &self,
        core: CorePredicateSignature,
        matrix_a: &PolynomialMatrix,
        precommit: CrfPrecommitment,
        pk_hash: &[u8],
        tau: u64,
    ) -> (r: PabsCrfResult<FirewallSignature>)
        requires
            valid_q(self.spec_params().q),
            0 <= self.spec_params().beta <= self.spec_params().gamma1,
            crate::mlwe::mat_vec_ok(*matrix_a, precommit.spec_mask(), first_entry_len(matrix_a@)),
            crf_fits(core.z@, precommit.spec_mask(), self.spec_params().q as int),
        ensures
            r is Ok <==> {
                &&& precommit.spec_delta() == mat_vec_spec(*matrix_a, precommit.spec_mask(), self.spec_params().q as int)
                &&& hash_bytes_spec(precommit.spec_delta()) == precommit.spec_delta_bytes()
                &&& crf_accepts(self.spec_params(), core.z@, precommit.spec_mask())
            },
            r matches Err(e) ==> e is SecurityViolation,
            r matches Ok(sig) ==> firewall_output(
                self.spec_params(),
                core,
                precommit.spec_delta(),
                precommit.spec_mask(),
                pk_hash@,
                tau,
                sig,
            ),
    {
        let expected_delta = matrix_vector_mul(matrix_a, &precommit.mask, self.params.q);
        proof {
            lemma_mat_vec_spec(*matrix_a, precommit.mask@, expected_delta@, self.params.q as int);
        }
        if !crate::trapdoor::vectors_equal(&expected_delta, &precommit.delta) {
            return Err(
                PabsCrfError::SecurityViolation("CRF precommitment failed delta=A*r consistency check".to_string()),
            );
        }
        let canonical = serialize_polynomial_vector_for_hash(&precommit.delta);
        if !bytes_equal(canonical.as_slice(), precommit.delta_bytes.as_slice()) {
            return Err(PabsCrfError::SecurityViolation("CRF precommitment has non-canonical delta bytes".to_string()));
        }
        self.finalize_with_parts(core, precommit.delta, precommit.mask, pk_hash, tau)
    }

    /// Pre-commit to `mask` and finish `core` in one call, for callers that
    /// manage the challenge binding themselves.
    pub fn transform_with_mask(
        &self,
        core: CorePredicateSignature,
        matrix_a: &PolynomialMatrix,
        mask: PolynomialVector,
        pk_hash: &[u8],
        tau: u64,
    ) -> (r: PabsCrfResult<FirewallSignature>)
        requires
            valid_q(self.spec_params().q),
            0 <= self.spec_params().beta <= self.spec_params().gamma1,
            mask@.len() == matrix_a.cols ==> crate::mlwe::mat_vec_ok(*matrix_a, mask@, first_entry_len(matrix_a@)),
            crf_fits(core.z@, mask@, self.spec_params().q as int),
        ensures
            mask@.len() != matrix_a.cols ==> (r matches Err(e) && e is InvalidInput),
            mask@.len() == matrix_a.cols ==> (r is Ok <==> crf_accepts(self.spec_params(), core.z@, mask@)),
            mask@.len() == matrix_a.cols ==> (r matches Err(e) ==> e is SecurityViolation),
            r matches Ok(sig) ==> firewall_output(
                self.spec_params(),
                core,
                mat_vec_spec(*matrix_a, mask@, self.spec_params().q as int),
                mask@,
                pk_hash@,
                tau,
                sig,
            ),
    {
        let precommit = match self.precommit_with_mask(matrix_a, mask) {
            Ok(pc) => pc,
            Err(e) => {
                return Err(e);
            },
        };
        self.finalize_precommitted(core, matrix_a, precommit, pk_hash, tau)
    }

    /// Single-call transform. It is always refused: a firewall for this
    /// Fiat-Shamir path must pre-commit before core signing. The pre-commitment
    /// it makes first reports its own parameter errors.
    pub fn transform(
        &self,
        core: CorePredicateSignature,
        matrix_a: &PolynomialMatrix,
        pk_hash: &[u8],
        tau: u64,
    ) -> (r: PabsCrfResult<FirewallSignature>)
        requires
            valid_q(self.spec_params().q),
            self.spec_params().eta2 >= 0,
            mat_shape(matrix_a@, matrix_a.rows as int, matrix_a.cols as int, self.spec_params().n as int),
        ensures
            r is Err,
            r matches Err(e) ==> (e is InvalidParameters <==> (self.spec_max_attempts() == 0 || matrix_a.rows == 0
                || matrix_a.cols == 0)),
            r matches Err(e) ==> (e is InvalidParameters || e is InvalidInput),
    {
        let mut rng = crate::rng::thread_rng();
        match self.precommit(matrix_a, &mut rng) {
            Ok(_) => Err(
                PabsCrfError::InvalidInput(
                    "CRF transform requires pre-challenge binding of delta; use precommit + finalize_precommitted".to_string(),
                ),
            ),
            Err(e) => Err(e),
        }
    }

    fn finalize_with_parts(
        &self,
        core: CorePredicateSignature,
        delta: PolynomialVector,
        mask: PolynomialVector,
        pk_hash: &[u8],
        tau: u64,
    ) -> (r: PabsCrfResult<FirewallSignature>)
        requires
            valid_q(self.spec_params().q),
            0 <= self.spec_params().beta <= self.spec_params().gamma1,
            crf_fits(core.z@, mask@, self.spec_params().q as int),
        ensures
            r is Ok <==> crf_accepts(self.spec_params(), core.z@, mask@),
            r matches Err(e) ==> e is SecurityViolation,
            r matches Ok(sig) ==> firewall_output(self.spec_params(), core, delta@, mask@, pk_hash@, tau, sig),
    {
        let q = self.params.q;
        let z_bound: i64 = (self.params.gamma1 - self.params.beta as u32) as i64;
        let z_int = crf_response_exec(&core.z, &mask, q);
        if z_int.infinity_norm_integer() >= z_bound {
            return Err(security_violation());
        }
        let z = reduce_exec(&z_int, q);
        let firewall_tag = firewall_tag(
            &z,
            &delta,
            &core.challenge,
            core.policy_digest.as_slice(),
            core.message_hash.as_slice(),
            pk_hash,
            tau,
            &core.gid,
            core.parameter_set_id.as_str(),
        );
        let sig = FirewallSignature {
            z,
            challenge: core.challenge,
            hints: core.hints,
            policy: core.policy,
            message_hash: core.message_hash,
            attributes_used: core.attributes_used,
            policy_digest: core.policy_digest,
            firewall_delta: delta,
            firewall_tag,
            parameter_set_id: core.parameter_set_id,
            pk_hash: vstd::slice::slice_to_vec(pk_hash),
            crf_seed: None,
            tau,
            gid: core.gid,
        };
        Ok(sig)
    }

    /// Check the firewall metadata tag of a signature: `Ok` exactly when the
    /// tag equals the one recomputed from the signature's fields.
    pub fn validate_metadata(&self, signature: &FirewallSignature) -> (r: PabsCrfResult<()>)
        ensures
            r is Ok <==> signature.firewall_tag@ == expected_tag(*signature),
            r matches Err(e) ==> e is VerificationFailed,
    {
        let expected = firewall_tag(
            &signature.z,
            &signature.firewall_delta,
            &signature.challenge,
            signature.policy_digest.as_slice(),
            signature.message_hash.as_slice(),
            signature.pk_hash.as_slice(),
            signature.tau,
            &signature.gid,
            signature.parameter_set_id.as_str(),
        );
        if !bytes_equal(expected.as_slice(), signature.firewall_tag.as_slice()) {
            return Err(PabsCrfError::VerificationFailed("CRF metadata tag mismatch".to_string()));
        }
        Ok(())
    }

    /// Subtract the public correction from `A*z - c*u_policy`, modulo `q`.
    pub fn verifier_adjusted_commitment(&self, az_minus_cu: &PolynomialVector, signature: &FirewallSignature) -> (r:
        PabsCrfResult<PolynomialVector>)
        requires
            valid_q(self.spec_params().q),
            pairwise_fits(az_minus_cu@, signature.firewall_delta@, true),
        ensures
            r is Err <==> az_minus_cu@.len() != signature.firewall_delta@.len(),
            r matches Err(e) ==> e is InvalidInput,
            r matches Ok(v) ==> combined(
                az_minus_cu@,
                signature.firewall_delta@,
                v@,
                self.spec_params().q as int,
                true,
                true,
            ),
    {
        vector_sub(az_minus_cu, &signature.firewall_delta, self.params.q)
    }

    /// `z - delta` modulo `q`. The two vectors live in different dimensions
    /// for the matrices of the scheme, so this fails unless their lengths agree;
    /// verifiers use `verifier_adjusted_commitment`.
    pub fn verifier_adjusted_response(&self, signature: &FirewallSignature) -> (r: PabsCrfResult<PolynomialVector>)
        requires
            valid_q(self.spec_params().q),
            pairwise_fits(signature.z@, signature.firewall_delta@, true),
        ensures
            r is Err <==> signature.z@.len() != signature.firewall_delta@.len(),
            r matches Err(e) ==> e is InvalidInput,
            r matches Ok(v) ==> combined(
                signature.z@,
                signature.firewall_delta@,
                v@,
                self.spec_params().q as int,
                true,
                true,
            ),
    {
        vector_sub(&signature.z, &signature.firewall_delta, self.params.q)
    }
}

/// Byte-wise equality of two slices.
pub fn bytes_equal(a: &[u8], b: &[u8]) -> (r: bool)
    ensures
        r == (a@ == b@),
{
    if a.len() != b.len() {
        return false;
    }
    let mut i: usize = 0;
    while i < a.len()
        invariant
            a@.len() == b@.len(),
            i <= a@.len(),
            forall|t: int| 0 <= t < i ==> a@[t] == b@[t],
        decreases a@.len() - i,
    {
        if a[i] != b[i] {
            return false;
        }
        i += 1;
    }
    assert(a@ =~= b@);
    true
}

/// Element-wise equality of two `i32` slices.
pub fn coeffs_equal(a: &[i32], b: &[i32]) -> (r: bool)
    ensures
        r == (a@ == b@),
{
    if a.len() != b.len() {
        return false;
    }
    let mut i: usize = 0;
    while i < a.len()
        invariant
            a@.len() == b@.len(),
            i <= a@.len(),
            forall|t: int| 0 <= t < i ==> a@[t] == b@[t],
        decreases a@.len() - i,
    {
        if a[i] != b[i] {
            return false;
        }
        i += 1;
    }
    assert(a@ =~= b@);
    true
}

/// `center(z) + r` over the common prefix, in the integer domain.
fn crf_response_exec(z: &PolynomialVector, mask: &PolynomialVector, q: u32) -> (r: PolynomialVector)
    requires
        valid_q(q),
        crf_fits(z@, mask@, q as int),
    ensures
        r@ == crf_response(z@, mask@, q as int),
{
    let z_centered = z.center_coefficients(q);
    let len = if z.elements.len() < mask.elements.len() { z.elements.len() } else { mask.elements.len() };
    let mut elements: Vec<Polynomial> = Vec::with_capacity(len);
    let mut j: usize = 0;
    while j < len
        invariant
            valid_q(q),
            crf_fits(z@, mask@, q as int),
            len <= z@.len(),
            len <= mask@.len(),
            len == crf_response(z@, mask@, q as int).len(),
            z_centered@.len() == z@.len(),
            forall|t: int| 0 <= t < z_centered@.len() ==> (#[trigger] z_centered@[t]).len() == z@[t].len(),
            forall|t: int, i: int| 0 <= t < z_centered@.len() && 0 <= i < z@[t].len() ==> #[trigger] z_centered@[t][i]
                == center(z@[t][i] as int, q as int),
            j <= len,
            elements@.len() == j,
            forall|t: int| 0 <= t < j ==> (#[trigger] elements@[t])@ == crf_response(z@, mask@, q as int)[t],
        decreases len - j,
    {
        let zc = &z_centered.elements[j];
        let m = &mask.elements[j];
        assert(zc@ == z_centered@[j as int]);
        assert(m@ == mask@[j as int]);
        assert forall|i: int| 0 <= i < zc@.len() && i < m@.len() implies fits_i32(#[trigger] zc@[i] + m@[i]) by {
            assert(fits_i32(center(z@[j as int][i] as int, q as int) + mask@[j as int][i]));
        }
        let p = zc.add_integer(m);
        assert(p@ =~= crf_response(z@, mask@, q as int)[j as int]);
        elements.push(p);
        j += 1;
    }
    let r = PolynomialVector { elements };
    assert(r@ =~= crf_response(z@, mask@, q as int));
    r
}

/// Every coefficient reduced into `[0, q)`.
fn reduce_exec(v: &PolynomialVector, q: u32) -> (r: PolynomialVector)
    requires
        valid_q(q),
    ensures
        r@ == reduce_vec(v@, q as int),
{
    let mut elements: Vec<Polynomial> = Vec::with_capacity(v.elements.len());
    let mut j: usize = 0;
    while j < v.elements.len()
        invariant
            valid_q(q),
            j <= v@.len(),
            elements@.len() == j,
            forall|t: int| 0 <= t < j ==> (#[trigger] elements@[t])@ == reduce_vec(v@, q as int)[t],
        decreases v@.len() - j,
    {
        let p = Polynomial::from_coeffs(v.elements[j].coeffs.as_slice(), q);
        assert(p@ =~= reduce_vec(v@, q as int)[j as int]);
        elements.push(p);
        j += 1;
    }
    let r = PolynomialVector { elements };
    assert(r@ =~= reduce_vec(v@, q as int));
    r
}

proof fn lemma_mat_vec_spec(a: PolynomialMatrix, v: Seq<Seq<i32>>, r: Seq<Seq<i32>>, q: int)
    requires
        q >= 1,
        r.len() == a.rows,
        forall|i: int| 0 <= i < a.rows ==> (#[trigger] r[i]).len() == first_entry_len(a@),
        forall|i: int, k: int| 0 <= i < a.rows && 0 <= k < first_entry_len(a@) ==> #[trigger] r[i][k]
            == row_dot(a@[i], v, k, a.cols as int) % q,
    ensures
        r == mat_vec_spec(a, v, q),
{
    assert(r =~= mat_vec_spec(a, v, q)) by {
        assert forall|i: int| 0 <= i < r.len() implies #[trigger] r[i] == mat_vec_spec(a, v, q)[i] by {
            assert(r[i] =~= mat_vec_spec(a, v, q)[i]);
        }
    }
}

} // verus!
