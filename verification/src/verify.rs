//! Signature verification on the structured path.
use vstd::prelude::*;
use vstd::string::StringSliceAdditionalSpecFns;
use crate::algebra::{combined, matrix_vector_mul_sub_poly_mul_ntt, min_len, vector_within_infinity_bound};
use crate::compression::flat;
use crate::errors::{PabsCrfError, PabsCrfResult};
use crate::firewall::{adjusted_commitment, expected_tag, hash_bytes_spec, serialize_polynomial_vector_for_hash, StrongFirewall};
use crate::hashing::{sha256, sha256_spec};
use crate::lsss::{
    derive_policy_target_cached, policy_lsss, policy_target_spec, reconstruction_ok, selected_attrs, selected_rows,
    attr_names, str_seqs,
};
use crate::mlwe::{mat_shape, valid_q, vec_coeffs_within, MLWEParameters, PolynomialVector};
use crate::mlwe_sig::{
    challenge_params_ok, challenge_spec, pk_hash_spec, system_tr, use_hint_vec, verifier_commitment, z_bound_spec,
    z_norm_ok, MLWESignature,
};
use crate::pabs::{challenge_context_spec, policy_digest_spec};
use crate::pabs::types::FirewallSignature;
use crate::policy::Policy;
use crate::setup::PublicParameters;

verus! {

/// Number of nonzero values of `s`.
pub open spec fn nonzero_count(s: Seq<i32>) -> nat
    decreases s.len(),
{
    if s.len() == 0 {
        0
    } else {
        nonzero_count(s.drop_last()) + if s.last() != 0 { 1nat } else { 0nat }
    }
}

/// Largest number of nonzero hint coefficients a signature may carry.
pub const MAX_HINT_WEIGHT: usize = 80;

/// `u` is the policy target vector of `attributes` for the user `gid`.
pub open spec fn policy_target_of(policy: Policy, attributes: Seq<String>, gid: Seq<u8>, params: MLWEParameters, u: Seq<Seq<i32>>) -> bool {
    let (mat, attrs, _) = policy_lsss(policy@)->Some_0;
    let sel = selected_rows(attrs, attr_names(attributes), attrs.len() as int);
    exists|omega: Seq<i64>| #[trigger] reconstruction_ok(omega, mat, sel, params.q as int)
        && u == policy_target_spec(omega, selected_attrs(attrs, sel), gid, params)
}

/// The checks that need no policy target: binding of policy, message, digest
/// and parameter set, attributes that satisfy the policy, the response norm
/// and the firewall metadata tag.
pub open spec fn public_checks(pp: PublicParameters, message: Seq<u8>, policy: Policy, sig: FirewallSignature) -> bool {
    let p = pp.params;
    &&& sig.policy@ == policy@
    &&& sig.message_hash@ == sha256_spec(message)
    &&& sig.policy_digest@ == policy_digest_spec(policy@)
    &&& sig.parameter_set_id@ == crate::parameter_sets::target_label(pp.parameter_model.protocol.security_target)
    &&& match policy@ {
        Some(rule) => crate::policy::eval_rule(rule, crate::policy::attr_set_of(str_seqs(sig.attributes_used@))),
        None => true,
    }
    &&& z_norm_ok(sig.z@, p.q as int, z_bound_spec(p, 0))
    &&& sig.firewall_tag@ == expected_tag(sig)
}

/// The challenge recomputed from `A z - c u - delta`, corrected by the hints,
/// equals the signature's challenge.
pub open spec fn challenge_matches(pp: PublicParameters, message: Seq<u8>, sig: FirewallSignature, u: Seq<Seq<i32>>) -> bool {
    let p = pp.params;
    let q = p.q as int;
    let a = pp.matrix_a;
    let v = verifier_commitment(a@, a.rows as int, a.cols as int, p.n as int, sig.z@, u, sig.challenge@, q);
    let w = adjusted_commitment(v, sig.firewall_delta@, pp.parameter_model.protocol.mlwe.q as int);
    let w1 = use_hint_vec(w, sig.hints->Some_0@, p.gamma2, p.q);
    let ctx = challenge_context_spec(sig.policy_digest@, sig.tau, sig.gid@, vstd::utf8::encode_utf8(sig.parameter_set_id@));
    challenge_spec(p, w1, message, ctx, system_tr(a@, u), pk_hash_spec(u, q), hash_bytes_spec(sig.firewall_delta@))
        == sig.challenge@
}

/// The checks against the policy target `u`.
pub open spec fn target_checks(pp: PublicParameters, message: Seq<u8>, sig: FirewallSignature, u: Seq<Seq<i32>>) -> bool {
    &&& sig.pk_hash@ == pk_hash_spec(u, pp.params.q as int)
    &&& sig.hints is Some
    &&& nonzero_count(flat(sig.hints->Some_0@)) <= MAX_HINT_WEIGHT
    &&& challenge_matches(pp, message, sig, u)
}

/// What verification needs of the public parameters.
pub open spec fn verify_params_ok(pp: PublicParameters) -> bool {
    let p = pp.params;
    let a = pp.matrix_a;
    &&& challenge_params_ok(p)
    &&& 0 <= p.beta <= p.gamma1
    &&& crate::lsss::target_params_ok(p)
    &&& valid_q(p.q)
    &&& valid_q(pp.parameter_model.protocol.mlwe.q)
    &&& mat_shape(a@, a.rows as int, a.cols as int, p.n as int)
    &&& a.rows == p.k
    &&& a.rows >= 1
    &&& a.cols >= 1
}

/// The shapes the verifier's arithmetic needs of a signature.
pub open spec fn signature_shapes_ok(pp: PublicParameters, sig: FirewallSignature) -> bool {
    let p = pp.params;
    let a = pp.matrix_a;
    &&& sig.z@.len() >= a.cols
    &&& forall|j: int| 0 <= j < a.cols ==> (#[trigger] sig.z@[j]).len() == p.n
    &&& sig.challenge@.len() == p.n
    &&& forall|j: int, i: int| 0 <= j < sig.firewall_delta@.len() && 0 <= i < sig.firewall_delta@[j].len() ==> #[trigger] sig.firewall_delta@[j][i] >= -0x4000_0000
    &&& sig.hints matches Some(h) ==> (h@.len() >= 1 && forall|j: int| 0 <= j < a.rows && j < h@.len() ==> (#[trigger] h@[j]).len() >= p.n)
}

proof fn lemma_nonzero_count_concat(x: Seq<i32>, y: Seq<i32>)
    ensures
        nonzero_count(x + y) == nonzero_count(x) + nonzero_count(y),
    decreases y.len(),
{
    if y.len() == 0 {
        assert(x + y =~= x);
    } else {
        lemma_nonzero_count_concat(x, y.drop_last());
        assert((x + y).drop_last() =~= x + y.drop_last());
    }
}

/// Whether the hints carry at most `MAX_HINT_WEIGHT` nonzero coefficients.
fn hint_weight_ok(h: &PolynomialVector) -> (b: bool)
    ensures
        b == (nonzero_count(flat(h@)) <= MAX_HINT_WEIGHT),
{
    let ghost hv = h@;
    let mut count: usize = 0;
    let mut j: usize = 0;
    while j < h.elements.len()
        invariant
            hv == h@,
            j <= hv.len(),
            count == nonzero_count(flat(hv.take(j as int))),
            count <= MAX_HINT_WEIGHT,
        decreases hv.len() - j,
    {
        let p = &h.elements[j];
        assert(p@ == hv[j as int]);
        let mut i: usize = 0;
        while i < p.coeffs.len()
            invariant
                hv == h@,
                j < hv.len(),
                p@ == hv[j as int],
                i <= p@.len(),
                count == nonzero_count(flat(hv.take(j as int))) + nonzero_count(p@.take(i as int)),
                count <= MAX_HINT_WEIGHT,
            decreases p@.len() - i,
        {
            assert(p@.take(i + 1).drop_last() =~= p@.take(i as int));
            if p.coeffs[i] != 0 {
                count += 1;
                if count > MAX_HINT_WEIGHT {
                    proof {
                        let rest_p = p@.skip(i + 1);
                        assert(p@ =~= p@.take(i + 1) + rest_p);
                        lemma_nonzero_count_concat(p@.take(i + 1), rest_p);
                        assert(hv.take(j + 1).drop_last() =~= hv.take(j as int));
                        lemma_nonzero_count_concat(flat(hv.take(j as int)), p@);
                        lemma_flat_prefix(hv, j + 1);
                    }
                    return false;
                }
            }
            i += 1;
        }
        proof {
            assert(p@.take(p@.len() as int) =~= p@);
            assert(hv.take(j + 1).drop_last() =~= hv.take(j as int));
            lemma_nonzero_count_concat(flat(hv.take(j as int)), p@);
        }
        j += 1;
    }
    assert(hv.take(hv.len() as int) =~= hv);
    true
}

/// The nonzero count of a prefix of polynomials bounds that of the whole vector.
proof fn lemma_flat_prefix(v: Seq<Seq<i32>>, j: int)
    requires
        0 <= j <= v.len(),
    ensures
        nonzero_count(flat(v.take(j))) <= nonzero_count(flat(v)),
    decreases v.len() - j,
{
    if j < v.len() {
        lemma_flat_prefix(v, j + 1);
        assert(v.take(j + 1).drop_last() =~= v.take(j));
        lemma_nonzero_count_concat(flat(v.take(j)), v[j]);
    } else {
        assert(v.take(j) =~= v);
    }
}

/// Whether two strings hold the same characters.
fn str_same(a: &str, b: &str) -> (r: bool)
    ensures
        r == (a@ == b@),
{
    let x = crate::text::chars_of(a);
    let y = crate::text::chars_of(b);
    if x.len() != y.len() {
        return false;
    }
    let mut i: usize = 0;
    while i < x.len()
        invariant
            x@ == a@,
            y@ == b@,
            x@.len() == y@.len(),
            i <= x@.len(),
            forall|t: int| 0 <= t < i ==> x@[t] == y@[t],
        decreases x@.len() - i,
    {
        if x[i] != y[i] {
            return false;
        }
        i += 1;
    }
    assert(a@ =~= b@);
    true
}

/// Evaluate `public_checks` in the order the verifier applies them.
fn public_checks_exec(pp: &PublicParameters, message: &[u8], policy: &Policy, sig: &FirewallSignature) -> (b: bool)
    requires
        verify_params_ok(*pp),
    ensures
        b == public_checks(*pp, message@, *policy, *sig),
{
    if !sig.policy.equals(policy) {
        return false;
    }
    let current_hash = sha256(message);
    if !crate::firewall::bytes_equal(sig.message_hash.as_slice(), current_hash.as_slice()) {
        return false;
    }
    let digest = crate::pabs::policy_digest(policy);
    if !crate::firewall::bytes_equal(sig.policy_digest.as_slice(), digest.as_slice()) {
        return false;
    }
    if !str_same(sig.parameter_set_id.as_str(), pp.parameter_model.protocol.security_target.as_str()) {
        return false;
    }
    if !crate::pabs::attributes_satisfy(policy, &sig.attributes_used) {
        return false;
    }
    let params = &pp.params;
    let z_bound = MLWESignature::verification_z_bound(params, 0);
    if !vector_within_infinity_bound(&sig.z, params.q, z_bound) {
        return false;
    }
    let firewall = StrongFirewall::new(pp.parameter_model.protocol.mlwe, pp.parameter_model.implementation.firewall_max_attempts);
    match firewall.validate_metadata(sig) {
        Ok(()) => true,
        Err(_) => false,
    }
}

/// The checks against the policy target `u_policy`; `Err` when the
/// correction term does not have one polynomial per row of `A`.
fn target_checks_exec(
    pp: &PublicParameters,
    message: &[u8],
    sig: &FirewallSignature,
    u_policy: &PolynomialVector,
) -> (r: PabsCrfResult<bool>)
    requires
        verify_params_ok(*pp),
        signature_shapes_ok(*pp, *sig),
        u_policy@.len() == pp.params.k,
        forall|i: int| 0 <= i < pp.params.k ==> (#[trigger] u_policy@[i]).len() == pp.params.n,
    ensures
        r is Err <==> (sig.pk_hash@ == pk_hash_spec(u_policy@, pp.params.q as int) && sig.firewall_delta@.len()
            != pp.matrix_a.rows),
        r matches Err(e) ==> e is InvalidInput,
        r matches Ok(b) ==> b == target_checks(*pp, message@, *sig, u_policy@),
{
    let params = &pp.params;
    let q = params.q;
    let pk_hash = MLWESignature::compute_pk_hash(u_policy, q);
    if !crate::firewall::bytes_equal(sig.pk_hash.as_slice(), pk_hash.as_slice()) {
        return Ok(false);
    }
    let ghost a = pp.matrix_a;
    let az = matrix_vector_mul_sub_poly_mul_ntt(&pp.matrix_a, &sig.z, u_policy, &sig.challenge, q);
    let ghost v = verifier_commitment(a@, a.rows as int, a.cols as int, params.n as int, sig.z@, u_policy@, sig.challenge@, q as int);
    assert(az@ =~= v) by {
        assert forall|i: int| 0 <= i < a.rows implies #[trigger] az@[i] =~= v[i] by {}
    }
    let firewall = StrongFirewall::new(pp.parameter_model.protocol.mlwe, pp.parameter_model.implementation.firewall_max_attempts);
    let ghost qm = pp.parameter_model.protocol.mlwe.q;
    assert(crate::algebra::pairwise_fits(az@, sig.firewall_delta@, true)) by {
        assert forall|j: int, i: int| 0 <= j < az@.len() && j < sig.firewall_delta@.len() && 0 <= i < az@[j].len() && i
            < sig.firewall_delta@[j].len() implies crate::mlwe::fits_i32(az@[j][i] - sig.firewall_delta@[j][i]) by {
            assert(crate::mlwe::coeffs_within(az@[j], 0, q - 1));
            assert(sig.firewall_delta@[j][i] >= -0x4000_0000);
        }
    }
    let w_prime = match firewall.verifier_adjusted_commitment(&az, sig) {
        Ok(w) => w,
        Err(e) => {
            return Err(e);
        },
    };
    let ghost w = adjusted_commitment(v, sig.firewall_delta@, qm as int);
    assert(w_prime@ =~= w) by {
        assert forall|j: int| 0 <= j < w.len() implies #[trigger] w_prime@[j] =~= w[j] by {}
    }
    let hints = match &sig.hints {
        Some(h) => h,
        None => {
            return Ok(false);
        },
    };
    if !hint_weight_ok(hints) {
        return Ok(false);
    }
    let w1 = w_prime.use_hint(hints, params.gamma2, q);
    let ghost w1s = use_hint_vec(w, hints@, params.gamma2, q);
    proof {
        assert(w1@ =~= w1s) by {
            assert forall|t: int| 0 <= t < w1s.len() implies #[trigger] w1@[t] =~= w1s[t] by {}
        }
        assert(crate::canonical::w1_in_range(w1s, crate::mlwe_sig::w1_modulus(q, params.gamma2))) by {
            assert forall|t: int, i: int| 0 <= t < w1s.len() && 0 <= i < w1s[t].len() implies 0 <= #[trigger] w1s[t][i]
                < crate::mlwe_sig::w1_modulus(q, params.gamma2) by {
                crate::mlwe_sig::lemma_use_hint_range(hints@[t][i] as int, w[t][i] as int, params.gamma2 as int, q as int);
            }
        }
    }
    let tr = MLWESignature::compute_system_tr(&pp.matrix_a, u_policy);
    let delta_bytes = serialize_polynomial_vector_for_hash(&sig.firewall_delta);
    let context = crate::pabs::challenge_context(sig.policy_digest.as_slice(), sig.tau, &sig.gid, sig.parameter_set_id.as_str());
    let challenge_prime = MLWESignature::derive_challenge_public(
        params,
        &w1,
        message,
        context.as_slice(),
        tr.as_slice(),
        pk_hash.as_slice(),
        delta_bytes.as_slice(),
    );
    let same = crate::firewall::coeffs_equal(challenge_prime.coeffs.as_slice(), sig.challenge.coeffs.as_slice());
    Ok(same)
}

/// Verify a structured signature against the public parameters and policy.
///
/// The public checks come first and answer `false` when one fails; then the
/// policy target of the signature's attributes is derived (its errors are
/// returned), and the public-key hash, the hint weight and the recomputed
/// challenge decide.
pub fn verify_signature_struct(
    pp_struct: &PublicParameters,
    message: &[u8],
    policy: &Policy,
    sig_struct: &FirewallSignature,
) -> (r: PabsCrfResult<bool>)
    requires
        verify_params_ok(*pp_struct),
        signature_shapes_ok(*pp_struct, *sig_struct),
    ensures
        !public_checks(*pp_struct, message@, *policy, *sig_struct) ==> r == Ok::<bool, PabsCrfError>(false),
        public_checks(*pp_struct, message@, *policy, *sig_struct) && crate::lsss::policy_constants(
            policy@,
            sig_struct.attributes_used@,
            pp_struct.params.q as int,
        ) is None ==> (r matches Err(e) && e is PolicyError),
        r matches Err(e) && e is PolicyError ==> crate::lsss::policy_constants(
            policy@,
            sig_struct.attributes_used@,
            pp_struct.params.q as int,
        ) is None,
        public_checks(*pp_struct, message@, *policy, *sig_struct) ==> (crate::lsss::policy_target_of_attrs(
            policy@,
            sig_struct.attributes_used@,
            sig_struct.gid@,
            pp_struct.params,
        ) matches Some(u) ==> ({
            &&& r is Err <==> (sig_struct.pk_hash@ == pk_hash_spec(u, pp_struct.params.q as int)
                && sig_struct.firewall_delta@.len() != pp_struct.matrix_a.rows)
            &&& r matches Ok(b) ==> b == target_checks(*pp_struct, message@, *sig_struct, u)
        })),
        r matches Err(e) ==> public_checks(*pp_struct, message@, *policy, *sig_struct) && (e is PolicyError || (e is InvalidInput
            && sig_struct.firewall_delta@.len() != pp_struct.matrix_a.rows)),
        r matches Ok(true) ==> public_checks(*pp_struct, message@, *policy, *sig_struct) && exists|u: Seq<Seq<i32>>|
            policy_target_of(*policy, sig_struct.attributes_used@, sig_struct.gid@, pp_struct.params, u) && #[trigger] target_checks(
                *pp_struct,
                message@,
                *sig_struct,
                u,
            ),
        r matches Ok(false) ==> !public_checks(*pp_struct, message@, *policy, *sig_struct) || exists|u: Seq<Seq<i32>>|
            policy_target_of(*policy, sig_struct.attributes_used@, sig_struct.gid@, pp_struct.params, u) && !#[trigger] target_checks(
                *pp_struct,
                message@,
                *sig_struct,
                u,
            ),
{
    if !public_checks_exec(pp_struct, message, policy, sig_struct) {
        return Ok(false);
    }
    let u_policy = match derive_policy_target_cached(
        policy,
        sig_struct.attributes_used.as_slice(),
        &sig_struct.gid,
        &pp_struct.params,
    ) {
        Ok(u) => u,
        Err(e) => {
            return Err(e);
        },
    };
    proof {
        let (mat, attrs, _) = policy_lsss(policy@)->Some_0;
        let sel = selected_rows(attrs, attr_names(sig_struct.attributes_used@), attrs.len() as int);
        let omega = choose|omega: Seq<i64>| #[trigger] reconstruction_ok(omega, mat, sel, pp_struct.params.q as int)
            && u_policy@ == policy_target_spec(omega, selected_attrs(attrs, sel), sig_struct.gid@, pp_struct.params);
        assert(policy_target_of(*policy, sig_struct.attributes_used@, sig_struct.gid@, pp_struct.params, u_policy@));
    }
    let res = target_checks_exec(pp_struct, message, sig_struct, &u_policy);
    proof {
        if res is Ok {
            assert(target_checks(*pp_struct, message@, *sig_struct, u_policy@) == res->Ok_0);
        }
    }
    res
}

/// `attrs` are the attributes the witness rows of `c` name in the sharing matrix of `policy`.
pub open spec fn witness_attrs_of(c: crate::pabs::types::CompressedFirewallSignature, policy: Policy, attrs: Seq<String>) -> bool {
    let row_attrs = policy_lsss(policy@)->Some_0.1;
    &&& policy_lsss(policy@) is Some
    &&& crate::sign::rows_in_range(c.witness_rows@, row_attrs)
    &&& attrs.len() == c.witness_rows@.len()
    &&& forall|i: int| 0 <= i < attrs.len() ==> (#[trigger] attrs[i])@ == row_attrs[c.witness_rows@[i] as int]
}

/// A compressed signature is accepted: it decompresses, with the witness
/// attributes its rows name, into a signature that passes every check.
pub open spec fn compact_accepts(
    pp: PublicParameters,
    message: Seq<u8>,
    policy: Policy,
    c: crate::pabs::types::CompressedFirewallSignature,
) -> bool {
    exists|attrs: Seq<String>, sig: FirewallSignature|
        {
            &&& witness_attrs_of(c, policy, attrs)
            &&& #[trigger] crate::serialization::decompressed_from(c, policy, sha256_spec(message), attrs, pp.params, sig)
            &&& public_checks(pp, message, policy, sig)
            &&& exists|u: Seq<Seq<i32>>| policy_target_of(policy, attrs, sig.gid@, pp.params, u) && #[trigger] target_checks(pp, message, sig, u)
        }
}

/// What compact verification needs of the public parameters.
pub open spec fn compact_params_ok(pp: PublicParameters) -> bool {
    &&& verify_params_ok(pp)
    &&& crate::serialization::decompress_params_ok(pp.params)
    &&& pp.matrix_a.cols == pp.params.m
}

/// Verify a compressed signature: recover the witness attributes from its rows
/// (`false` when they are not in the policy's sharing matrix), decompress it,
/// and verify the result.
pub fn verify_compact_signature(
    pp_struct: &PublicParameters,
    message: &[u8],
    policy: &Policy,
    compressed: &crate::pabs::types::CompressedFirewallSignature,
) -> (r: PabsCrfResult<bool>)
    requires
        compact_params_ok(*pp_struct),
        crate::compression::challenge_blob_ok(compressed.encoded_c@, pp_struct.params.n as int),
    ensures
        policy_lsss(policy@) is None || !crate::sign::rows_in_range(compressed.witness_rows@, policy_lsss(policy@)->Some_0.1)
            ==> r == Ok::<bool, PabsCrfError>(false),
        policy_lsss(policy@) is Some && crate::sign::rows_in_range(compressed.witness_rows@, policy_lsss(policy@)->Some_0.1)
            && !crate::serialization::decompressible(*compressed, pp_struct.params) ==> r is Err,
        r matches Err(e) ==> e is SerializationError || e is DeserializationError || e is PolicyError || e is InvalidInput,
        r matches Ok(true) ==> compact_accepts(*pp_struct, message@, *policy, *compressed),
{
    let attributes_used = match compressed.witness_attributes(policy) {
        Ok(attrs) => attrs,
        Err(_) => {
            return Ok(false);
        },
    };
    let ghost attrs = attributes_used@;
    let signature = match crate::serialization::decompress_firewall_signature(
        compressed,
        policy.clone(),
        sha256(message),
        attributes_used,
        &pp_struct.params,
    ) {
        Ok(sig) => sig,
        Err(e) => {
            return Err(e);
        },
    };
    proof {
        lemma_decompressed_shapes(*pp_struct, *compressed, signature);
    }
    let res = verify_signature_struct(pp_struct, message, policy, &signature);
    proof {
        if res matches Ok(true) {
            assert(witness_attrs_of(*compressed, *policy, attrs));
            assert(crate::serialization::decompressed_from(
                *compressed,
                *policy,
                sha256_spec(message@),
                attrs,
                pp_struct.params,
                signature,
            ));
        }
    }
    res
}

proof fn lemma_decompressed_shapes(
    pp: PublicParameters,
    c: crate::pabs::types::CompressedFirewallSignature,
    sig: FirewallSignature,
)
    requires
        compact_params_ok(pp),
        exists|pol: Policy, mh: Seq<u8>, attrs: Seq<String>| #[trigger] crate::serialization::decompressed_from(c, pol, mh, attrs, pp.params, sig),
    ensures
        signature_shapes_ok(pp, sig),
{
    let p = pp.params;
    let (k, n) = (p.k as int, p.n as int);
    assert forall|j: int, i: int| 0 <= j < sig.firewall_delta@.len() && 0 <= i < sig.firewall_delta@[j].len() implies #[trigger] sig.firewall_delta@[j][i] >= -0x4000_0000 by {
        vstd::arithmetic::power2::lemma_pow2_pos(crate::compression::q_bits(p.q));
        vstd::arithmetic::div_mod::lemma_mod_bound(
            crate::bitpack::le_int(c.packed_delta@) / crate::bitpack::p2((crate::compression::q_bits(p.q) * (j * n + i)) as nat),
            crate::bitpack::p2(crate::compression::q_bits(p.q)),
        );
    }
}

/// Convenience wrapper for the verification API.
pub struct Verify;

impl Verify {
    /// Create a verifier facade.
    pub fn new() -> (v: Self) {
        Verify
    }

    /// Parse a zstd-compressed signature blob and verify it against structured
    /// public parameters. A blob whose challenge encoding cannot be applied to
    /// `n` coefficients is refused with a deserialization error.
    pub fn verify_compressed_structured(
        &self,
        pp: &PublicParameters,
        message: &[u8],
        policy: &Policy,
        compressed_sig: &[u8],
    ) -> (r: PabsCrfResult<bool>)
        requires
            compact_params_ok(*pp),
        ensures
            r matches Err(e) ==> e is CompressionError || e is DeserializationError || e is SerializationError
                || e is PolicyError || e is InvalidInput,
            !crate::serialization::deserializes(compressed_sig@) ==> r is Err,
            r matches Err(e) && e is CompressionError ==> !crate::serialization::deserializes(compressed_sig@),
            crate::serialization::blob_layout(compressed_sig@).len() <= crate::serialization::MAX_DECOMPRESSED_SIZE
                && !crate::serialization::layout_valid(crate::serialization::blob_layout(compressed_sig@)) ==> r is Err,
            crate::serialization::layout_valid(crate::serialization::blob_layout(compressed_sig@))
                && !crate::compression::challenge_blob_ok(
                crate::serialization::field_bytes(crate::serialization::blob_layout(compressed_sig@), 2),
                pp.params.n as int,
            ) ==> r is Err,
            r matches Ok(b) ==> crate::serialization::layout_valid(crate::serialization::blob_layout(compressed_sig@))
                && exists|c: crate::pabs::types::CompressedFirewallSignature| {
                &&& #[trigger] crate::serialization::parsed_from(crate::serialization::blob_layout(compressed_sig@), c)
                &&& crate::compression::challenge_blob_ok(c.encoded_c@, pp.params.n as int)
                &&& (policy_lsss(policy@) is None || !crate::sign::rows_in_range(
                    c.witness_rows@,
                    policy_lsss(policy@)->Some_0.1,
                ) ==> !b)
                &&& (policy_lsss(policy@) is Some && crate::sign::rows_in_range(c.witness_rows@, policy_lsss(policy@)->Some_0.1)
                    ==> crate::serialization::decompressible(c, pp.params))
                &&& (b ==> compact_accepts(*pp, message@, *policy, c))
            },
    {
        let compressed = match crate::pabs::types::CompressedFirewallSignature::from_bytes(compressed_sig) {
            Ok(c) => c,
            Err(e) => {
                return Err(e);
            },
        };
        if !crate::compression::challenge_blob_valid(compressed.encoded_c.as_slice(), pp.params.n) {
            return Err(PabsCrfError::DeserializationError("Malformed challenge encoding".to_string()));
        }
        verify_compact_signature(pp, message, policy, &compressed)
    }
}

/// A firewall signature made with a key of the same parameter set passes the
/// verifier's binding checks (policy, message hash, policy digest, parameter
/// set), its response-norm check and its metadata-tag check, carries hints,
/// and carries the public-key hash of the policy target that the verifier
/// derives from its attributes (so that derivation succeeds).
pub proof fn lemma_signed_passes_binding_checks(
    pp: PublicParameters,
    sk: crate::keygen::UserSecretKey,
    policy: Policy,
    message: Seq<u8>,
    tau: u64,
    sig: FirewallSignature,
)
    requires
        crate::sign::sign_key_ok(sk),
        crate::sign::firewall_signed(sk, policy, message, tau, sig),
        pp.params == sk.params,
        pp.parameter_model.protocol.security_target == sk.parameter_model.protocol.security_target,
    ensures
        sig.policy@ == policy@,
        sig.message_hash@ == sha256_spec(message),
        sig.policy_digest@ == policy_digest_spec(policy@),
        sig.parameter_set_id@ == crate::parameter_sets::target_label(pp.parameter_model.protocol.security_target),
        z_norm_ok(sig.z@, pp.params.q as int, z_bound_spec(pp.params, 0)),
        sig.firewall_tag@ == expected_tag(sig),
        sig.hints is Some,
        exists|u: Seq<Seq<i32>>|
            policy_target_of(policy, sig.attributes_used@, sig.gid@, pp.params, u) && sig.pk_hash@ == #[trigger] pk_hash_spec(
                u,
                pp.params.q as int,
            ),
        crate::lsss::policy_target_of_attrs(policy@, sig.attributes_used@, sig.gid@, pp.params) is Some,
        sig.pk_hash@ == pk_hash_spec(
            crate::lsss::policy_target_of_attrs(policy@, sig.attributes_used@, sig.gid@, pp.params)->Some_0,
            pp.params.q as int,
        ),
{
    let p = sk.params;
    let q = p.q as int;
    let (core, mask, pk_hash) = choose|core: crate::pabs::types::CorePredicateSignature, mask: Seq<Seq<i32>>, pk_hash: Seq<u8>|
        {
            let delta = crate::firewall::mat_vec_spec(sk.matrix_a, mask, p.q as int);
            &&& mask.len() == sk.matrix_a.cols
            &&& crate::mlwe::vec_uniform(mask, p.n as int)
            &&& vec_coeffs_within(mask, -(p.eta2 as int), p.eta2 as int)
            &&& core.policy@ == policy@
            &&& core.message_hash@ == sha256_spec(message)
            &&& core.policy_digest@ == policy_digest_spec(policy@)
            &&& core.parameter_set_id@ == crate::parameter_sets::target_label(sk.parameter_model.protocol.security_target)
            &&& core.gid == sk.gid
            &&& crate::pabs::core_signed_by(
                sk,
                policy,
                message,
                crate::sign::signing_context(sk, policy, tau),
                hash_bytes_spec(delta),
                core,
                pk_hash,
            )
            &&& crate::firewall::crf_accepts(p, core.z@, mask)
            &&& #[trigger] crate::firewall::firewall_output(
                sk.params,
                core,
                crate::firewall::mat_vec_spec(sk.matrix_a, mask, sk.params.q as int),
                mask,
                pk_hash,
                tau,
                sig,
            )
        };
    let ctx = crate::sign::signing_context(sk, policy, tau);
    let dbytes = hash_bytes_spec(crate::firewall::mat_vec_spec(sk.matrix_a, mask, q));
    let (kp, msig) = choose|kp: crate::mlwe::MLWEKeyPair, msig: MLWESignature|
        {
            &&& crate::pabs::core_key_ok(kp, sk, policy, str_seqs(core.attributes_used@))
            &&& pk_hash == pk_hash_spec(kp.public_key@, p.q as int)
            &&& #[trigger] crate::mlwe_sig::signed_by(p, kp, message, ctx, pk_hash, dbytes, msig)
            &&& core.z == msig.z && core.challenge == msig.challenge && core.hints == msig.hints
        };
    reveal(crate::pabs::core_key_ok);
    let (mat, attrs, _) = policy_lsss(policy@)->Some_0;
    let used = str_seqs(core.attributes_used@);
    let usel = selected_rows(attrs, used, attrs.len() as int);
    let omega = choose|omega: Seq<i64>| #[trigger] reconstruction_ok(omega, mat, usel, p.q as int)
        && kp.public_key@ == policy_target_spec(omega, selected_attrs(attrs, usel), sk.gid@, p);
    assert(attr_names(sig.attributes_used@) == used);
    assert(policy_target_of(policy, sig.attributes_used@, sig.gid@, pp.params, kp.public_key@));
    let resp = crate::firewall::crf_response(core.z@, mask, q);
    let bound = z_bound_spec(p, 0);
    crate::mlwe::lemma_vec_max_abs_bound(resp, bound);
    assert forall|j: int| 0 <= j < sig.z@.len() implies crate::mlwe::max_abs(
        #[trigger] crate::mlwe::center_i32_seq(sig.z@[j], q),
    ) < bound by {
        crate::mlwe::lemma_max_abs_bound(resp[j], bound);
        let cs = crate::mlwe::center_i32_seq(sig.z@[j], q);
        assert forall|l: int| 0 <= l < cs.len() implies -bound < #[trigger] cs[l] < bound by {
            let xv = resp[j][l] as int;
            assert(sig.z@[j][l] == (xv % q) as i32);
            crate::sign::lemma_center_within(xv, q, bound);
            vstd::arithmetic::div_mod::lemma_mod_bound(xv, q);
        }
        crate::mlwe::lemma_max_abs_bound(cs, bound);
    }
}

} // verus!
