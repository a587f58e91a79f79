//! Signature generation on the structured path: core signing under a
//! firewall pre-commitment, retried while the firewall rejects.
use vstd::prelude::*;
use vstd::arithmetic::power2::pow2;
use crate::errors::{PabsCrfError, PabsCrfResult};
use crate::firewall::{
    crf_fits, firewall_output, hash_bytes_spec, mat_vec_spec, CryptographicReverseFirewall, StrongFirewall,
};
use crate::hashing::sha256_spec;
use crate::keygen::UserSecretKey;
use crate::lsss::{attr_names, policy_lsss, selected_rows, str_seqs};
use crate::mlwe::{first_entry_len, mat_shape, mat_vec_ok, valid_q, vec_coeffs_within, vec_uniform};
use crate::modarith::center;
use crate::pabs::types::{CompressedFirewallSignature, FirewallSignature};
use crate::pabs::{
    challenge_context_spec, core_sign, core_sign_ok, core_signed_by, policy_digest_spec, witness_rows_from_attributes,
};
use crate::policy::Policy;
use crate::puncture_tree::{leaf_of, MAX_PUNCTURE_DEPTH};
use crate::serialization::{
    centered_vec, compress_firewall_signature, compressed_from, deserialize_compressed_signature,
    serialize_compressed_signature,
};

verus! {

/// Public signature type.
pub type Signature = FirewallSignature;

/// Compressed signature type for network transport and storage.
pub type CompressedSignature = CompressedFirewallSignature;

/// What structured signing needs of a user key.
pub open spec fn sign_key_ok(sk: UserSecretKey) -> bool {
    &&& sk.puncture_tree.max_depth <= MAX_PUNCTURE_DEPTH
    &&& core_sign_ok(sk, sk.parameter_model)
    &&& 0 <= sk.params.eta2 <= 0x4000_0000
    &&& 0 <= sk.params.beta <= sk.params.gamma1
}

/// The Fiat-Shamir context a key signs under for `policy` and tag `tau`.
pub open spec fn signing_context(sk: UserSecretKey, policy: Policy, tau: u64) -> Seq<u8> {
    challenge_context_spec(
        policy_digest_spec(policy@),
        tau,
        sk.gid@,
        vstd::utf8::encode_utf8(crate::parameter_sets::target_label(sk.parameter_model.protocol.security_target)),
    )
}

/// `sig` is a firewall signature of `message` under `policy` and tag `tau`:
/// a core signature bound to `delta = A r` for a CBD(`eta2`) mask `r`, finished
/// by the firewall with that mask.
pub open spec fn firewall_signed(sk: UserSecretKey, policy: Policy, message: Seq<u8>, tau: u64, sig: FirewallSignature) -> bool {
    let p = sk.params;
    exists|core: crate::pabs::types::CorePredicateSignature, mask: Seq<Seq<i32>>, pk_hash: Seq<u8>|
        {
            let delta = mat_vec_spec(sk.matrix_a, mask, p.q as int);
            &&& mask.len() == sk.matrix_a.cols
            &&& vec_uniform(mask, p.n as int)
            &&& vec_coeffs_within(mask, -(p.eta2 as int), p.eta2 as int)
            &&& core.policy@ == policy@
            &&& core.message_hash@ == sha256_spec(message)
            &&& core.policy_digest@ == policy_digest_spec(policy@)
            &&& core.parameter_set_id@ == crate::parameter_sets::target_label(sk.parameter_model.protocol.security_target)
            &&& core.gid == sk.gid
            &&& core_signed_by(sk, policy, message, signing_context(sk, policy, tau), hash_bytes_spec(delta), core, pk_hash)
            &&& crate::firewall::crf_accepts(p, core.z@, mask)
            &&& #[trigger] firewall_output(sk.params, core, mat_vec_spec(sk.matrix_a, mask, sk.params.q as int), mask, pk_hash, tau, sig)
        }
}

/// The key's attributes satisfy the policy.
pub open spec fn key_satisfies_policy(sk: UserSecretKey, policy: Policy) -> bool {
    match policy@ {
        Some(rule) => crate::policy::eval_rule(rule, crate::policy::attr_set_of(crate::lsss::str_seqs(sk.attributes@))),
        None => true,
    }
}

/// The tag `tau` is in range and its leaf has been punctured.
pub open spec fn tag_punctured(sk: UserSecretKey, tau: u64) -> bool {
    sk.puncture_tree.punctured_leaves@.contains(leaf_of(tau, sk.puncture_tree.max_depth) as u64)
}

proof fn lemma_core_z_fits(
    sk: UserSecretKey,
    policy: Policy,
    message: Seq<u8>,
    ctx: Seq<u8>,
    delta: Seq<u8>,
    core: crate::pabs::types::CorePredicateSignature,
    pk_hash: Seq<u8>,
    mask: Seq<Seq<i32>>,
)
    requires
        core_signed_by(sk, policy, message, ctx, delta, core, pk_hash),
        valid_q(sk.params.q),
        0 <= sk.params.eta2 <= 0x4000_0000,
        vec_coeffs_within(mask, -(sk.params.eta2 as int), sk.params.eta2 as int),
    ensures
        crf_fits(core.z@, mask, sk.params.q as int),
{
    let p = sk.params;
    let q = p.q as int;
    let (kp, sig) = choose|kp: crate::mlwe::MLWEKeyPair, sig: crate::mlwe_sig::MLWESignature|
        {
            &&& crate::pabs::core_key_ok(kp, sk, policy, crate::lsss::str_seqs(core.attributes_used@))
            &&& pk_hash == crate::mlwe_sig::pk_hash_spec(kp.public_key@, p.q as int)
            &&& #[trigger] crate::mlwe_sig::signed_by(p, kp, message, ctx, pk_hash, delta, sig)
            &&& core.z == sig.z && core.challenge == sig.challenge && core.hints == sig.hints
        };
    let y = choose|y: Seq<Seq<i32>>|
        #[trigger] crate::mlwe_sig::mask_ok(p, kp, y) && crate::mlwe_sig::attempt_spec(p, kp, y, message, ctx, pk_hash, delta)
            == Some((sig.z@, sig.challenge@, sig.hints->Some_0@));
    let a = kp.matrix_a;
    let w = crate::mlwe_sig::commitment_spec(a@, a.rows as int, a.cols as int, p.n as int, y, q);
    let c = crate::mlwe_sig::challenge_spec(
        p,
        crate::mlwe_sig::high_bits_vec(w, p.gamma2, p.q),
        message,
        ctx,
        crate::mlwe_sig::system_tr(a@, kp.public_key@),
        pk_hash,
        delta,
    );
    let zi = crate::mlwe_sig::response_spec(y, kp.secret_key@, c);
    assert(sig.z@ == crate::mlwe_sig::reduce_vec(zi, q));
    assert forall|j: int, i: int|
        0 <= j < core.z@.len() && j < mask.len() && 0 <= i < core.z@[j].len() && i < mask[j].len() implies crate::mlwe::fits_i32(
        center(#[trigger] core.z@[j][i] as int, q) + #[trigger] mask[j][i],
    ) by {
        let x = (zi[j][i] as int) % q;
        assert(core.z@[j][i] == x as i32);
        assert(0 <= x < q);
        crate::modarith::lemma_center(core.z@[j][i] as int, q);
    }
}

proof fn lemma_mask_fits_matrix(sk: UserSecretKey, mask: Seq<Seq<i32>>)
    requires
        core_sign_ok(sk, sk.parameter_model),
        mask.len() == sk.matrix_a.cols,
        vec_uniform(mask, sk.params.n as int),
    ensures
        mat_vec_ok(sk.matrix_a, mask, first_entry_len(sk.matrix_a@)),
{
    let a = sk.matrix_a;
    assert(a@[0].len() == a.cols);
    assert(first_entry_len(a@) == sk.params.n);
}

/// Generate a firewall signature of `message` under `policy` and tag `tau`.
///
/// A punctured (or out-of-range) tag is refused with `InvalidInput`; otherwise
/// each of the `firewall_max_attempts` rounds pre-commits a fresh mask, signs
/// the core relation bound to its `delta`, and returns the first signature the
/// firewall accepts. Core signing errors end the loop at once; when every
/// round is rejected the result is `SecurityViolation`.
pub fn sign_structured(sk: &UserSecretKey, message: &[u8], policy: &Policy, tau: u64) -> (r: PabsCrfResult<Signature>)
    requires
        sign_key_ok(*sk),
    ensures
        r matches Err(e) ==> e is InvalidInput || e is PolicyError || e is SignFailed || e is SecurityViolation,
        tau >= pow2(sk.puncture_tree.max_depth as nat) ==> (r matches Err(e) && e is InvalidInput),
        tau < pow2(sk.puncture_tree.max_depth as nat) && tag_punctured(*sk, tau) ==> (r matches Err(e) && e is InvalidInput),
        tau < pow2(sk.puncture_tree.max_depth as nat) && !tag_punctured(*sk, tau) ==> (r matches Err(e) ==> !(e is InvalidInput)),
        sk.parameter_model.implementation.firewall_max_attempts > 0 && !key_satisfies_policy(*sk, *policy)
            && tau < pow2(sk.puncture_tree.max_depth as nat) && !tag_punctured(*sk, tau) ==> (r matches Err(e)
            && e is PolicyError),
        sk.parameter_model.implementation.firewall_max_attempts == 0 && tau < pow2(sk.puncture_tree.max_depth as nat)
            && !tag_punctured(*sk, tau) ==> (r matches Err(e) && e is SecurityViolation),
        r matches Err(e) && e is PolicyError ==> !key_satisfies_policy(*sk, *policy) || crate::lsss::policy_constants(
            policy@,
            sk.attributes@,
            sk.params.q as int,
        ) is None,
        r matches Err(e) && (e is SecurityViolation || e is SignFailed) ==> tau < pow2(sk.puncture_tree.max_depth as nat)
            && !tag_punctured(*sk, tau) && (sk.parameter_model.implementation.firewall_max_attempts == 0 || (
        key_satisfies_policy(*sk, *policy) && crate::lsss::policy_constants(policy@, sk.attributes@, sk.params.q as int) is Some)),
        r is Ok ==> key_satisfies_policy(*sk, *policy) && crate::lsss::policy_constants(
            policy@,
            sk.attributes@,
            sk.params.q as int,
        ) is Some,
        r matches Ok(sig) ==> {
            &&& tau < pow2(sk.puncture_tree.max_depth as nat)
            &&& !tag_punctured(*sk, tau)
            &&& firewall_signed(*sk, *policy, message@, tau, sig)
        },
{
    match sk.is_punctured(tau) {
        Ok(true) => {
            return Err(PabsCrfError::InvalidInput(crate::text::with_decimal("Cannot sign under punctured tag tau=", tau)));
        },
        Ok(false) => {},
        Err(e) => {
            return Err(e);
        },
    }
    let mlwe_params = sk.parameter_model.protocol.mlwe;
    let max_attempts = sk.parameter_model.implementation.firewall_max_attempts;
    let mut attempt: usize = 0;
    while attempt < max_attempts
        invariant
            sign_key_ok(*sk),
            mlwe_params == sk.params,
            max_attempts == sk.parameter_model.implementation.firewall_max_attempts,
            attempt <= max_attempts,
            attempt > 0 ==> key_satisfies_policy(*sk, *policy),
            attempt > 0 ==> crate::lsss::policy_constants(policy@, sk.attributes@, sk.params.q as int) is Some,
            tau < pow2(sk.puncture_tree.max_depth as nat),
            !tag_punctured(*sk, tau),
        decreases max_attempts - attempt,
    {
        let mut rng = crate::rng::thread_rng();
        let firewall: CryptographicReverseFirewall = StrongFirewall::new(mlwe_params, max_attempts);
        let precommit = match firewall.precommit(&sk.matrix_a, &mut rng) {
            Ok(pc) => pc,
            Err(e) => {
                return Err(e);
            },
        };
        let ghost mask = precommit.spec_mask();
        let (core, _witness_rows, pk_hash) = match core_sign(
            sk,
            message,
            policy,
            &sk.parameter_model,
            precommit.delta_bytes(),
            tau,
            &mut rng,
        ) {
            Ok(res) => res,
            Err(e) => {
                return Err(e);
            },
        };
        proof {
            lemma_core_z_fits(
                *sk,
                *policy,
                message@,
                signing_context(*sk, *policy, tau),
                precommit.spec_delta_bytes(),
                core,
                pk_hash@,
                mask,
            );
            lemma_mask_fits_matrix(*sk, mask);
        }
        let ghost core_copy = core;
        match firewall.finalize_precommitted(core, &sk.matrix_a, precommit, pk_hash.as_slice(), tau) {
            Ok(sig) => {
                proof {
                    let delta = mat_vec_spec(sk.matrix_a, mask, sk.params.q as int);
                    assert(firewall_output(sk.params, core_copy, delta, mask, pk_hash@, tau, sig));
                    assert(firewall_signed(*sk, *policy, message@, tau, sig));
                }
                return Ok(sig);
            },
            Err(_) => {},
        }
        attempt += 1;
    }
    let msg = crate::text::with_decimal("Sign structured failed after ", max_attempts as u64);
    Err(PabsCrfError::SecurityViolation(msg.concat(" firewall attempts")))
}

/// The witness rows recorded for `attributes` under `policy`: the indices of
/// the sharing-matrix rows whose attribute is among them, as `u16`.
pub open spec fn witness_rows_spec(policy: Policy, attributes: Seq<String>) -> Seq<u16> {
    let attrs = policy_lsss(policy@)->Some_0.1;
    let sel = selected_rows(attrs, attr_names(attributes), attrs.len() as int);
    Seq::new(sel.len(), |i: int| (sel[i] % 0x10000) as u16)
}

impl FirewallSignature {
    /// Compress the signature into the transport object, recording the
    /// witness rows of its attributes in the policy's sharing matrix.
    pub fn compress(&self, params: &crate::mlwe::MLWEParameters) -> (r: PabsCrfResult<CompressedSignature>)
        requires
            valid_q(params.q),
            params.gamma1 < 0x8000_0000,
            crate::compression::z_fits(centered_vec(self.z@, params.q as int), params.gamma1),
        ensures
            r is Ok <==> policy_lsss(self.policy@) is Some,
            r matches Err(e) ==> e is PolicyError,
            r matches Ok(c) ==> compressed_from(*self, witness_rows_spec(self.policy, self.attributes_used@), *params, c),
    {
        let witness_rows = match witness_rows_from_attributes(&self.policy, self.attributes_used.as_slice()) {
            Ok(rows) => rows,
            Err(e) => {
                return Err(e);
            },
        };
        assert(witness_rows@ =~= witness_rows_spec(self.policy, self.attributes_used@));
        Ok(compress_firewall_signature(self, witness_rows, params))
    }
}

/// The witness attributes named by `rows` in a sharing matrix with row attributes `attrs`.
pub open spec fn rows_in_range(rows: Seq<u16>, attrs: Seq<Seq<char>>) -> bool {
    forall|i: int| 0 <= i < rows.len() ==> (#[trigger] rows[i]) < attrs.len()
}

impl CompressedFirewallSignature {
    /// Recover the witness attribute names against a public policy.
    pub fn witness_attributes(&self, policy: &Policy) -> (r: PabsCrfResult<Vec<String>>)
        ensures
            policy_lsss(policy@) is None ==> (r matches Err(e) && e is PolicyError),
            policy_lsss(policy@) is Some ==> (r is Ok <==> rows_in_range(self.witness_rows@, policy_lsss(policy@)->Some_0.1)),
            policy_lsss(policy@) is Some ==> (r matches Err(e) ==> e is InvalidInput),
            r matches Ok(attrs) ==> {
                let row_attrs = policy_lsss(policy@)->Some_0.1;
                &&& attrs@.len() == self.witness_rows@.len()
                &&& forall|i: int| 0 <= i < attrs@.len() ==> (#[trigger] attrs@[i])@ == row_attrs[self.witness_rows@[i] as int]
            },
    {
        let lsss = match crate::lsss::lsss_from_policy_cached(policy) {
            Ok(m) => m,
            Err(e) => {
                return Err(e);
            },
        };
        let names = lsss.row_to_attr();
        let ghost row_attrs = policy_lsss(policy@)->Some_0.1;
        let mut attrs: Vec<String> = Vec::with_capacity(self.witness_rows.len());
        let mut i: usize = 0;
        while i < self.witness_rows.len()
            invariant
                policy_lsss(policy@) is Some,
                row_attrs == policy_lsss(policy@)->Some_0.1,
                str_seqs(names@) == row_attrs,
                i <= self.witness_rows@.len(),
                attrs@.len() == i,
                forall|t: int| 0 <= t < i ==> (#[trigger] self.witness_rows@[t]) < row_attrs.len(),
                forall|t: int| 0 <= t < i ==> (#[trigger] attrs@[t])@ == row_attrs[self.witness_rows@[t] as int],
            decreases self.witness_rows@.len() - i,
        {
            let idx = self.witness_rows[i] as usize;
            if idx >= names.len() {
                return Err(PabsCrfError::InvalidInput(
                    crate::text::with_decimal("Witness row out of range for policy: ", idx as u64),
                ));
            }
            let name = names[idx].clone();
            assert(name@ == row_attrs[idx as int]);
            attrs.push(name);
            i += 1;
        }
        Ok(attrs)
    }

    /// Serialize and zstd-compress the transport object.
    pub fn to_bytes(&self) -> (r: PabsCrfResult<Vec<u8>>)
        ensures
            r is Ok <==> crate::serialization::zstd_encodes(
                crate::serialization::compact_layout(*self),
                crate::serialization::ZSTD_LEVEL,
            ),
            r matches Ok(blob) ==> forall|limit: u64| #[trigger] crate::serialization::zstd_decodes(blob@, limit),
            r matches Ok(blob) ==> forall|limit: u64| #[trigger] crate::serialization::zstd_decoded_prefix(blob@, limit)
                == crate::serialization::prefix_upto(crate::serialization::compact_layout(*self), limit),
            r matches Err(e) ==> e is CompressionError,
    {
        serialize_compressed_signature(self)
    }

    /// Parse a zstd-compressed transport blob.
    pub fn from_bytes(blob: &[u8]) -> (r: PabsCrfResult<Self>)
        ensures
            r is Ok <==> crate::serialization::deserializes(blob@),
            r matches Err(e) && e is CompressionError ==> !crate::serialization::deserializes(blob@),
            r matches Ok(c) ==> {
                let raw = crate::serialization::blob_layout(blob@);
                &&& raw.len() <= crate::serialization::MAX_DECOMPRESSED_SIZE
                &&& crate::serialization::layout_valid(raw)
                &&& crate::serialization::parsed_from(raw, c)
            },
            r matches Err(e) ==> e is CompressionError || (e is DeserializationError && crate::serialization::blob_layout(
                blob@,
            ).len() <= crate::serialization::MAX_DECOMPRESSED_SIZE && !crate::serialization::layout_valid(
                crate::serialization::blob_layout(blob@),
            )),
    {
        deserialize_compressed_signature(blob)
    }
}

/// Convenience wrapper for the signing API.
pub struct Sign;

impl Sign {
    /// Create a signer facade.
    pub fn new() -> (s: Self) {
        Sign
    }

    /// Sign, compress, and return the zstd-compressed transport blob.
    #[verifier::spinoff_prover]
    #[verifier::rlimit(100)]
    pub fn sign_compressed_structured(&self, sk: &UserSecretKey, message: &[u8], policy: &Policy, tau: u64) -> (r:
        PabsCrfResult<Vec<u8>>)
        requires
            sign_key_ok(*sk),
            sk.params.gamma1 < 0x4000_0000,
        ensures
            r matches Err(e) ==> e is InvalidInput || e is PolicyError || e is SignFailed || e is SecurityViolation
                || e is CompressionError,
            tau >= pow2(sk.puncture_tree.max_depth as nat) ==> (r matches Err(e) && e is InvalidInput),
            tau < pow2(sk.puncture_tree.max_depth as nat) && tag_punctured(*sk, tau) ==> (r matches Err(e) && e is InvalidInput),
            tau < pow2(sk.puncture_tree.max_depth as nat) && !tag_punctured(*sk, tau) ==> (r matches Err(e) ==> !(e is InvalidInput)),
            sk.parameter_model.implementation.firewall_max_attempts > 0 && !key_satisfies_policy(*sk, *policy)
                && tau < pow2(sk.puncture_tree.max_depth as nat) && !tag_punctured(*sk, tau) ==> (r matches Err(e)
                && e is PolicyError),
            sk.parameter_model.implementation.firewall_max_attempts == 0 && tau < pow2(sk.puncture_tree.max_depth as nat)
                && !tag_punctured(*sk, tau) ==> (r matches Err(e) && e is SecurityViolation),
            r matches Err(e) && e is PolicyError ==> !key_satisfies_policy(*sk, *policy) || crate::lsss::policy_constants(
                policy@,
                sk.attributes@,
                sk.params.q as int,
            ) is None,
            r matches Err(e) && (e is SecurityViolation || e is SignFailed || e is CompressionError) ==> tau < pow2(
                sk.puncture_tree.max_depth as nat,
            ) && !tag_punctured(*sk, tau) && (sk.parameter_model.implementation.firewall_max_attempts == 0 || (
            key_satisfies_policy(*sk, *policy) && crate::lsss::policy_constants(policy@, sk.attributes@, sk.params.q as int)
                is Some)),
            r matches Ok(blob) ==> exists|sig: Signature, c: CompressedSignature| {
                &&& firewall_signed(*sk, *policy, message@, tau, sig)
                &&& compressed_from(sig, witness_rows_spec(sig.policy, sig.attributes_used@), sk.params, c)
                &&& forall|limit: u64| #[trigger] crate::serialization::zstd_decoded_prefix(blob@, limit)
                    == crate::serialization::prefix_upto(crate::serialization::compact_layout(c), limit)
            },
    {
        let sig = match sign_structured(sk, message, policy, tau) {
            Ok(s) => s,
            Err(e) => {
                return Err(e);
            },
        };
        let ghost signed_ok = key_satisfies_policy(*sk, *policy) && crate::lsss::policy_constants(
            policy@,
            sk.attributes@,
            sk.params.q as int,
        ) is Some && tau < pow2(sk.puncture_tree.max_depth as nat) && !tag_punctured(*sk, tau);
        assert(signed_ok);
        proof {
            lemma_signed_z_fits(*sk, *policy, message@, tau, sig);
            assert(sig.policy@ == policy@);
            crate::lsss::lemma_constants_need_matrix(policy@, sk.attributes@, sk.params.q as int);
        }
        let c = match sig.compress(&sk.params) {
            Ok(c) => c,
            Err(e) => {
                return Err(e);
            },
        };
        c.to_bytes()
    }
}

/// The centered response of a firewall signature lies strictly within
/// `gamma1`, so it packs into `spec_z_bits(gamma1)`-bit values.
pub proof fn lemma_signed_z_fits(sk: UserSecretKey, policy: Policy, message: Seq<u8>, tau: u64, sig: FirewallSignature)
    requires
        firewall_signed(sk, policy, message, tau, sig),
        valid_q(sk.params.q),
        sk.params.gamma1 < 0x4000_0000,
        sk.params.beta >= 0,
    ensures
        crate::compression::z_fits(centered_vec(sig.z@, sk.params.q as int), sk.params.gamma1),
{
    let p = sk.params;
    let q = p.q as int;
    let g = p.gamma1 as int;
    let (core, mask, pk_hash) = choose|core: crate::pabs::types::CorePredicateSignature, mask: Seq<Seq<i32>>, pk_hash: Seq<u8>|
        {
            let delta = mat_vec_spec(sk.matrix_a, mask, p.q as int);
            &&& mask.len() == sk.matrix_a.cols
            &&& vec_uniform(mask, p.n as int)
            &&& vec_coeffs_within(mask, -(p.eta2 as int), p.eta2 as int)
            &&& core.policy@ == policy@
            &&& core.message_hash@ == sha256_spec(message)
            &&& core.policy_digest@ == policy_digest_spec(policy@)
            &&& core.parameter_set_id@ == crate::parameter_sets::target_label(sk.parameter_model.protocol.security_target)
            &&& core.gid == sk.gid
            &&& core_signed_by(sk, policy, message, signing_context(sk, policy, tau), hash_bytes_spec(delta), core, pk_hash)
            &&& crate::firewall::crf_accepts(p, core.z@, mask)
            &&& #[trigger] firewall_output(sk.params, core, mat_vec_spec(sk.matrix_a, mask, sk.params.q as int), mask, pk_hash, tau, sig)
        };
    let x = crate::firewall::crf_response(core.z@, mask, q);
    assert(sig.z@ == crate::mlwe_sig::reduce_vec(x, q));
    crate::mlwe::lemma_vec_max_abs_bound(x, g);
    crate::compression::lemma_z_bits_cover(p.gamma1);
    let cv = centered_vec(sig.z@, q);
    assert forall|i: int, j: int| 0 <= i < cv.len() && 0 <= j < cv[i].len() implies {
        &&& 0 <= #[trigger] cv[i][j] + p.gamma1
        &&& cv[i][j] + p.gamma1 < pow2(crate::compression::spec_z_bits(p.gamma1))
        &&& cv[i][j] + p.gamma1 <= i32::MAX
    } by {
        crate::mlwe::lemma_max_abs_bound(x[i], g);
        let xv = x[i][j] as int;
        assert(-g < xv < g);
        let r = xv % q;
        assert(sig.z@[i][j] == r as i32);
        assert(0 <= r < q);
        lemma_center_within(xv, q, g);
        assert(cv[i][j] == center(r, q) as i32);
    }
}

pub proof fn lemma_center_within(xv: int, q: int, g: int)
    requires
        q >= 1,
        -g < xv < g,
    ensures
        -g < center(xv % q, q) < g,
        -(q / 2) <= center(xv % q, q) <= q / 2,
{
    let r = xv % q;
    crate::modarith::lemma_center(r, q);
    let v = center(r, q);
    if g <= q / 2 {
        vstd::arithmetic::div_mod::lemma_mod_twice(xv, q);
        assert((v - xv) % q == 0) by {
            assert(v % q == xv % q);
            vstd::arithmetic::div_mod::lemma_sub_mod_noop(v, xv, q);
            vstd::arithmetic::div_mod::lemma_small_mod(0, q as nat);
        }
        assert(-q < v - xv < q);
        if v - xv > 0 {
            vstd::arithmetic::div_mod::lemma_small_mod((v - xv) as nat, q as nat);
        } else if v - xv < 0 {
            vstd::arithmetic::div_mod::lemma_mod_add_multiples_vanish(v - xv, q);
            vstd::arithmetic::div_mod::lemma_small_mod((v - xv + q) as nat, q as nat);
        }
        assert(v == xv);
    }
}

} // verus!
