//! Hardware root of trust for the puncture state.
//!
//! The state is simulated in software: the set of punctured tags and a
//! version counter are signed with an ed25519 key held by the "hardware", and
//! puncture proofs are ed25519 signatures over the tag and the version.
use std::collections::HashSet;
use vstd::prelude::*;
use vstd::std_specs::iter::IteratorSpec;
use ed25519_dalek::{Signature, Signer, SigningKey, Verifier, VerifyingKey};
use crate::codec::{le64, push_u64_le};
use crate::puncture_tree::clone_u64_set;

verus! {

broadcast use vstd::std_specs::hash::group_hash_axioms;

// ---------------------------------------------------------------------------
// ed25519
// ---------------------------------------------------------------------------

/// An ed25519 signing key of `ed25519-dalek`.
#[verifier::external_type_specification]
#[verifier::external_body]
pub struct ExSigningKey(SigningKey);

/// An ed25519 verifying key of `ed25519-dalek`.
#[verifier::external_type_specification]
#[verifier::external_body]
pub struct ExVerifyingKey(VerifyingKey);

/// The public key of the 32-byte ed25519 secret key `secret`.
pub uninterp spec fn ed25519_public_spec(secret: Seq<u8>) -> Seq<u8>;

/// The ed25519 signature of `msg` under the 32-byte secret key `secret`.
pub uninterp spec fn ed25519_sig_spec(secret: Seq<u8>, msg: Seq<u8>) -> Seq<u8>;

/// Whether `sig` is a valid ed25519 signature of `msg` under the encoded public key `public`.
pub uninterp spec fn ed25519_verify_spec(public: Seq<u8>, msg: Seq<u8>, sig: Seq<u8>) -> bool;

/// `SigningKey::generate` with the operating system's generator: a fresh key.
/// Nothing is claimed of which key comes back.
#[verifier::external_body]
fn generate_signing_key() -> SigningKey {
    SigningKey::generate(&mut rand::rngs::OsRng)
}

/// `SigningKey::to_bytes`: the key's 32-byte secret.
#[verifier::external_body]
fn signing_key_secret(key: &SigningKey) -> (r: Vec<u8>)
    ensures
        r@.len() == 32,
{
    key.to_bytes().to_vec()
}

/// `SigningKey::from_bytes(secret).verifying_key().to_bytes()`: the encoded
/// public key of a 32-byte secret, named by `ed25519_public_spec`.
#[verifier::external_body]
fn ed25519_public_key(secret: &[u8]) -> (r: Vec<u8>)
    requires
        secret@.len() == 32,
    ensures
        r@ == ed25519_public_spec(secret@),
        r@.len() == 32,
{
    let bytes: [u8; 32] = secret.try_into().unwrap();
    SigningKey::from_bytes(&bytes).verifying_key().to_bytes().to_vec()
}

/// `SigningKey::from_bytes(secret).sign(msg).to_bytes()`: the 64-byte
/// signature named by `ed25519_sig_spec`. As the `Signer` / `Verifier`
/// documentation of `ed25519-dalek` states, a signature made with a key verifies
/// under that key's public key.
#[verifier::external_body]
fn ed25519_sign(secret: &[u8], msg: &[u8]) -> (r: Vec<u8>)
    requires
        secret@.len() == 32,
    ensures
        r@ == ed25519_sig_spec(secret@, msg@),
        r@.len() == 64,
        ed25519_verify_spec(ed25519_public_spec(secret@), msg@, r@),
{
    let bytes: [u8; 32] = secret.try_into().unwrap();
    SigningKey::from_bytes(&bytes).sign(msg).to_bytes().to_vec()
}

/// `VerifyingKey::from_bytes(public)` then `Verifier::verify(msg, sig)`: whether
/// the signature is valid; a public key that does not decode is invalid.
#[verifier::external_body]
fn ed25519_verify(public: &[u8], msg: &[u8], sig: &[u8]) -> (r: bool)
    requires
        public@.len() == 32,
        sig@.len() == 64,
    ensures
        r == ed25519_verify_spec(public@, msg@, sig@),
{
    let pk: [u8; 32] = public.try_into().unwrap();
    let sb: [u8; 64] = sig.try_into().unwrap();
    match VerifyingKey::from_bytes(&pk) {
        Ok(vk) => vk.verify(msg, &Signature::from_bytes(&sb)).is_ok(),
        Err(_) => false,
    }
}

/// Whether the 32 bytes `public` are the compressed encoding of a point of
/// the curve (`CompressedEdwardsY::decompress` succeeds).
pub uninterp spec fn ed25519_point_decodes(public: Seq<u8>) -> bool;

/// `VerifyingKey::from_bytes(public).ok()`: `Some` exactly when the bytes
/// decompress to a curve point, as named by `ed25519_point_decodes`.
#[verifier::external_body]
fn verifying_key_from_bytes(public: &[u8]) -> (r: Option<VerifyingKey>)
    requires
        public@.len() == 32,
    ensures
        r is Some <==> ed25519_point_decodes(public@),
{
    let pk: [u8; 32] = public.try_into().unwrap();
    VerifyingKey::from_bytes(&pk).ok()
}

/// `VerifyingKey::to_bytes`: the 32-byte encoding of a public key.
#[verifier::external_body]
fn verifying_key_bytes(key: &VerifyingKey) -> (r: Vec<u8>)
    ensures
        r@.len() == 32,
{
    key.to_bytes().to_vec()
}

/// `SigningKey::verifying_key`: the public key of a signing key.
#[verifier::external_body]
fn signing_key_public(key: &SigningKey) -> VerifyingKey {
    key.verifying_key()
}

/// The current time in whole seconds since the Unix epoch (0 when the clock
/// is before the epoch). Nothing is claimed of its value.
#[verifier::external_body]
fn unix_time_secs() -> u64 {
    std::time::SystemTime::now().duration_since(std::time::UNIX_EPOCH).map(|d| d.as_secs()).unwrap_or(0)
}

// ---------------------------------------------------------------------------
// Signed puncture state
// ---------------------------------------------------------------------------

/// Hardware security module type.
#[derive(Debug, Clone, Copy, PartialEq, Eq)]
pub enum HardwareType {
    /// TPM 2.0 (Trusted Platform Module)
    Tpm20,
    /// ARM TrustZone TEE
    TrustZoneTee,
    /// Intel SGX (Software Guard Extensions)
    IntelSgx,
    /// Secure Element (generic)
    SecureElement,
    /// Software simulation (for testing only)
    SoftwareSimulated,
}

/// Values in strictly increasing order.
pub open spec fn strictly_increasing(s: Seq<u64>) -> bool {
    forall|i: int, j: int| 0 <= i < j < s.len() ==> s[i] < s[j]
}

/// The elements of a finite set of tags in increasing order.
pub open spec fn sorted_tags(tags: Set<u64>) -> Seq<u64> {
    choose|s: Seq<u64>| strictly_increasing(s) && s.to_set() == tags
}

/// The little-endian bytes of every value of `s`, in order.
pub open spec fn u64s_le(s: Seq<u64>) -> Seq<u8>
    decreases s.len(),
{
    if s.len() == 0 {
        Seq::empty()
    } else {
        u64s_le(s.drop_last()) + le64(s.last() as int)
    }
}

/// The bytes the state signature covers: the punctured tags in increasing
/// order, then the version, each as a little-endian `u64`.
#[verifier::opaque]
pub open spec fn state_payload(tags: Set<u64>, version: u64) -> Seq<u8> {
    u64s_le(sorted_tags(tags)) + le64(version as int)
}

/// The bytes a puncture proof signs: the tag, then the state version.
pub open spec fn proof_payload(tag: u64, version: u64) -> Seq<u8> {
    le64(tag as int) + le64(version as int)
}

/// A puncture proof's signed payload determines its tag and its version: two
/// payloads are equal only for the same tag and the same version, so a proof
/// made for one tag never verifies as a proof for another.
pub proof fn lemma_proof_payload_injective(t1: u64, v1: u64, t2: u64, v2: u64)
    ensures
        proof_payload(t1, v1) == proof_payload(t2, v2) ==> t1 == t2 && v1 == v2,
        t1 != t2 ==> proof_payload(t1, v1) != proof_payload(t2, v2),
{
    if proof_payload(t1, v1) == proof_payload(t2, v2) {
        lemma_le64_len(t1 as int);
        lemma_le64_len(t2 as int);
        lemma_prefix_split(le64(t1 as int), le64(v1 as int), le64(t2 as int), le64(v2 as int));
        lemma_le64_injective(t1, t2);
        lemma_le64_injective(v1, v2);
    }
}

/// A puncture proof's signed payload is sixteen bytes: the tag as a
/// little-endian `u64` at offset 0, then the state version at offset 8.
pub proof fn lemma_proof_payload_layout(tag: u64, version: u64)
    ensures
        proof_payload(tag, version).len() == 16,
        crate::codec::le_u64_at(proof_payload(tag, version), 0) == tag,
        crate::codec::le_u64_at(proof_payload(tag, version), 8) == version,
{
    let p = proof_payload(tag, version);
    lemma_le64_len(tag as int);
    lemma_le64_len(version as int);
    assert(p.subrange(0, 8) =~= le64(tag as int));
    assert(p.subrange(8, 16) =~= le64(version as int));
    crate::codec::lemma_le64_roundtrip(tag as int, p, 0);
    crate::codec::lemma_le64_roundtrip(version as int, p, 8);
}

proof fn lemma_le64_len(x: int)
    ensures
        le64(x).len() == 8,
{
}

/// Two concatenations with equally long first parts are equal only part by part.
proof fn lemma_prefix_split(a1: Seq<u8>, b1: Seq<u8>, a2: Seq<u8>, b2: Seq<u8>)
    requires
        a1.len() == a2.len(),
        a1 + b1 == a2 + b2,
    ensures
        a1 == a2,
        b1 == b2,
{
    assert(a1 =~= (a1 + b1).subrange(0, a1.len() as int));
    assert(a2 =~= (a2 + b2).subrange(0, a1.len() as int));
    assert(b1 =~= (a1 + b1).subrange(a1.len() as int, (a1 + b1).len() as int));
    assert(b2 =~= (a2 + b2).subrange(a1.len() as int, (a2 + b2).len() as int));
}

/// Eight little-endian bytes determine the `u64` they encode.
proof fn lemma_le64_injective(a: u64, b: u64)
    requires
        le64(a as int) == le64(b as int),
    ensures
        a == b,
{
    let s = le64(a as int);
    assert(s.subrange(0, 8) =~= s);
    crate::codec::lemma_le64_roundtrip(a as int, s, 0);
    crate::codec::lemma_le64_roundtrip(b as int, s, 0);
}

proof fn lemma_to_set_drop_first(s: Seq<u64>)
    requires
        s.len() > 0,
        strictly_increasing(s),
    ensures
        s.drop_first().to_set() == s.to_set().remove(s[0]),
        strictly_increasing(s.drop_first()),
{
    assert forall|x: u64| #[trigger] s.drop_first().to_set().contains(x) <==> s.to_set().remove(s[0]).contains(x) by {
        if s.drop_first().to_set().contains(x) {
            let i = choose|i: int| 0 <= i < s.drop_first().len() && s.drop_first()[i] == x;
            assert(s[i + 1] == x);
            assert(s.contains(x));
        }
        if s.to_set().remove(s[0]).contains(x) {
            assert(s.contains(x));
            let i = choose|i: int| 0 <= i < s.len() && s[i] == x;
            assert(i != 0);
            assert(s.drop_first()[i - 1] == x);
            assert(s.drop_first().contains(x));
        }
    }
    assert(s.drop_first().to_set() =~= s.to_set().remove(s[0]));
}

/// Two increasing sequences with the same elements are equal.
proof fn lemma_sorted_unique(a: Seq<u64>, b: Seq<u64>)
    requires
        strictly_increasing(a),
        strictly_increasing(b),
        a.to_set() == b.to_set(),
    ensures
        a == b,
    decreases a.len(),
{
    if a.len() == 0 {
        if b.len() > 0 {
            assert(b.to_set().contains(b[0]));
            assert(a.to_set().contains(b[0]));
        }
        assert(a =~= b);
    } else {
        assert(a.to_set().contains(a[0]));
        assert(b.len() > 0) by {
            assert(b.to_set().contains(a[0]));
        }
        assert(b.to_set().contains(b[0]));
        assert(a[0] == b[0]) by {
            assert(b.contains(a[0]));
            assert(a.contains(b[0]));
            let i = choose|i: int| 0 <= i < b.len() && b[i] == a[0];
            let j = choose|j: int| 0 <= j < a.len() && a[j] == b[0];
            if i > 0 {
                assert(b[0] < b[i]);
            }
            if j > 0 {
                assert(a[0] < a[j]);
            }
        }
        lemma_to_set_drop_first(a);
        lemma_to_set_drop_first(b);
        lemma_sorted_unique(a.drop_first(), b.drop_first());
        assert(a =~= b) by {
            assert forall|i: int| 0 <= i < a.len() implies a[i] == b[i] by {
                if i > 0 {
                    assert(a[i] == a.drop_first()[i - 1]);
                    assert(b[i] == b.drop_first()[i - 1]);
                }
            }
        }
    }
}

/// The punctured tags of a set in increasing order.
fn sorted_tag_list(tags: &HashSet<u64>) -> (r: Vec<u64>)
    ensures
        r@ == sorted_tags(tags@),
{
    let mut out: Vec<u64> = Vec::new();
    let ghost keys = tags@;
    let ghost rem = vstd::std_specs::hash::spec_hash_keys_iter(tags).remaining();
    proof {
        vstd::std_specs::hash::axiom_spec_hash_keys_iter(tags);
    }
    for x in it: tags.iter()
        invariant
            keys == tags@,
            it.seq() == rem,
            rem.unref().to_set() == keys,
            rem.no_duplicates(),
            strictly_increasing(out@),
            out@.to_set() == rem.unref().take(it.index() as int).to_set(),
    {
        let ghost before = rem.unref().take(it.index() as int);
        let v = *x;
        assert(!out@.to_set().contains(v)) by {
            if out@.to_set().contains(v) {
                assert(before.to_set().contains(v));
                let i = choose|i: int| 0 <= i < before.len() && before[i] == v;
                assert(rem[i] == rem[it.index() as int]);
            }
        }
        let mut j: usize = 0;
        while j < out.len() && out[j] < v
            invariant
                j <= out@.len(),
                forall|t: int| 0 <= t < j ==> out@[t] < v,
            decreases out@.len() - j,
        {
            j += 1;
        }
        let ghost old_out = out@;
        out.insert(j, v);
        proof {
            assert(j < old_out.len() ==> old_out[j as int] > v) by {
                if j < old_out.len() {
                    assert(old_out[j as int] != v) by {
                        assert(old_out.to_set().contains(old_out[j as int]));
                    }
                }
            }
            assert(strictly_increasing(out@)) by {
                assert forall|a: int, b: int| 0 <= a < b < out@.len() implies out@[a] < out@[b] by {
                    if b < j {
                    } else if b == j {
                        assert(out@[a] == old_out[a]);
                    } else if a < j {
                        assert(out@[b] == old_out[b - 1]);
                    } else if a == j {
                        assert(out@[b] == old_out[b - 1]);
                    } else {
                        assert(out@[a] == old_out[a - 1]);
                        assert(out@[b] == old_out[b - 1]);
                    }
                }
            }
            assert(rem.unref().take(it.index() + 1) =~= before.push(v));
            before.lemma_push_to_set_commute(v);
            assert(out@.to_set() =~= old_out.to_set().insert(v)) by {
                assert forall|y: u64| #[trigger] out@.contains(y) <==> (old_out.contains(y) || y == v) by {
                    if out@.contains(y) {
                        let i = choose|i: int| 0 <= i < out@.len() && out@[i] == y;
                        if i < j {
                            assert(old_out[i] == y);
                        } else if i > j {
                            assert(old_out[i - 1] == y);
                        }
                    }
                    if old_out.contains(y) {
                        let i = choose|i: int| 0 <= i < old_out.len() && old_out[i] == y;
                        if i < j {
                            assert(out@[i] == y);
                        } else {
                            assert(out@[i + 1] == y);
                        }
                    }
                    if y == v {
                        assert(out@[j as int] == v);
                    }
                }
            }
        }
    }
    proof {
        assert(rem.unref().take(rem.len() as int) =~= rem.unref());
        let s = sorted_tags(keys);
        assert(strictly_increasing(out@) && out@.to_set() == keys);
        lemma_sorted_unique(out@, s);
    }
    out
}

fn payload_bytes(tags: &HashSet<u64>, version: u64) -> (r: Vec<u8>)
    ensures
        r@ == state_payload(tags@, version),
{
    let sorted = sorted_tag_list(tags);
    let mut out: Vec<u8> = Vec::new();
    let mut i: usize = 0;
    while i < sorted.len()
        invariant
            i <= sorted@.len(),
            out@ == u64s_le(sorted@.take(i as int)),
        decreases sorted@.len() - i,
    {
        push_u64_le(&mut out, sorted[i]);
        proof {
            assert(sorted@.take(i + 1).drop_last() =~= sorted@.take(i as int));
        }
        i += 1;
    }
    assert(sorted@.take(sorted@.len() as int) =~= sorted@);
    push_u64_le(&mut out, version);
    proof {
        reveal(state_payload);
    }
    out
}

fn proof_payload_bytes(tag: u64, version: u64) -> (r: Vec<u8>)
    ensures
        r@ == proof_payload(tag, version),
{
    let mut out: Vec<u8> = Vec::new();
    push_u64_le(&mut out, tag);
    push_u64_le(&mut out, version);
    assert(out@ =~= proof_payload(tag, version));
    out
}

/// A hardware root of trust: protected puncture state, puncture proofs and
/// key erasure.
pub trait HardwareRootOfTrust {
    /// Whether another puncture can be recorded.
    spec fn can_puncture(&self) -> bool;

    /// Record that `tag` has been punctured in protected state.
    fn puncture(&mut self, tag: u64)
        requires
            old(self).can_puncture(),
    ;

    /// Query whether `tag` has already been punctured.
    fn is_punctured(&self, tag: u64) -> bool;

    /// Produce a hardware-backed proof for the puncture status of `tag`.
    fn generate_puncture_proof(&self, tag: u64) -> PunctureProof;

    /// Securely erase a key reference inside the trusted component.
    fn secure_erase_key(&mut self, key_id: &str);
}

/// Puncture state stored in hardware: the punctured tags, a version counter
/// bumped by every new puncture, and an ed25519 signature over both.
#[derive(Debug)]
pub struct HardwarePunctureState {
    /// Kind of hardware holding the state.
    pub hw_type: HardwareType,
    /// Punctured tags.
    pub punctured_tags: HashSet<u64>,
    /// Signature over `state_payload(punctured_tags, version)`.
    pub hw_signature: Vec<u8>,
    /// Number of punctures recorded.
    pub version: u64,
    /// Encoded public key of the state key.
    pub hw_pubkey: Vec<u8>,
    /// Secret of the state key, when the state holds it.
    pub hw_secret_key: Option<Vec<u8>>,
}

/// The state holds a 32-byte secret key whose public key it publishes.
pub open spec fn holds_own_key(s: HardwarePunctureState) -> bool {
    &&& s.hw_secret_key matches Some(k)
    &&& k@.len() == 32
    &&& s.hw_pubkey@ == ed25519_public_spec(k@)
    &&& s.hw_pubkey@.len() == 32
}

/// The state's signature is a valid signature of its current payload under its public key.
pub open spec fn integrity_holds(s: HardwarePunctureState) -> bool {
    &&& s.hw_signature@.len() == 64
    &&& s.hw_pubkey@.len() == 32
    &&& ed25519_verify_spec(s.hw_pubkey@, state_payload(s.punctured_tags@, s.version), s.hw_signature@)
}

impl Clone for HardwarePunctureState {
    fn clone(&self) -> (r: Self)
        ensures
            r.hw_type == self.hw_type,
            r.punctured_tags@ == self.punctured_tags@,
            r.hw_signature@ == self.hw_signature@,
            r.version == self.version,
            r.hw_pubkey@ == self.hw_pubkey@,
            r.hw_secret_key is Some <==> self.hw_secret_key is Some,
            r.hw_secret_key matches Some(k) ==> k@ == self.hw_secret_key->Some_0@,
    {
        let hw_secret_key = match &self.hw_secret_key {
            Some(k) => Some(vstd::slice::slice_to_vec(k.as_slice())),
            None => None,
        };
        HardwarePunctureState {
            hw_type: self.hw_type,
            punctured_tags: clone_u64_set(&self.punctured_tags),
            hw_signature: vstd::slice::slice_to_vec(self.hw_signature.as_slice()),
            version: self.version,
            hw_pubkey: vstd::slice::slice_to_vec(self.hw_pubkey.as_slice()),
            hw_secret_key,
        }
    }
}

impl HardwareRootOfTrust for HardwarePunctureState {
    open spec fn can_puncture(&self) -> bool {
        self.version < u64::MAX
    }

    /// Record `tag`; a new tag bumps the version and re-signs the state.
    fn puncture(&mut self, tag: u64)
        ensures
            final(self).punctured_tags@ == old(self).punctured_tags@.insert(tag),
            final(self).version == old(self).version + if old(self).punctured_tags@.contains(tag) { 0int } else { 1int },
            final(self).hw_type == old(self).hw_type,
            final(self).hw_pubkey@ == old(self).hw_pubkey@,
            final(self).hw_secret_key == old(self).hw_secret_key,
            holds_own_key(*old(self)) && integrity_holds(*old(self)) ==> integrity_holds(*final(self)),
    {
        let ghost before = self.punctured_tags@;
        let inserted = self.punctured_tags.insert(tag);
        if inserted {
            self.version = self.version + 1;
            self.sign_state();
        } else {
            assert(self.punctured_tags@ =~= before);
        }
    }

    fn is_punctured(&self, tag: u64) -> (r: bool)
        ensures
            r == self.punctured_tags@.contains(tag),
    {
        self.punctured_tags.contains(&tag)
    }

    /// A proof for `tag` at the current version, signed with the state key
    /// when the state holds one (unsigned otherwise).
    fn generate_puncture_proof(&self, tag: u64) -> (proof: PunctureProof)
        ensures
            proof.tag == tag,
            proof.punctured == self.punctured_tags@.contains(tag),
            proof.version == self.version,
            proof.hw_type == self.hw_type,
            match self.hw_secret_key {
                Some(k) => if k@.len() == 32 {
                    proof.hw_signature@ == ed25519_sig_spec(k@, proof_payload(tag, self.version))
                } else {
                    proof.hw_signature@.len() == 0
                },
                None => proof.hw_signature@.len() == 0,
            },
            holds_own_key(*self) ==> proof.hw_signature@.len() == 64 && ed25519_verify_spec(
                self.hw_pubkey@,
                proof_payload(tag, self.version),
                proof.hw_signature@,
            ),
    {
        let payload = proof_payload_bytes(tag, self.version);
        let hw_signature = match &self.hw_secret_key {
            Some(k) => if k.len() == 32 {
                ed25519_sign(k.as_slice(), payload.as_slice())
            } else {
                Vec::new()
            },
            None => Vec::new(),
        };
        PunctureProof {
            tag,
            punctured: self.punctured_tags.contains(&tag),
            version: self.version,
            hw_signature,
            hw_type: self.hw_type,
            timestamp: unix_time_secs(),
        }
    }

    /// The simulated hardware has no key store to erase; nothing changes.
    fn secure_erase_key(&mut self, key_id: &str)
        ensures
            *final(self) == *old(self),
    {
    }
}

impl HardwarePunctureState {
    /// A fresh state with no punctured tag, keyed and signed with `signing_key`.
    pub fn new_with_keypair(hw_type: HardwareType, signing_key: &SigningKey) -> (s: Self)
        ensures
            s.hw_type == hw_type,
            s.punctured_tags@ == Set::<u64>::empty(),
            s.version == 0,
            holds_own_key(s),
            integrity_holds(s),
    {
        let secret = signing_key_secret(signing_key);
        let hw_pubkey = ed25519_public_key(secret.as_slice());
        let mut state = HardwarePunctureState {
            hw_type,
            punctured_tags: HashSet::new(),
            hw_signature: Vec::new(),
            version: 0,
            hw_pubkey,
            hw_secret_key: Some(secret),
        };
        state.sign_state();
        state
    }

    /// A fresh state keyed with a newly generated signing key.
    pub fn new(hw_type: HardwareType) -> (s: Self)
        ensures
            s.hw_type == hw_type,
            s.punctured_tags@ == Set::<u64>::empty(),
            s.version == 0,
            holds_own_key(s),
            integrity_holds(s),
    {
        let signing_key = generate_signing_key();
        Self::new_with_keypair(hw_type, &signing_key)
    }

    /// Number of punctured tags.
    pub fn puncture_count(&self) -> (r: usize)
        ensures
            r == self.punctured_tags@.len(),
    {
        self.punctured_tags.len()
    }

    /// The punctured tags.
    pub fn get_punctured_tags(&self) -> (r: &HashSet<u64>)
        ensures
            r@ == self.punctured_tags@,
    {
        &self.punctured_tags
    }

    /// Re-sign the payload with the held secret key (nothing happens without one).
    fn sign_state(&mut self)
        ensures
            final(self).punctured_tags == old(self).punctured_tags,
            final(self).version == old(self).version,
            final(self).hw_type == old(self).hw_type,
            final(self).hw_pubkey == old(self).hw_pubkey,
            final(self).hw_secret_key == old(self).hw_secret_key,
            holds_own_key(*old(self)) ==> integrity_holds(*final(self)),
    {
        let sig = self.state_signature();
        match sig {
            Some(sig) => {
                self.hw_signature = sig;
            },
            None => {},
        }
    }

    /// The signature of the current payload under the held secret key, if any.
    fn state_signature(&self) -> (r: Option<Vec<u8>>)
        ensures
            holds_own_key(*self) ==> (r matches Some(sig) && sig@.len() == 64 && ed25519_verify_spec(
                self.hw_pubkey@,
                state_payload(self.punctured_tags@, self.version),
                sig@,
            )),
    {
        match &self.hw_secret_key {
            Some(k) => if k.len() == 32 {
                let payload = payload_bytes(&self.punctured_tags, self.version);
                Some(ed25519_sign(k.as_slice(), payload.as_slice()))
            } else {
                None
            },
            None => None,
        }
    }

    /// Record `tag` and, when it is new, bump the version and sign the state
    /// with `signing_key`.
    pub fn puncture_with_keypair(&mut self, tag: u64, signing_key: &SigningKey)
        requires
            old(self).version < u64::MAX,
        ensures
            final(self).punctured_tags@ == old(self).punctured_tags@.insert(tag),
            final(self).version == old(self).version + if old(self).punctured_tags@.contains(tag) { 0int } else { 1int },
            final(self).hw_type == old(self).hw_type,
            final(self).hw_pubkey@ == old(self).hw_pubkey@,
            final(self).hw_secret_key == old(self).hw_secret_key,
            old(self).punctured_tags@.contains(tag) ==> final(self).hw_signature@ == old(self).hw_signature@,
            !old(self).punctured_tags@.contains(tag) ==> final(self).hw_signature@.len() == 64,
            holds_own_key(*old(self)) && integrity_holds(*old(self)) && old(self).punctured_tags@.contains(tag)
                ==> integrity_holds(*final(self)),
    {
        let ghost before = self.punctured_tags@;
        if self.punctured_tags.insert(tag) {
            self.version = self.version + 1;
            let secret = signing_key_secret(signing_key);
            let payload = payload_bytes(&self.punctured_tags, self.version);
            self.hw_signature = ed25519_sign(secret.as_slice(), payload.as_slice());
        } else {
            assert(self.punctured_tags@ =~= before);
        }
    }

    /// Whether the signature verifies over the current payload under the published key.
    pub fn verify(&self) -> (r: bool)
        ensures
            r == integrity_holds(*self),
    {
        if self.hw_signature.len() != 64 || self.hw_pubkey.len() != 32 {
            return false;
        }
        let payload = payload_bytes(&self.punctured_tags, self.version);
        ed25519_verify(self.hw_pubkey.as_slice(), payload.as_slice(), self.hw_signature.as_slice())
    }

    /// Same as [`HardwarePunctureState::verify`].
    pub fn verify_integrity(&self) -> (r: bool)
        ensures
            r == integrity_holds(*self),
    {
        self.verify()
    }

    /// The published public key, when it is 32 bytes that decode to a curve point.
    pub fn get_pubkey(&self) -> (r: Option<VerifyingKey>)
        ensures
            r is Some <==> (self.hw_pubkey@.len() == 32 && ed25519_point_decodes(self.hw_pubkey@)),
    {
        if self.hw_pubkey.len() != 32 {
            return None;
        }
        verifying_key_from_bytes(self.hw_pubkey.as_slice())
    }
}

/// Hardware-attested puncture proof.
#[derive(Debug)]
pub struct PunctureProof {
    /// The punctured tag
    pub tag: u64,
    /// Whether the tag is punctured
    pub punctured: bool,
    /// Version number of puncture state
    pub version: u64,
    /// ed25519 hardware signature (64 bytes)
    pub hw_signature: Vec<u8>,
    /// Hardware type
    pub hw_type: HardwareType,
    /// Timestamp of proof generation
    pub timestamp: u64,
}

impl Clone for PunctureProof {
    fn clone(&self) -> (r: Self)
        ensures
            r.tag == self.tag,
            r.punctured == self.punctured,
            r.version == self.version,
            r.hw_signature@ == self.hw_signature@,
            r.hw_type == self.hw_type,
            r.timestamp == self.timestamp,
    {
        PunctureProof {
            tag: self.tag,
            punctured: self.punctured,
            version: self.version,
            hw_signature: vstd::slice::slice_to_vec(self.hw_signature.as_slice()),
            hw_type: self.hw_type,
            timestamp: self.timestamp,
        }
    }
}

impl PunctureProof {
    /// Whether the proof's signature is a valid signature of its tag and
    /// version under the encoded public key `public`.
    pub fn verify_with_pubkey_bytes(&self, public: &[u8]) -> (r: bool)
        ensures
            r == (self.hw_signature@.len() == 64 && public@.len() == 32 && ed25519_verify_spec(
                public@,
                proof_payload(self.tag, self.version),
                self.hw_signature@,
            )),
    {
        if self.hw_signature.len() != 64 || public.len() != 32 {
            return false;
        }
        let payload = proof_payload_bytes(self.tag, self.version);
        ed25519_verify(public, payload.as_slice(), self.hw_signature.as_slice())
    }

    /// Whether the proof's signature verifies under `verifying_key`.
    pub fn verify_with_pubkey(&self, verifying_key: &VerifyingKey) -> (r: bool)
        ensures
            r ==> self.hw_signature@.len() == 64,
            r ==> exists|public: Seq<u8>| public.len() == 32 && #[trigger] ed25519_verify_spec(
                public,
                proof_payload(self.tag, self.version),
                self.hw_signature@,
            ),
    {
        let public = verifying_key_bytes(verifying_key);
        self.verify_with_pubkey_bytes(public.as_slice())
    }

    /// Without a public key nothing can be checked: always `false`; use
    /// [`PunctureProof::verify_with_pubkey`].
    pub fn verify(&self) -> (r: bool)
        ensures
            !r,
    {
        false
    }
}

/// Hardware-protected puncture state together with its signing key and the
/// count of firewall operations.
pub struct FullChainProtection {
    hw_state: HardwarePunctureState,
    hw_signing_key: SigningKey,
    crf_count: u64,
}

impl FullChainProtection {
    /// The protected puncture state.
    pub closed spec fn spec_state(&self) -> HardwarePunctureState {
        self.hw_state
    }

    /// The number of recorded firewall operations.
    pub closed spec fn spec_crf_count(&self) -> u64 {
        self.crf_count
    }

    /// A fresh protection chain with a newly generated key.
    pub fn new(hw_type: HardwareType, _attr_count: usize) -> (fc: Self)
        ensures
            fc.spec_state().hw_type == hw_type,
            fc.spec_state().punctured_tags@ == Set::<u64>::empty(),
            fc.spec_state().version == 0,
            integrity_holds(fc.spec_state()),
            fc.spec_crf_count() == 0,
    {
        let signing_key = generate_signing_key();
        let hw_state = HardwarePunctureState::new_with_keypair(hw_type, &signing_key);
        FullChainProtection { hw_state, hw_signing_key: signing_key, crf_count: 0 }
    }

    /// Puncture `tag` in the protected state, signing with the chain's key.
    pub fn puncture_with_protection(&mut self, tag: u64)
        requires
            old(self).spec_state().version < u64::MAX,
        ensures
            final(self).spec_state().punctured_tags@ == old(self).spec_state().punctured_tags@.insert(tag),
            final(self).spec_crf_count() == old(self).spec_crf_count(),
    {
        self.hw_state.puncture_with_keypair(tag, &self.hw_signing_key);
    }

    /// Whether `tag` is punctured in the protected state.
    pub fn verify_puncture(&self, tag: u64) -> (r: bool)
        ensures
            r == self.spec_state().punctured_tags@.contains(tag),
    {
        self.hw_state.is_punctured(tag)
    }

    /// Count one firewall operation.
    pub fn record_crf_operation(&mut self)
        requires
            old(self).spec_crf_count() < u64::MAX,
        ensures
            final(self).spec_crf_count() == old(self).spec_crf_count() + 1,
            final(self).spec_state() == old(self).spec_state(),
    {
        self.crf_count = self.crf_count + 1;
    }

    /// The number of recorded firewall operations.
    pub fn crf_count(&self) -> (r: u64)
        ensures
            r == self.spec_crf_count(),
    {
        self.crf_count
    }

    /// Whether the protected state's signature verifies.
    pub fn hw_integrity(&self) -> (r: bool)
        ensures
            r == integrity_holds(self.spec_state()),
    {
        self.hw_state.verify_integrity()
    }

    /// Number of punctured tags in the protected state.
    pub fn puncture_count(&self) -> (r: usize)
        ensures
            r == self.spec_state().punctured_tags@.len(),
    {
        self.hw_state.puncture_count()
    }

    /// The public key of the chain's signing key.
    pub fn get_hw_pubkey(&self) -> VerifyingKey {
        signing_key_public(&self.hw_signing_key)
    }

    /// A puncture proof for `tag` from the protected state.
    pub fn generate_puncture_proof(&self, tag: u64) -> (proof: PunctureProof)
        ensures
            proof.tag == tag,
            proof.punctured == self.spec_state().punctured_tags@.contains(tag),
            proof.version == self.spec_state().version,
    {
        self.hw_state.generate_puncture_proof(tag)
    }
}

} // verus!
