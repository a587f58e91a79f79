//! The predicate signature core: the Fiat-Shamir context, combining the
//! attribute preimages into the policy witness, and core signing.
use vstd::prelude::*;
use rand::rngs::ThreadRng;
use crate::codec::{le32, le64, push_u32_le, push_u64_le, extend_bytes};
use crate::errors::{PabsCrfError, PabsCrfResult};
use crate::hashing::{sha256, sha256_spec};
use crate::keygen::UserSecretKey;
use crate::lsss::{
    attr_names, derive_policy_target_cached, lsss_from_policy_cached, policy_lsss, prime, reconstruction_data_cached,
    reconstruction_ok, selected_attrs, selected_rows, str_seqs,
};
use crate::mlwe::{MLWEKeyPair, MLWEParameters, Polynomial, PolynomialVector};
use crate::modarith::center;
use crate::pabs::types::CorePredicateSignature;
use crate::parameter_sets::TopTierParameterModel;
use crate::policy::Policy;
use vstd::string::StringSliceAdditionalSpecFns;

pub mod types;

verus! {

/// `value` centered modulo `q` into `(-q/2, q/2]`.
fn center_mod_q(value: i32, q: u32) -> (r: i64)
    requires
        q >= 1,
    ensures
        r == center(value as int, q as int),
{
    let q_i64 = q as i64;
    proof {
        crate::modarith::lemma_trem(value as int, q as int);
    }
    let reduced = ((value as i64 % q_i64) + q_i64) % q_i64;
    if reduced > q_i64 / 2 {
        reduced - q_i64
    } else {
        reduced
    }
}

/// A reconstruction constant centered modulo `q` into `(-q/2, q/2]`.
fn center_reconstruction_coeff(coeff: i64, q: u32) -> (r: i64)
    requires
        q >= 1,
        coeff > i64::MIN + 0x1_0000_0000,
    ensures
        r == center(coeff as int, q as int),
{
    let q_i64 = q as i64;
    proof {
        crate::modarith::lemma_trem(coeff as int, q as int);
    }
    let reduced = ((coeff % q_i64) + q_i64) % q_i64;
    if reduced > q_i64 / 2 {
        reduced - q_i64
    } else {
        reduced
    }
}

/// The digest of a policy: SHA-256 of its canonical text.
pub open spec fn policy_digest_spec(p: Option<crate::policy::Rule>) -> Seq<u8> {
    sha256_spec(vstd::utf8::encode_utf8(crate::policy::policy_str(p)))
}

/// Build a stable policy digest used across signing, verification and compression.
pub fn policy_digest(policy: &Policy) -> (d: Vec<u8>)
    ensures
        d@ == policy_digest_spec(policy@),
        d@.len() == 32,
{
    let s = policy.to_string();
    sha256(s.as_str().as_bytes())
}

/// `len(label) || label || len(value) || value`, lengths as `u32` little-endian.
pub open spec fn len_prefixed(label: Seq<u8>, value: Seq<u8>) -> Seq<u8> {
    le32((label.len() as int) % 0x1_0000_0000) + label + le32((value.len() as int) % 0x1_0000_0000) + value
}

fn append_len_prefixed(context: &mut Vec<u8>, label: &[u8], value: &[u8])
    ensures
        final(context)@ == old(context)@ + len_prefixed(label@, value@),
{
    push_u32_le(context, (label.len() as u64 % 0x1_0000_0000u64) as u32);
    extend_bytes(context, label);
    push_u32_le(context, (value.len() as u64 % 0x1_0000_0000u64) as u32);
    extend_bytes(context, value);
    assert(final(context)@ =~= old(context)@ + len_prefixed(label@, value@));
}

/// The Fiat-Shamir context: `"PABS-CRF-v4-FS-context"` followed by the
/// length-prefixed policy digest, tag, GID and parameter-set identifier.
#[verifier::opaque]
pub open spec fn challenge_context_spec(policy_digest: Seq<u8>, tau: u64, gid: Seq<u8>, parameter_set_id: Seq<u8>) -> Seq<u8> {
    seq![
        0x50u8, 0x41, 0x42, 0x53, 0x2d, 0x43, 0x52, 0x46, 0x2d, 0x76, 0x34, 0x2d, 0x46, 0x53, 0x2d, 0x63, 0x6f, 0x6e, 0x74,
        0x65, 0x78, 0x74,
    ] + len_prefixed(seq![0x70u8, 0x6f, 0x6c, 0x69, 0x63, 0x79, 0x5f, 0x64, 0x69, 0x67, 0x65, 0x73, 0x74], policy_digest)
        + len_prefixed(seq![0x74u8, 0x61, 0x75], le64(tau as int)) + len_prefixed(seq![0x67u8, 0x69, 0x64], gid)
        + len_prefixed(
        seq![0x70u8, 0x61, 0x72, 0x61, 0x6d, 0x65, 0x74, 0x65, 0x72, 0x5f, 0x73, 0x65, 0x74, 0x5f, 0x69, 0x64],
        parameter_set_id,
    )
}

/// Build the Fiat-Shamir context shared by signing and verification.
pub fn challenge_context(policy_digest: &[u8], tau: u64, gid: &[u8; 32], parameter_set_id: &str) -> (c: Vec<u8>)
    ensures
        c@ == challenge_context_spec(policy_digest@, tau, gid@, parameter_set_id.spec_bytes()),
{
    let mut context: Vec<u8> = vec![
        0x50u8, 0x41, 0x42, 0x53, 0x2d, 0x43, 0x52, 0x46, 0x2d, 0x76, 0x34, 0x2d, 0x46, 0x53, 0x2d, 0x63, 0x6f, 0x6e, 0x74,
        0x65, 0x78, 0x74,
    ];
    let l1: Vec<u8> = vec![0x70u8, 0x6f, 0x6c, 0x69, 0x63, 0x79, 0x5f, 0x64, 0x69, 0x67, 0x65, 0x73, 0x74];
    let l2: Vec<u8> = vec![0x74u8, 0x61, 0x75];
    let l3: Vec<u8> = vec![0x67u8, 0x69, 0x64];
    let l4: Vec<u8> = vec![0x70u8, 0x61, 0x72, 0x61, 0x6d, 0x65, 0x74, 0x65, 0x72, 0x5f, 0x73, 0x65, 0x74, 0x5f, 0x69, 0x64];
    let mut tau_bytes: Vec<u8> = Vec::new();
    push_u64_le(&mut tau_bytes, tau);
    assert(tau_bytes@ =~= le64(tau as int));
    append_len_prefixed(&mut context, l1.as_slice(), policy_digest);
    append_len_prefixed(&mut context, l2.as_slice(), tau_bytes.as_slice());
    append_len_prefixed(&mut context, l3.as_slice(), gid.as_slice());
    append_len_prefixed(&mut context, l4.as_slice(), parameter_set_id.as_bytes());
    reveal(challenge_context_spec);
    assert(context@ =~= challenge_context_spec(policy_digest@, tau, gid@, parameter_set_id.spec_bytes()));
    context
}

// ---------------------------------------------------------------------------
// The policy witness
// ---------------------------------------------------------------------------

/// Whether two strings hold the same characters.
pub fn same_string(a: &String, b: &String) -> (r: bool)
    ensures
        r == (a@ == b@),
{
    let ca = crate::text::chars_of(a.as_str());
    let cb = crate::text::chars_of(b.as_str());
    if ca.len() != cb.len() {
        return false;
    }
    let mut i: usize = 0;
    while i < ca.len()
        invariant
            ca@.len() == cb@.len(),
            ca@ == a@,
            cb@ == b@,
            i <= ca@.len(),
            forall|t: int| 0 <= t < i ==> ca@[t] == cb@[t],
        decreases ca@.len() - i,
    {
        if ca[i] != cb[i] {
            return false;
        }
        i += 1;
    }
    assert(ca@ =~= cb@);
    true
}

/// The first position of `a` in `attrs`, or `-1` when it is absent.
pub open spec fn first_pos(attrs: Seq<Seq<char>>, a: Seq<char>) -> int
    decreases attrs.len(),
{
    if attrs.len() == 0 {
        -1
    } else {
        let p = first_pos(attrs.drop_last(), a);
        if p >= 0 { p } else if attrs.last() == a { attrs.len() - 1 } else { -1 }
    }
}

proof fn lemma_first_pos(attrs: Seq<Seq<char>>, a: Seq<char>)
    ensures
        -1 <= first_pos(attrs, a) < attrs.len(),
        first_pos(attrs, a) >= 0 ==> attrs[first_pos(attrs, a)] == a,
        first_pos(attrs, a) >= 0 ==> forall|i: int| 0 <= i < first_pos(attrs, a) ==> attrs[i] != a,
        first_pos(attrs, a) == -1 ==> forall|i: int| 0 <= i < attrs.len() ==> attrs[i] != a,
    decreases attrs.len(),
{
    if attrs.len() > 0 {
        lemma_first_pos(attrs.drop_last(), a);
        assert forall|i: int| 0 <= i < attrs.len() - 1 implies attrs.drop_last()[i] == attrs[i] by {}
    }
}

/// `sum_{i < upto} center(omega_i) * center(s_{pos(attr_i)}[j][l])`.
pub open spec fn witness_sum(
    preimages: Seq<Seq<Seq<i32>>>,
    key_attrs: Seq<Seq<char>>,
    omega: Seq<i64>,
    sattrs: Seq<Seq<char>>,
    q: int,
    j: int,
    l: int,
    upto: int,
) -> int
    decreases upto,
{
    if upto <= 0 {
        0
    } else {
        witness_sum(preimages, key_attrs, omega, sattrs, q, j, l, upto - 1) + center(omega[upto - 1] as int, q) * center(
            preimages[first_pos(key_attrs, sattrs[upto - 1])][j][l] as int,
            q,
        )
    }
}

/// The combined witness `s = center(sum_i center(omega_i) * center(s_i))`.
pub open spec fn combine_spec(
    preimages: Seq<Seq<Seq<i32>>>,
    key_attrs: Seq<Seq<char>>,
    omega: Seq<i64>,
    sattrs: Seq<Seq<char>>,
    m: int,
    n: int,
    q: int,
) -> Seq<Seq<i32>> {
    Seq::new(
        m as nat,
        |j: int| Seq::new(n as nat, |l: int| center(witness_sum(preimages, key_attrs, omega, sattrs, q, j, l, omega.len() as int), q) as i32),
    )
}

/// The preimages of a key as coefficient sequences.
pub open spec fn preimages_view(p: Seq<PolynomialVector>) -> Seq<Seq<Seq<i32>>> {
    p.map_values(|v: PolynomialVector| v@)
}

/// A key whose parts line up: one preimage per attribute, each covering `m x n` coefficients.
pub open spec fn key_shapes_ok(sk: UserSecretKey) -> bool {
    &&& sk.preimages@.len() == sk.attributes@.len()
    &&& forall|i: int| 0 <= i < sk.preimages@.len() ==> (#[trigger] sk.preimages@[i])@.len() >= sk.params.m
    &&& forall|i: int, j: int| 0 <= i < sk.preimages@.len() && 0 <= j < sk.params.m ==> (#[trigger] sk.preimages@[i]@[j]).len()
        >= sk.params.n
    &&& crate::lsss::target_params_ok(sk.params)
    &&& sk.params.m * sk.params.n <= usize::MAX
}

/// Combine the attribute-bound preimages into the signing witness with the
/// LSSS reconstruction constants of the rows the key's attributes select.
/// Returns the witness, the attributes of those rows and their indices.
pub fn combine_policy_witness(sk: &UserSecretKey, policy: &Policy) -> (r: PabsCrfResult<
    (PolynomialVector, Vec<String>, Vec<u16>),
>)
    requires
        key_shapes_ok(*sk),
    ensures
        r is Ok <==> crate::lsss::policy_constants(policy@, sk.attributes@, sk.params.q as int) is Some,
        r matches Err(e) ==> e is PolicyError,
        r matches Ok(res) ==> ({
            let (s, used, rows) = res;
            let (mat, attrs, _) = policy_lsss(policy@)->Some_0;
            let sel = selected_rows(attrs, attr_names(sk.attributes@), attrs.len() as int);
            let sattrs = selected_attrs(attrs, sel);
            &&& policy_lsss(policy@) is Some
            &&& str_seqs(used@) == sattrs
            &&& rows@.len() == sel.len()
            &&& forall|i: int| 0 <= i < sel.len() ==> #[trigger] rows@[i] == (sel[i] % 0x10000) as u16
            &&& exists|omega: Seq<i64>| #[trigger] reconstruction_ok(omega, mat, sel, sk.params.q as int) && s@ == combine_spec(
                preimages_view(sk.preimages@),
                attr_names(sk.attributes@),
                omega,
                sattrs,
                sk.params.m as int,
                sk.params.n as int,
                sk.params.q as int,
            )
        }),
{
    let q = sk.params.q;
    let m = sk.params.m;
    let n = sk.params.n;
    let (lsss, constants, rows_to_use) = match reconstruction_data_cached(policy, sk.attributes.as_slice(), q) {
        Ok(d) => d,
        Err(e) => {
            return Err(e);
        },
    };
    let ghost attrs = lsss.spec_attrs();
    let ghost sel = selected_rows(attrs, attr_names(sk.attributes@), lsss.spec_rows() as int);
    let ghost sattrs = selected_attrs(attrs, sel);
    let ghost omega = constants@;
    let ghost pv = preimages_view(sk.preimages@);
    let ghost kattrs = attr_names(sk.attributes@);
    proof {
        crate::lsss::lemma_selected_rows(attrs, attr_names(sk.attributes@), lsss.spec_rows() as int);
        crate::lsss::lemma_selected_rows_held(attrs, attr_names(sk.attributes@), lsss.spec_rows() as int);
    }
    let names = lsss.row_to_attr();
    // Accumulators, reduced into [0, q) as they go.
    let mut acc: Vec<Vec<i64>> = Vec::with_capacity(m);
    let mut j: usize = 0;
    while j < m
        invariant
            j <= m,
            acc@.len() == j,
            forall|a: int| 0 <= a < j ==> (#[trigger] acc@[a])@ == Seq::new(n as nat, |l: int| 0i64),
        decreases m - j,
    {
        let mut row: Vec<i64> = Vec::with_capacity(n);
        let mut l: usize = 0;
        while l < n
            invariant
                l <= n,
                row@ == Seq::new(l as nat, |t: int| 0i64),
            decreases n - l,
        {
            row.push(0);
            l += 1;
            assert(row@ =~= Seq::new(l as nat, |t: int| 0i64));
        }
        acc.push(row);
        j += 1;
    }
    proof {
        assert forall|a: int, l: int| 0 <= a < m && 0 <= l < n implies #[trigger] acc@[a]@[l]
            == witness_sum(pv, kattrs, omega, sattrs, q as int, a, l, 0) % (q as int) by {
            vstd::arithmetic::div_mod::lemma_small_mod(0, q as nat);
        }
    }
    let mut used_attributes: Vec<String> = Vec::new();
    let mut i: usize = 0;
    while i < rows_to_use.len()
        invariant
            key_shapes_ok(*sk),
            q == sk.params.q,
            m == sk.params.m,
            n == sk.params.n,
            lsss.wf(),
            str_seqs(names@) == attrs,
            attrs == lsss.spec_attrs(),
            omega == constants@,
            pv == preimages_view(sk.preimages@),
            kattrs == attr_names(sk.attributes@),
            reconstruction_ok(omega, lsss.spec_matrix(), sel, q as int),
            forall|t: int| 0 <= t < sel.len() ==> kattrs.contains(attrs[#[trigger] sel[t]]),
            rows_to_use@.len() == sel.len(),
            forall|t: int| 0 <= t < rows_to_use@.len() ==> #[trigger] rows_to_use@[t] as int == sel[t],
            forall|t: int| 0 <= t < sel.len() ==> 0 <= #[trigger] sel[t] < lsss.spec_rows(),
            sattrs == selected_attrs(attrs, sel),
            i <= rows_to_use@.len(),
            str_seqs(used_attributes@) == sattrs.take(i as int),
            forall|t: int| 0 <= t < i ==> first_pos(kattrs, #[trigger] sattrs[t]) >= 0,
            acc@.len() == m,
            forall|a: int| 0 <= a < m ==> (#[trigger] acc@[a])@.len() == n,
            forall|a: int, l: int| 0 <= a < m && 0 <= l < n ==> #[trigger] acc@[a]@[l]
                == witness_sum(pv, kattrs, omega, sattrs, q as int, a, l, i as int) % (q as int),
        decreases rows_to_use@.len() - i,
    {
        let row_idx = rows_to_use[i];
        let attr_name = &names[row_idx];
        assert(attr_name@ == sattrs[i as int]);
        // Position of the attribute in the user key.
        let mut pos: usize = 0;
        let mut found = false;
        while pos < sk.attributes.len() && !found
            invariant
                pos <= sk.attributes@.len(),
                kattrs == attr_names(sk.attributes@),
                found ==> pos < sk.attributes@.len() && kattrs[pos as int] == attr_name@,
                forall|t: int| 0 <= t < pos ==> kattrs[t] != attr_name@,
            decreases sk.attributes@.len() - pos, if found { 0int } else { 1int },
        {
            if same_string(&sk.attributes[pos], attr_name) {
                found = true;
            } else {
                pos += 1;
            }
        }
        proof {
            lemma_first_pos(kattrs, attr_name@);
        }
        if !found {
            proof {
                assert(kattrs.contains(attrs[sel[i as int]]));
                let t = choose|t: int| 0 <= t < kattrs.len() && kattrs[t] == attrs[sel[i as int]];
                assert(kattrs[t] != attr_name@);
            }
            return Err(PabsCrfError::PolicyError("Policy witness attribute is missing from the user key".to_string()));
        }
        assert(first_pos(kattrs, attr_name@) == pos);
        let ghost before = used_attributes@;
        assert(sattrs.len() == sel.len());
        assert(sattrs.take(i as int).len() == i);
        assert(str_seqs(before).len() == before.len());
        assert(before.len() == i);
        let name_copy = attr_name.clone();
        assert(name_copy@ == attr_name@);
        used_attributes.push(name_copy);
        assert(used_attributes@ == before.push(name_copy));
        assert(str_seqs(used_attributes@) =~= sattrs.take(i + 1)) by {
            assert forall|t: int| 0 <= t < i + 1 implies #[trigger] str_seqs(used_attributes@)[t] == sattrs.take(i + 1)[t] by {
                assert(str_seqs(used_attributes@)[t] == used_attributes@[t]@);
                if t < i {
                    assert(used_attributes@[t] == before[t]);
                    assert(str_seqs(before)[t] == before[t]@);
                    assert(str_seqs(before)[t] == sattrs.take(i as int)[t]);
                } else {
                    assert(used_attributes@[t] == name_copy);
                }
            }
        }
        assert(-0x1_0000 <= omega[i as int] <= 0x1_0000);
        let coeff = center_reconstruction_coeff(constants[i], q);
        let s_i = &sk.preimages[pos];
        assert(s_i@ == pv[pos as int]);
        let mut a: usize = 0;
        while a < m
            invariant
                key_shapes_ok(*sk),
                q == sk.params.q,
                m == sk.params.m,
                n == sk.params.n,
                omega == constants@,
                pv == preimages_view(sk.preimages@),
                i < rows_to_use@.len(),
                i < omega.len(),
                pos < sk.preimages@.len(),
                first_pos(kattrs, sattrs[i as int]) == pos,
                s_i@ == pv[pos as int],
                coeff == center(omega[i as int] as int, q as int),
                a <= m,
                acc@.len() == m,
                forall|b: int| 0 <= b < m ==> (#[trigger] acc@[b])@.len() == n,
                forall|b: int, l: int| 0 <= b < a && 0 <= l < n ==> #[trigger] acc@[b]@[l]
                    == witness_sum(pv, kattrs, omega, sattrs, q as int, b, l, i + 1) % (q as int),
                forall|b: int, l: int| a <= b < m && 0 <= l < n ==> #[trigger] acc@[b]@[l]
                    == witness_sum(pv, kattrs, omega, sattrs, q as int, b, l, i as int) % (q as int),
            decreases m - a,
        {
            let poly = &s_i.elements[a];
            assert(poly@ == pv[pos as int][a as int]);
            let mut row: Vec<i64> = Vec::with_capacity(n);
            let mut l: usize = 0;
            while l < n
                invariant
                    key_shapes_ok(*sk),
                    q == sk.params.q,
                    n == sk.params.n,
                    a < m,
                    i < omega.len(),
                    pos < sk.preimages@.len(),
                    first_pos(kattrs, sattrs[i as int]) == pos,
                    poly@ == pv[pos as int][a as int],
                    poly@.len() >= n,
                    coeff == center(omega[i as int] as int, q as int),
                    acc@.len() == m,
                    (acc@[a as int])@.len() == n,
                    forall|l: int| 0 <= l < n ==> #[trigger] acc@[a as int]@[l]
                        == witness_sum(pv, kattrs, omega, sattrs, q as int, a as int, l, i as int) % (q as int),
                    l <= n,
                    row@.len() == l,
                    forall|t: int| 0 <= t < l ==> #[trigger] row@[t]
                        == witness_sum(pv, kattrs, omega, sattrs, q as int, a as int, t, i + 1) % (q as int),
                decreases n - l,
            {
                let lifted = center_mod_q(poly.coeffs[l], q);
                let q64 = q as i64;
                let prev = acc[a][l];
                proof {
                    crate::modarith::lemma_center(omega[i as int] as int, q as int);
                    crate::modarith::lemma_center(poly@[l as int] as int, q as int);
                    let w = witness_sum(pv, kattrs, omega, sattrs, q as int, a as int, l as int, i as int);
                    vstd::arithmetic::div_mod::lemma_mod_bound(w, q as int);
                    assert(-0x1000_0000_0000_0000 <= coeff * lifted <= 0x1000_0000_0000_0000) by (nonlinear_arith)
                        requires -0x4000_0000 <= coeff <= 0x4000_0000, -0x4000_0000 <= lifted <= 0x4000_0000;
                    crate::modarith::lemma_trem((coeff * lifted) as int, q as int);
                }
                let prod = coeff * lifted;
                let t = ((prod % q64) + q64) % q64;
                let v = (prev + t) % q64;
                proof {
                    let w = witness_sum(pv, kattrs, omega, sattrs, q as int, a as int, l as int, i as int);
                    vstd::arithmetic::div_mod::lemma_add_mod_noop(w, coeff * lifted, q as int);
                    vstd::arithmetic::div_mod::lemma_mod_twice(w, q as int);
                    vstd::arithmetic::div_mod::lemma_mod_twice(coeff * lifted, q as int);
                    assert(witness_sum(pv, kattrs, omega, sattrs, q as int, a as int, l as int, i + 1) == w + coeff * lifted);
                }
                row.push(v);
                l += 1;
            }
            acc.set(a, row);
            a += 1;
        }
        i += 1;
    }
    // Center the accumulated values.
    let mut elements: Vec<Polynomial> = Vec::with_capacity(m);
    let mut a: usize = 0;
    let ghost spec = combine_spec(pv, kattrs, omega, sattrs, m as int, n as int, q as int);
    while a < m
        invariant
            q == sk.params.q,
            m == sk.params.m,
            n == sk.params.n,
            crate::lsss::target_params_ok(sk.params),
            omega == constants@,
            rows_to_use@.len() == omega.len(),
            spec == combine_spec(pv, kattrs, omega, sattrs, m as int, n as int, q as int),
            acc@.len() == m,
            forall|b: int| 0 <= b < m ==> (#[trigger] acc@[b])@.len() == n,
            forall|b: int, l: int| 0 <= b < m && 0 <= l < n ==> #[trigger] acc@[b]@[l]
                == witness_sum(pv, kattrs, omega, sattrs, q as int, b, l, omega.len() as int) % (q as int),
            a <= m,
            elements@.len() == a,
            forall|b: int| 0 <= b < a ==> (#[trigger] elements@[b])@ == spec[b],
        decreases m - a,
    {
        let mut coeffs: Vec<i32> = Vec::with_capacity(n);
        let mut l: usize = 0;
        while l < n
            invariant
                q == sk.params.q,
                n == sk.params.n,
                crate::lsss::target_params_ok(sk.params),
                a < m,
                acc@.len() == m,
                (acc@[a as int])@.len() == n,
                forall|l: int| 0 <= l < n ==> #[trigger] acc@[a as int]@[l]
                    == witness_sum(pv, kattrs, omega, sattrs, q as int, a as int, l, omega.len() as int) % (q as int),
                spec == combine_spec(pv, kattrs, omega, sattrs, m as int, n as int, q as int),
                l <= n,
                coeffs@.len() == l,
                forall|t: int| 0 <= t < l ==> #[trigger] coeffs@[t] == spec[a as int][t],
            decreases n - l,
        {
            let v = acc[a][l];
            let q64 = q as i64;
            proof {
                let w = witness_sum(pv, kattrs, omega, sattrs, q as int, a as int, l as int, omega.len() as int);
                vstd::arithmetic::div_mod::lemma_mod_bound(w, q as int);
                vstd::arithmetic::div_mod::lemma_mod_twice(w, q as int);
                crate::modarith::lemma_center(w, q as int);
            }
            let centered = if v > q64 / 2 { v - q64 } else { v };
            coeffs.push(centered as i32);
            l += 1;
        }
        let p = Polynomial { coeffs };
        assert(p@ =~= spec[a as int]);
        elements.push(p);
        a += 1;
    }
    let combined = PolynomialVector { elements };
    assert(combined@ =~= spec) by {
        assert forall|b: int| 0 <= b < m implies #[trigger] combined@[b] == spec[b] by {
            assert(combined@[b] == combined.elements@[b]@);
        }
    }
    let mut witness_rows: Vec<u16> = Vec::with_capacity(rows_to_use.len());
    let mut t: usize = 0;
    while t < rows_to_use.len()
        invariant
            t <= rows_to_use@.len(),
            rows_to_use@.len() == sel.len(),
            forall|u: int| 0 <= u < rows_to_use@.len() ==> #[trigger] rows_to_use@[u] as int == sel[u],
            witness_rows@.len() == t,
            forall|u: int| 0 <= u < t ==> #[trigger] witness_rows@[u] == (sel[u] % 0x10000) as u16,
        decreases rows_to_use@.len() - t,
    {
        witness_rows.push((rows_to_use[t] % 0x10000) as u16);
        t += 1;
    }
    assert(sattrs.take(omega.len() as int) =~= sattrs);
    assert(reconstruction_ok(omega, lsss.spec_matrix(), sel, q as int));
    Ok((combined, used_attributes, witness_rows))
}

/// Row indices (as `u16`) of the sharing-matrix rows whose attribute is in `attributes_used`.
pub fn witness_rows_from_attributes(policy: &Policy, attributes_used: &[String]) -> (r: PabsCrfResult<Vec<u16>>)
    ensures
        r is Ok <==> policy_lsss(policy@) is Some,
        r matches Err(e) ==> e is PolicyError,
        r matches Ok(rows) ==> ({
            let attrs = policy_lsss(policy@)->Some_0.1;
            let sel = selected_rows(attrs, attr_names(attributes_used@), attrs.len() as int);
            &&& rows@.len() == sel.len()
            &&& forall|i: int| 0 <= i < sel.len() ==> #[trigger] rows@[i] == (sel[i] % 0x10000) as u16
        }),
{
    let lsss = match lsss_from_policy_cached(policy) {
        Ok(m) => m,
        Err(e) => {
            return Err(e);
        },
    };
    let names = lsss.row_to_attr();
    let ghost attrs = lsss.spec_attrs();
    let ghost wanted = attr_names(attributes_used@);
    let mut rows: Vec<u16> = Vec::new();
    let mut i: usize = 0;
    while i < lsss.rows()
        invariant
            lsss.wf(),
            str_seqs(names@) == attrs,
            attrs == lsss.spec_attrs(),
            wanted == attr_names(attributes_used@),
            i <= lsss.spec_rows(),
            rows@.len() == selected_rows(attrs, wanted, i as int).len(),
            forall|t: int| 0 <= t < rows@.len() ==> #[trigger] rows@[t] == (selected_rows(attrs, wanted, i as int)[t] % 0x10000) as u16,
        decreases lsss.spec_rows() - i,
    {
        let name = &names[i];
        assert(name@ == attrs[i as int]);
        let mut found = false;
        let mut t: usize = 0;
        while t < attributes_used.len() && !found
            invariant
                t <= attributes_used@.len(),
                wanted == attr_names(attributes_used@),
                found ==> wanted.contains(name@),
                !found ==> forall|u: int| 0 <= u < t ==> wanted[u] != name@,
            decreases attributes_used@.len() - t, if found { 0int } else { 1int },
        {
            if same_string(&attributes_used[t], name) {
                found = true;
                assert(wanted[t as int] == name@);
            } else {
                t += 1;
            }
        }
        let ghost before = rows@;
        if found {
            rows.push((i % 0x10000) as u16);
        }
        proof {
            assert(found == wanted.contains(attrs[i as int]));
            let prev = selected_rows(attrs, wanted, i as int);
            let next = selected_rows(attrs, wanted, i + 1);
            if found {
                assert(next == prev.push(i as int));
                assert forall|u: int| 0 <= u < rows@.len() implies #[trigger] rows@[u] == (next[u] % 0x10000) as u16 by {
                    if u < before.len() {
                        assert(rows@[u] == before[u]);
                    }
                }
            } else {
                assert(next == prev);
            }
        }
        i += 1;
    }
    Ok(rows)
}

/// The key pair used by core signing: public key `u_policy`, secret key the
/// combined witness, a zero error vector and the user's copy of `A`.
#[verifier::opaque]
pub open spec fn core_key_ok(kp: MLWEKeyPair, sk: UserSecretKey, policy: Policy, used: Seq<Seq<char>>) -> bool {
    let p = sk.params;
    let (mat, attrs, _) = policy_lsss(policy@)->Some_0;
    let sel = selected_rows(attrs, attr_names(sk.attributes@), attrs.len() as int);
    let sattrs = selected_attrs(attrs, sel);
    let usel = selected_rows(attrs, used, attrs.len() as int);
    &&& kp.matrix_a@ == sk.matrix_a@
    &&& kp.matrix_a.rows == sk.matrix_a.rows
    &&& kp.matrix_a.cols == sk.matrix_a.cols
    &&& kp.error_vector@ == Seq::new(p.k as nat, |j: int| Seq::new(p.n as nat, |l: int| 0i32))
    &&& exists|omega: Seq<i64>| #[trigger] reconstruction_ok(omega, mat, sel, p.q as int) && kp.secret_key@ == combine_spec(
        preimages_view(sk.preimages@),
        attr_names(sk.attributes@),
        omega,
        sattrs,
        p.m as int,
        p.n as int,
        p.q as int,
    )
    &&& exists|omega: Seq<i64>| #[trigger] reconstruction_ok(omega, mat, usel, p.q as int) && kp.public_key@
        == crate::lsss::policy_target_spec(omega, selected_attrs(attrs, usel), sk.gid@, p)
    &&& crate::lsss::target_for_names(policy@, used, sk.gid@, p) == Some(kp.public_key@)
}

/// What core signing needs of the key and parameters.
pub open spec fn core_sign_ok(sk: UserSecretKey, params: TopTierParameterModel) -> bool {
    let p = sk.params;
    &&& key_shapes_ok(sk)
    &&& params.protocol.mlwe == p
    &&& crate::mlwe_sig::challenge_params_ok(p)
    &&& crate::mlwe::mat_shape(sk.matrix_a@, sk.matrix_a.rows as int, sk.matrix_a.cols as int, p.n as int)
    &&& sk.matrix_a.rows == p.k
    &&& sk.matrix_a.cols == p.m
    &&& p.k >= 1
    &&& p.m >= 1
    &&& p.n * p.n <= 0x8000_0000
    &&& p.gamma1 < 0x8000_0000
    &&& p.n * (p.q / 2) + crate::mlwe_sig::mask_bound(p) <= i32::MAX
}

/// Produce the core signature object before firewall transformation: the
/// key's attributes must satisfy the policy; the witness and the policy target
/// come from the LSSS reconstruction, and the MLWE signature binds the
/// Fiat-Shamir context and the firewall's `delta` bytes.
/// Whether the key's attributes satisfy the policy.
fn key_satisfies(sk: &UserSecretKey, policy: &Policy) -> (b: bool)
    ensures
        b == (match policy@ {
            Some(rule) => crate::policy::eval_rule(rule, crate::policy::attr_set_of(str_seqs(sk.attributes@))),
            None => true,
        }),
{
    attributes_satisfy(policy, &sk.attributes)
}

/// Whether the attributes satisfy the policy (an empty policy is satisfied by anything).
pub fn attributes_satisfy(policy: &Policy, attributes: &Vec<String>) -> (b: bool)
    ensures
        b == (match policy@ {
            Some(rule) => crate::policy::eval_rule(rule, crate::policy::attr_set_of(str_seqs(attributes@))),
            None => true,
        }),
{
    let mut attr_refs: Vec<&str> = Vec::with_capacity(attributes.len());
    let mut i: usize = 0;
    while i < attributes.len()
        invariant
            i <= attributes@.len(),
            attr_refs@.len() == i,
            forall|t: int| 0 <= t < i ==> (#[trigger] attr_refs@[t])@ == attributes@[t]@,
        decreases attributes@.len() - i,
    {
        attr_refs.push(attributes[i].as_str());
        i += 1;
    }
    assert(crate::policy::attr_set(attr_refs@) =~= crate::policy::attr_set_of(str_seqs(attributes@))) by {
        assert forall|a: Seq<char>| crate::policy::attr_set(attr_refs@).contains(a) implies crate::policy::attr_set_of(
            str_seqs(attributes@),
        ).contains(a) by {
            let t = choose|t: int| 0 <= t < attr_refs@.len() && (#[trigger] attr_refs@[t])@ == a;
            assert(str_seqs(attributes@)[t] == a);
        }
        assert forall|a: Seq<char>| crate::policy::attr_set_of(str_seqs(attributes@)).contains(a) implies crate::policy::attr_set(
            attr_refs@,
        ).contains(a) by {
            let t = choose|t: int| 0 <= t < str_seqs(attributes@).len() && #[trigger] str_seqs(attributes@)[t] == a;
            assert(attr_refs@[t]@ == a);
        }
    }
    policy.satisfies(attr_refs.as_slice())
}

/// The signing key pair of a policy, with the attributes and rows it used
/// and the hash of its public key.
fn core_key(sk: &UserSecretKey, policy: &Policy, params: &TopTierParameterModel) -> (r: PabsCrfResult<
    (MLWEKeyPair, Vec<String>, Vec<u16>, Vec<u8>),
>)
    requires
        core_sign_ok(*sk, *params),
    ensures
        r is Ok <==> crate::lsss::policy_constants(policy@, sk.attributes@, sk.params.q as int) is Some,
        r matches Err(e) ==> e is PolicyError,
        r matches Ok(res) ==> ({
            let (kp, used, rows, pk_hash) = res;
            &&& core_key_ok(kp, *sk, *policy, str_seqs(used@))
            &&& pk_hash@ == crate::mlwe_sig::pk_hash_spec(kp.public_key@, sk.params.q as int)
            &&& crate::mlwe_sig::sign_shapes_ok(sk.params, kp)
            &&& crate::mlwe_sig::sign_bounds_ok(sk.params, kp)
        }),
{
    let (combined_s, used_attributes, witness_rows) = match combine_policy_witness(sk, policy) {
        Ok(res) => res,
        Err(e) => {
            return Err(e);
        },
    };
    proof {
        let (mat, attrs, _) = policy_lsss(policy@)->Some_0;
        let kn = attr_names(sk.attributes@);
        let un = attr_names(used_attributes@);
        let sel = selected_rows(attrs, kn, attrs.len() as int);
        assert(un == str_seqs(used_attributes@));
        crate::lsss::lemma_selected_rows_held(attrs, kn, attrs.len() as int);
        assert forall|r: int| 0 <= r < attrs.len() implies (un.contains(#[trigger] attrs[r]) <==> kn.contains(attrs[r])) by {
            if kn.contains(attrs[r]) {
                crate::lsss::lemma_selected_rows_complete(attrs, kn, attrs.len() as int, r);
                let t = choose|t: int| 0 <= t < sel.len() && #[trigger] sel[t] == r;
                assert(un[t] == attrs[r]);
            }
            if un.contains(attrs[r]) {
                let t = choose|t: int| 0 <= t < un.len() && un[t] == attrs[r];
                assert(un[t] == attrs[sel[t]]);
                assert(kn.contains(attrs[sel[t]]));
            }
        }
        crate::lsss::lemma_selected_rows_same(attrs, un, kn, attrs.len() as int);
    }
    let u_policy = match derive_policy_target_cached(policy, used_attributes.as_slice(), &sk.gid, &sk.params) {
        Ok(t) => t,
        Err(e) => {
            return Err(e);
        },
    };
    let q = sk.params.q;
    let pk_hash = crate::mlwe_sig::MLWESignature::compute_pk_hash(&u_policy, q);
    let kp = MLWEKeyPair {
        public_key: u_policy,
        secret_key: combined_s,
        error_vector: PolynomialVector::new(sk.params.k, sk.params.n),
        matrix_a: sk.matrix_a.clone(),
    };
    assert(kp.error_vector@ =~= Seq::new(sk.params.k as nat, |j: int| Seq::new(sk.params.n as nat, |l: int| 0i32)));
    assert(attr_names(used_attributes@) == str_seqs(used_attributes@));
    assert(core_key_ok(kp, *sk, *policy, str_seqs(used_attributes@))) by {
        reveal(core_key_ok);
    }
    proof {
        lemma_core_key_signable(kp, *sk, *policy, *params, str_seqs(used_attributes@));
    }
    Ok((kp, used_attributes, witness_rows, pk_hash))
}

/// The core signature carries an MLWE signature made with a core key pair of
/// the policy, over `message`, the context `ctx`, the public-key hash and `delta`.
pub open spec fn core_signed_by(
    sk: UserSecretKey,
    policy: Policy,
    message: Seq<u8>,
    ctx: Seq<u8>,
    delta: Seq<u8>,
    core: CorePredicateSignature,
    pk_hash: Seq<u8>,
) -> bool {
    exists|kp: MLWEKeyPair, sig: crate::mlwe_sig::MLWESignature|
        {
            &&& core_key_ok(kp, sk, policy, str_seqs(core.attributes_used@))
            &&& pk_hash == crate::mlwe_sig::pk_hash_spec(kp.public_key@, sk.params.q as int)
            &&& #[trigger] crate::mlwe_sig::signed_by(sk.params, kp, message, ctx, pk_hash, delta, sig)
            &&& core.z == sig.z && core.challenge == sig.challenge && core.hints == sig.hints
        }
}

/// Produce the core signature object before firewall transformation: the
/// key's attributes must satisfy the policy; the witness and the policy target
/// come from the LSSS reconstruction, and the MLWE signature binds the
/// Fiat-Shamir context and the firewall's `delta` bytes.
#[verifier::spinoff_prover]
#[verifier::rlimit(60)]
pub fn core_sign(
    sk: &UserSecretKey,
    message: &[u8],
    policy: &Policy,
    params: &TopTierParameterModel,
    delta_bytes: &[u8],
    tau: u64,
    rng: &mut ThreadRng,
) -> (r: PabsCrfResult<(CorePredicateSignature, Vec<u16>, Vec<u8>)>)
    requires
        core_sign_ok(*sk, *params),
    ensures
        r matches Err(e) ==> e is PolicyError || e is SignFailed,
        !(match policy@ {
            Some(rule) => crate::policy::eval_rule(rule, crate::policy::attr_set_of(str_seqs(sk.attributes@))),
            None => true,
        }) ==> (r matches Err(e) && e is PolicyError),
        r matches Err(e) && e is PolicyError ==> !(match policy@ {
            Some(rule) => crate::policy::eval_rule(rule, crate::policy::attr_set_of(str_seqs(sk.attributes@))),
            None => true,
        }) || crate::lsss::policy_constants(policy@, sk.attributes@, sk.params.q as int) is None,
        (r is Ok || (r matches Err(e) && e is SignFailed)) ==> (match policy@ {
            Some(rule) => crate::policy::eval_rule(rule, crate::policy::attr_set_of(str_seqs(sk.attributes@))),
            None => true,
        }) && crate::lsss::policy_constants(policy@, sk.attributes@, sk.params.q as int) is Some,
        r matches Ok(res) ==> ({
            let (core, rows, pk_hash) = res;
            let p = sk.params;
            let ctx = challenge_context_spec(
                policy_digest_spec(policy@),
                tau,
                sk.gid@,
                vstd::utf8::encode_utf8(crate::parameter_sets::target_label(params.protocol.security_target)),
            );
            &&& core.policy@ == policy@
            &&& core.message_hash@ == sha256_spec(message@)
            &&& core.policy_digest@ == policy_digest_spec(policy@)
            &&& core.parameter_set_id@ == crate::parameter_sets::target_label(params.protocol.security_target)
            &&& core.gid == sk.gid
            &&& core.hints is Some
            &&& core_signed_by(*sk, *policy, message@, ctx, delta_bytes@, core, pk_hash@)
        }),
{
    if !key_satisfies(sk, policy) {
        return Err(PabsCrfError::PolicyError("User attributes do not satisfy the policy".to_string()));
    }
    let (kp, used_attributes, witness_rows, pk_hash) = match core_key(sk, policy, params) {
        Ok(res) => res,
        Err(e) => {
            return Err(e);
        },
    };
    let policy_digest = policy_digest(policy);
    let parameter_set_id = params.protocol.security_target.as_str();
    let context = challenge_context(policy_digest.as_slice(), tau, &sk.gid, parameter_set_id);
    let mlwe_sig = match crate::mlwe_sig::MLWESignature::try_sign(
        &params.protocol.mlwe,
        &kp,
        message,
        context.as_slice(),
        rng,
        pk_hash.as_slice(),
        delta_bytes,
    ) {
        Ok(sig) => sig,
        Err(_) => {
            return Err(PabsCrfError::SignFailed("Core MLWE signing failed".to_string()));
        },
    };
    let ghost sig_copy = mlwe_sig;
    let core = CorePredicateSignature {
        z: mlwe_sig.z,
        challenge: mlwe_sig.challenge,
        hints: mlwe_sig.hints,
        policy: policy.clone(),
        message_hash: sha256(message),
        attributes_used: used_attributes,
        policy_digest,
        parameter_set_id: parameter_set_id.to_string(),
        gid: sk.gid,
    };
    proof {
        let ctx = challenge_context_spec(
            policy_digest_spec(policy@),
            tau,
            sk.gid@,
            vstd::utf8::encode_utf8(crate::parameter_sets::target_label(params.protocol.security_target)),
        );
        assert(context@ == ctx);
        assert(core_signed_by(*sk, *policy, message@, ctx, delta_bytes@, core, pk_hash@));
    }
    Ok((core, witness_rows, pk_hash))
}

proof fn lemma_core_key_signable(kp: MLWEKeyPair, sk: UserSecretKey, policy: Policy, params: TopTierParameterModel, used: Seq<Seq<char>>)
    requires
        core_sign_ok(sk, params),
        core_key_ok(kp, sk, policy, used),
        kp.public_key@.len() == sk.params.k,
        policy_lsss(policy@) is Some,
    ensures
        crate::mlwe_sig::sign_shapes_ok(sk.params, kp),
        crate::mlwe_sig::sign_bounds_ok(sk.params, kp),
{
    reveal(core_key_ok);
    let p = sk.params;
    let (mat, attrs, _) = policy_lsss(policy@)->Some_0;
    let sel = selected_rows(attrs, attr_names(sk.attributes@), attrs.len() as int);
    let sattrs = selected_attrs(attrs, sel);
    let omega = choose|omega: Seq<i64>| #[trigger] reconstruction_ok(omega, mat, sel, p.q as int)
        && kp.secret_key@ == combine_spec(
        preimages_view(sk.preimages@),
        attr_names(sk.attributes@),
        omega,
        sattrs,
        p.m as int,
        p.n as int,
        p.q as int,
    );
    assert(kp.secret_key@.len() == p.m);
    assert(crate::mlwe::vec_uniform(kp.secret_key@, p.n as int));
    assert forall|j: int, l: int| 0 <= j < kp.secret_key@.len() && 0 <= l < kp.secret_key@[j].len() implies -((p.q / 2) as int)
        <= #[trigger] kp.secret_key@[j][l] <= (p.q / 2) as int by {
        crate::modarith::lemma_center(
            witness_sum(preimages_view(sk.preimages@), attr_names(sk.attributes@), omega, sattrs, p.q as int, j, l, omega.len() as int),
            p.q as int,
        );
    }
    lemma_vec_max_abs_le(kp.secret_key@, (p.q / 2) as int);
    assert(p.n * crate::mlwe::vec_max_abs(kp.secret_key@) <= p.n * (p.q / 2)) by (nonlinear_arith)
        requires crate::mlwe::vec_max_abs(kp.secret_key@) <= p.q / 2, p.n >= 0;
    assert(crate::mlwe::first_entry_len(kp.matrix_a@) == p.n) by {
        assert(kp.matrix_a@[0].len() == p.m);
    }
    assert(crate::mlwe::vec_uniform(kp.error_vector@, p.n as int));
}

proof fn lemma_vec_max_abs_le(v: Seq<Seq<i32>>, b: int)
    requires
        b >= 0,
        forall|j: int, l: int| 0 <= j < v.len() && 0 <= l < v[j].len() ==> -b <= #[trigger] v[j][l] <= b,
    ensures
        crate::mlwe::vec_max_abs(v) <= b,
{
    crate::mlwe::lemma_vec_max_abs_bound(v, b + 1);
    assert forall|j: int| 0 <= j < v.len() implies crate::mlwe::max_abs(#[trigger] v[j]) < b + 1 by {
        crate::mlwe::lemma_max_abs_bound(v[j], b + 1);
    }
}

} // verus!
