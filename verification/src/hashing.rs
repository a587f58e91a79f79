//! SHA-256 and SHAKE-256, and sampling of values from a SHAKE-256 output stream.
use vstd::prelude::*;
use sha2::Digest;
use sha3::digest::ExtendableOutput;
use crate::codec::{le32, le_u32_at, push_u32_le};

verus! {

/// The SHA-256 digest of `data`.
pub uninterp spec fn sha256_spec(data: Seq<u8>) -> Seq<u8>;

/// The first `len` bytes of the SHAKE-256 output stream for `data`.
pub uninterp spec fn shake256_spec(data: Seq<u8>, len: nat) -> Seq<u8>;

/// `sha2::Sha256::digest`.
///
/// Trusted: the 32-byte digest named by `sha256_spec`.
#[verifier::external_body]
pub(crate) fn sha256(data: &[u8]) -> (r: Vec<u8>)
    ensures
        r@ == sha256_spec(data@),
        r@.len() == 32,
{
    sha2::Sha256::digest(data).to_vec()
}

/// `sha3::Shake256::digest_xof` into a buffer of `len` bytes.
///
/// Trusted: the first `len` bytes of the output stream named by
/// `shake256_spec`; being a stream, shorter reads are prefixes of longer ones.
#[verifier::external_body]
pub(crate) fn shake256(data: &[u8], len: usize) -> (r: Vec<u8>)
    ensures
        r@ == shake256_spec(data@, len as nat),
        r@.len() == len,
        forall|m: nat| m <= len ==> r@.take(m as int) == #[trigger] shake256_spec(data@, m),
        forall|m: nat| len <= m ==> r@.len() <= (#[trigger] shake256_spec(data@, m)).len(),
        forall|m: nat| len <= m ==> r@ == (#[trigger] shake256_spec(data@, m)).take(len as int),
{
    let mut out = vec![0u8; len];
    sha3::Shake256::digest_xof(data, &mut out);
    out
}

/// Two's-complement little-endian bytes of an `i32` (`i32::to_le_bytes`).
pub open spec fn i32_le(c: i32) -> Seq<u8> {
    le32(if c < 0 { c + 0x1_0000_0000 } else { c as int })
}

/// Append `c.to_le_bytes()`.
pub fn push_i32_le(buf: &mut Vec<u8>, c: i32)
    ensures
        final(buf)@ == old(buf)@ + i32_le(c),
{
    let u: u32 = if c < 0 {
        (c as i64 + 0x1_0000_0000i64) as u32
    } else {
        c as u32
    };
    push_u32_le(buf, u);
}

// ---------------------------------------------------------------------------
// Sampling from a byte stream
// ---------------------------------------------------------------------------

/// How a little-endian 32-bit word of the stream is turned into a value in `[0, q)`.
pub enum WordRule {
    /// Keep the low 23 bits; accept when below `q`.
    Mask23(u32),
    /// Accept words below the largest multiple of `q` that fits; take the word mod `q`.
    ModLimit(u32),
}

/// The value a word gives under `rule`, or `None` when the word is rejected.
pub open spec fn word_value(rule: WordRule, w: int) -> Option<i32> {
    match rule {
        WordRule::Mask23(q) => {
            let v = w % 0x80_0000;
            if v < q {
                Some(v as i32)
            } else {
                None
            }
        },
        WordRule::ModLimit(q) => {
            if w < 0xffff_ffffint - 0xffff_ffffint % (q as int) {
                Some((w % (q as int)) as i32)
            } else {
                None
            }
        },
    }
}

pub open spec fn rule_ok(rule: WordRule) -> bool {
    match rule {
        WordRule::Mask23(q) => 1 <= q,
        WordRule::ModLimit(q) => 1 <= q < 0x8000_0000,
    }
}

/// The first `count` accepted values of the words of `stream` from byte `pos`
/// on, or `None` when the stream ends first.
pub open spec fn take_values(stream: Seq<u8>, rule: WordRule, count: nat, pos: nat) -> Option<Seq<i32>>
    decreases stream.len() - pos,
{
    if count == 0 {
        Some(Seq::empty())
    } else if pos + 4 > stream.len() {
        None
    } else {
        match word_value(rule, le_u32_at(stream, pos as int)) {
            Some(v) => match take_values(stream, rule, (count - 1) as nat, pos + 4) {
                Some(rest) => Some(seq![v] + rest),
                None => None,
            },
            None => take_values(stream, rule, count, pos + 4),
        }
    }
}

/// Reading more of the stream does not change values already obtained.
pub proof fn lemma_take_values_prefix(s1: Seq<u8>, s2: Seq<u8>, rule: WordRule, count: nat, pos: nat)
    requires
        s1.len() <= s2.len(),
        s1 == s2.take(s1.len() as int),
        take_values(s1, rule, count, pos) is Some,
    ensures
        take_values(s2, rule, count, pos) == take_values(s1, rule, count, pos),
    decreases s1.len() - pos,
{
    if count > 0 {
        assert(le_u32_at(s1, pos as int) == le_u32_at(s2, pos as int)) by {
            assert(s1[pos as int] == s2[pos as int]);
            assert(s1[pos + 1int] == s2[pos + 1int]);
            assert(s1[pos + 2int] == s2[pos + 2int]);
            assert(s1[pos + 3int] == s2[pos + 3int]);
        }
        match word_value(rule, le_u32_at(s1, pos as int)) {
            Some(v) => {
                lemma_take_values_prefix(s1, s2, rule, (count - 1) as nat, pos + 4);
            },
            None => {
                lemma_take_values_prefix(s1, s2, rule, count, pos + 4);
            },
        }
    }
}

fn word_value_exec(rule: &WordRule, w: u32) -> (r: Option<i32>)
    requires
        rule_ok(*rule),
    ensures
        r == word_value(*rule, w as int),
{
    match rule {
        WordRule::Mask23(q) => {
            let v = w & 0x7F_FFFF;
            assert(v == w % 0x80_0000) by (bit_vector)
                requires v == w & 0x7F_FFFF;
            if v < *q {
                Some(v as i32)
            } else {
                None
            }
        },
        WordRule::ModLimit(q) => {
            if w < u32::MAX - u32::MAX % *q {
                Some((w % *q) as i32)
            } else {
                None
            }
        },
    }
}

/// The first `count` accepted values of the words of `stream`, if it holds enough.
pub fn sample_words(stream: &Vec<u8>, rule: &WordRule, count: usize) -> (r: Option<Vec<i32>>)
    requires
        rule_ok(*rule),
    ensures
        r matches Some(v) ==> take_values(stream@, *rule, count as nat, 0) == Some(v@),
        r is None ==> take_values(stream@, *rule, count as nat, 0) is None,
{
    let mut out: Vec<i32> = Vec::new();
    let mut pos: usize = 0;
    let slen = stream.len();
    let ghost total = take_values(stream@, *rule, count as nat, 0);
    while out.len() < count
        invariant
            rule_ok(*rule),
            slen == stream@.len(),
            out@.len() <= count,
            pos <= slen + 4,
            total == take_values(stream@, *rule, count as nat, 0),
            total == match take_values(stream@, *rule, (count - out@.len()) as nat, pos as nat) {
                Some(rest) => Some(out@ + rest),
                None => None,
            },
        decreases slen + 4 - pos,
    {
        if pos > slen || slen - pos < 4 {
            assert(take_values(stream@, *rule, (count - out@.len()) as nat, pos as nat) is None);
            return None;
        }
        let w = crate::codec::read_u32_le_at(stream.as_slice(), pos);
        let ghost before = out@;
        match word_value_exec(rule, w) {
            Some(v) => {
                out.push(v);
                proof {
                    let rest = take_values(stream@, *rule, (count - out@.len()) as nat, (pos + 4) as nat);
                    if rest is Some {
                        assert(before + (seq![v] + rest->Some_0) =~= out@ + rest->Some_0);
                    }
                }
            },
            None => {},
        }
        pos = pos + 4;
    }
    assert(out@ + Seq::<i32>::empty() =~= out@);
    Some(out)
}

/// Largest stream prefix requested when sampling.
pub open spec fn max_stream_len() -> nat {
    usize::MAX as nat
}

/// The first `count` accepted values of the SHAKE-256 stream of `input`
/// (all zero in the event, of negligible probability, that even the longest
/// prefix requested does not hold them).
pub open spec fn xof_values(input: Seq<u8>, rule: WordRule, count: nat) -> Seq<i32> {
    match take_values(shake256_spec(input, max_stream_len()), rule, count, 0) {
        Some(v) => v,
        None => Seq::new(count, |i: int| 0i32),
    }
}

/// Sample `count` values from the SHAKE-256 stream of `input`, reading a
/// longer prefix of the stream until enough words are accepted.
pub fn xof_sample_values(input: &[u8], rule: &WordRule, count: usize) -> (r: Vec<i32>)
    requires
        rule_ok(*rule),
    ensures
        r@ == xof_values(input@, *rule, count as nat),
        r@.len() == count,
{
    let mut len: usize = if count <= (usize::MAX - 64) / 8 { 8 * count + 64 } else { usize::MAX };
    loop
        invariant
            rule_ok(*rule),
            len >= 1,
        decreases usize::MAX - len,
    {
        let stream = shake256(input, len);
        match sample_words(&stream, rule, count) {
            Some(v) => {
                proof {
                    let full = shake256_spec(input@, max_stream_len());
                    assert(stream@.len() <= full.len() && full.take(len as int) == stream@);
                    lemma_take_values_prefix(stream@, full, *rule, count as nat, 0);
                    lemma_take_values_len(stream@, *rule, count as nat, 0);
                }
                return v;
            },
            None => {
                if len == usize::MAX {
                    assert(stream@ == shake256_spec(input@, max_stream_len()));
                    let mut zeros: Vec<i32> = Vec::new();
                    let mut i: usize = 0;
                    while i < count
                        invariant
                            i <= count,
                            zeros@ == Seq::new(i as nat, |t: int| 0i32),
                        decreases count - i,
                    {
                        zeros.push(0);
                        i += 1;
                        assert(zeros@ =~= Seq::new(i as nat, |t: int| 0i32));
                    }
                    return zeros;
                }
                len = if len <= usize::MAX / 2 { 2 * len } else { usize::MAX };
            },
        }
    }
}

proof fn lemma_take_values_len(stream: Seq<u8>, rule: WordRule, count: nat, pos: nat)
    ensures
        take_values(stream, rule, count, pos) matches Some(v) ==> v.len() == count,
    decreases stream.len() - pos,
{
    if count > 0 && pos + 4 <= stream.len() {
        match word_value(rule, le_u32_at(stream, pos as int)) {
            Some(v) => lemma_take_values_len(stream, rule, (count - 1) as nat, pos + 4),
            None => lemma_take_values_len(stream, rule, count, pos + 4),
        }
    }
}

proof fn lemma_take_values_mask_range(stream: Seq<u8>, q: u32, count: nat, pos: nat)
    requires
        q >= 1,
    ensures
        take_values(stream, WordRule::Mask23(q), count, pos) matches Some(v) ==> forall|i: int|
            0 <= i < v.len() ==> 0 <= #[trigger] v[i] < q,
    decreases stream.len() - pos,
{
    if count > 0 && pos + 4 <= stream.len() {
        let w = le_u32_at(stream, pos as int);
        match word_value(WordRule::Mask23(q), w) {
            Some(x) => {
                lemma_take_values_mask_range(stream, q, (count - 1) as nat, pos + 4);
                match take_values(stream, WordRule::Mask23(q), (count - 1) as nat, pos + 4) {
                    Some(rest) => {
                        let v = seq![x] + rest;
                        assert forall|i: int| 0 <= i < v.len() implies 0 <= #[trigger] v[i] < q by {
                            if i > 0 {
                                assert(v[i] == rest[i - 1]);
                            }
                        }
                    },
                    None => {},
                }
            },
            None => {
                lemma_take_values_mask_range(stream, q, count, pos + 4);
            },
        }
    }
}

/// Values sampled with the 23-bit rule lie in `[0, q)`.
pub proof fn lemma_xof_values_range(input: Seq<u8>, q: u32, count: nat)
    requires
        q >= 1,
    ensures
        xof_values(input, WordRule::Mask23(q), count).len() == count,
        forall|i: int| 0 <= i < count ==> 0 <= #[trigger] xof_values(input, WordRule::Mask23(q), count)[i] < q,
{
    let stream = shake256_spec(input, max_stream_len());
    lemma_take_values_mask_range(stream, q, count, 0);
    lemma_take_values_len(stream, WordRule::Mask23(q), count, 0);
}

} // verus!
