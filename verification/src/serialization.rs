//! Compact binary layout of compressed firewall signatures, framed by zstd.
//!
//! ```text
//! HEADER:  [magic:4][ver:1][tau:8][gid:32][policy_digest:32][firewall_tag:32]
//!          [pk_hash_len:2][param_id_len:1][wr_count:2]  = 114 bytes
//! FIELDS:  [z_bytes...][delta_bytes...][c_bytes...][hints_bytes...]
//!          [pk_hash_bytes...][wr_rows:wr_count*2][param_id_bytes...]
//! TRAILER: [z_len:2][delta_len:2][c_len:2][hints_len:2]
//!          [pkh_len:2][wr_count:2][pid_len:1]  = 13 bytes
//! ```
use std::io::Read;
use vstd::prelude::*;
use vstd::utf8::{decode_utf8, encode_utf8, valid_utf8};
use crate::codec::{
    copy_range, extend_bytes, le16, le64, le_u16_at, le_u64_at, lemma_le16_roundtrip, lemma_le64_roundtrip, push_u16_le,
    push_u64_le, read_u16_le_at, read_u64_le_at,
};
use crate::errors::{PabsCrfError, PabsCrfResult};
use crate::pabs::types::{CompressedFirewallSignature, FirewallSignature};
use crate::bitpack::{bytes_for_bits, unpacked_value};
use crate::compression::{
    challenge_blob_ok, decode_challenge, decoded_coeff, encode_challenge, encoded_challenge, hint_blob_has, hint_blob_valid,
    pack_hints, pack_polyvec_mod_q, pack_z, packed_hints, packed_mod_q, packed_z, q_bits, spec_z_bits, unpack_hints,
    unpack_polyvec_mod_q, unpack_z, z_fits,
};
use crate::mlwe::{center_i32_seq, valid_q, vec_uniform, MLWEParameters, Polynomial, PolynomialVector};
use crate::policy::Policy;

verus! {

/// Largest decompressed layout accepted.
pub const MAX_DECOMPRESSED_SIZE: usize = 10 * 1024 * 1024;

const COMPACT_VERSION: u8 = 2;

/// zstd compression level of the transport blob.
pub const ZSTD_LEVEL: i32 = 3;

/// Size of the fixed header.
pub const HEADER_SIZE: usize = 114;

/// Size of the fixed trailer.
pub const TRAILER_SIZE: usize = 13;

// ---------------------------------------------------------------------------
// zstd framing
// ---------------------------------------------------------------------------

/// The bytes that decoding the zstd frame(s) `frame` yields when at most
/// `limit` bytes are read.
pub uninterp spec fn zstd_decoded_prefix(frame: Seq<u8>, limit: u64) -> Seq<u8>;

/// The first `limit` bytes of `s` (all of `s` when it is shorter).
pub open spec fn prefix_upto(s: Seq<u8>, limit: u64) -> Seq<u8> {
    if limit < s.len() {
        s.take(limit as int)
    } else {
        s
    }
}

/// Whether `zstd::encode_all(data, level)` succeeds.
pub uninterp spec fn zstd_encodes(data: Seq<u8>, level: i32) -> bool;

/// The frame `zstd::encode_all(data, level)` produces.
pub uninterp spec fn zstd_frame(data: Seq<u8>, level: i32) -> Seq<u8>;

/// Whether decoding the zstd frame(s) `frame`, reading at most `limit`
/// bytes, succeeds.
pub uninterp spec fn zstd_decodes(frame: Seq<u8>, limit: u64) -> bool;

/// Compresses `data` with `zstd::encode_all` at `level`.
///
/// Trusted: it succeeds as `zstd_encodes` names, returning the frame named by
/// `zstd_frame`; zstd compression is lossless,
/// so the produced frame decodes, at any read limit, to `data` (cut at the
/// limit).
#[verifier::external_body]
fn zstd_encode(data: &[u8], level: i32) -> (r: Result<Vec<u8>, String>)
    ensures
        r is Ok <==> zstd_encodes(data@, level),
        r matches Ok(out) ==> out@ == zstd_frame(data@, level),
        r matches Ok(out) ==> forall|limit: u64| #[trigger] zstd_decoded_prefix(out@, limit) == prefix_upto(data@, limit),
        r matches Ok(out) ==> forall|limit: u64| #[trigger] zstd_decodes(out@, limit),
{
    match zstd::encode_all(data, level) {
        Ok(out) => Ok(out),
        Err(e) => Err(format!("zstd compress failed: {}", e)),
    }
}

/// Decompresses `blob` with a `zstd::Decoder`, reading at most `limit` bytes.
///
/// Trusted: it succeeds as `zstd_decodes` names, and then the bytes are
/// those the frame decodes to, cut at `limit` (`Read::take`).
#[verifier::external_body]
fn zstd_decode_bounded(blob: &[u8], limit: u64) -> (r: Result<Vec<u8>, String>)
    ensures
        r is Ok <==> zstd_decodes(blob@, limit),
        r matches Ok(raw) ==> raw@ == zstd_decoded_prefix(blob@, limit) && raw@.len() <= limit,
{
    let decoder = match zstd::Decoder::new(blob) {
        Ok(d) => d,
        Err(e) => return Err(format!("zstd decoder: {}", e)),
    };
    let mut raw = Vec::new();
    match decoder.take(limit).read_to_end(&mut raw) {
        Ok(_) => Ok(raw),
        Err(e) => Err(format!("zstd decompress: {}", e)),
    }
}

/// `String::from_utf8`.
///
/// Trusted: succeeds exactly on valid UTF-8, whose characters it returns.
#[verifier::external_body]
fn string_from_utf8(bytes: Vec<u8>) -> (r: Option<String>)
    ensures
        r is Some <==> valid_utf8(bytes@),
        r matches Some(s) ==> s@ == decode_utf8(bytes@),
{
    match String::from_utf8(bytes) {
        Ok(s) => Some(s),
        Err(_) => None,
    }
}

// ---------------------------------------------------------------------------
// Layout, as written
// ---------------------------------------------------------------------------

/// The four magic bytes `PABS`.
pub open spec fn compact_magic() -> Seq<u8> {
    seq![0x50u8, 0x41u8, 0x42u8, 0x53u8]
}

/// Each value as two little-endian bytes.
pub open spec fn u16_seq_bytes(s: Seq<u16>) -> Seq<u8>
    decreases s.len(),
{
    if s.len() == 0 {
        Seq::empty()
    } else {
        u16_seq_bytes(s.drop_last()) + le16(s.last() as int)
    }
}

/// The hint bytes written (none when the hints are absent).
pub open spec fn hints_blob(c: CompressedFirewallSignature) -> Seq<u8> {
    match c.packed_hints {
        Some(h) => h@,
        None => Seq::empty(),
    }
}

/// UTF-8 bytes of the parameter set identifier.
pub open spec fn param_id_bytes(c: CompressedFirewallSignature) -> Seq<u8> {
    encode_utf8(c.parameter_set_id@)
}

/// A length as written in a two-byte field.
pub open spec fn len16(n: nat) -> Seq<u8> {
    le16((n % 0x10000) as int)
}

/// A length as written in a one-byte field.
pub open spec fn len8(n: nat) -> Seq<u8> {
    seq![(n % 256) as u8]
}

#[verifier::opaque]
pub open spec fn compact_header(c: CompressedFirewallSignature) -> Seq<u8> {
    compact_magic() + seq![2u8] + le64(c.tau as int) + c.gid@ + c.policy_digest@ + c.firewall_tag@ + len16(
        c.pk_hash@.len(),
    ) + len8(param_id_bytes(c).len()) + len16(c.witness_rows@.len())
}

#[verifier::opaque]
pub open spec fn compact_fields(c: CompressedFirewallSignature) -> Seq<u8> {
    c.packed_z@ + c.packed_delta@ + c.encoded_c@ + hints_blob(c) + c.pk_hash@ + u16_seq_bytes(c.witness_rows@)
        + param_id_bytes(c)
}

#[verifier::opaque]
pub open spec fn compact_trailer(c: CompressedFirewallSignature) -> Seq<u8> {
    len16(c.packed_z@.len()) + len16(c.packed_delta@.len()) + len16(c.encoded_c@.len()) + len16(hints_blob(c).len())
        + len16(c.pk_hash@.len()) + len16(c.witness_rows@.len()) + len8(param_id_bytes(c).len())
}

/// The uncompressed layout of `c`.
pub open spec fn compact_layout(c: CompressedFirewallSignature) -> Seq<u8> {
    compact_header(c) + compact_fields(c) + compact_trailer(c)
}

/// `c` can be written and read back: fixed-size digests, lengths that fit
/// their fields, and hints that are absent or non-empty.
pub open spec fn layout_representable(c: CompressedFirewallSignature) -> bool {
    &&& c.policy_digest@.len() == 32
    &&& c.firewall_tag@.len() == 32
    &&& c.packed_z@.len() < 0x10000
    &&& c.packed_delta@.len() < 0x10000
    &&& c.encoded_c@.len() < 0x10000
    &&& hints_blob(c).len() < 0x10000
    &&& c.pk_hash@.len() < 0x10000
    &&& c.witness_rows@.len() < 0x10000
    &&& param_id_bytes(c).len() < 256
    &&& c.packed_hints matches Some(h) ==> h@.len() > 0
}

// ---------------------------------------------------------------------------
// Layout, as read
// ---------------------------------------------------------------------------

/// Two-byte trailer field `k` (0: z, 1: delta, 2: challenge, 3: hints, 4: pk hash, 5: witness rows).
pub open spec fn trailer_field(raw: Seq<u8>, k: int) -> int {
    le_u16_at(raw, raw.len() - 13 + 2 * k)
}

/// Length of the parameter identifier, from the trailer.
pub open spec fn trailer_pid_len(raw: Seq<u8>) -> int {
    raw[raw.len() - 1] as int
}

/// Byte length of field `k` (6: parameter identifier).
pub open spec fn field_len(raw: Seq<u8>, k: int) -> int {
    if k == 5 {
        2 * trailer_field(raw, 5)
    } else if k == 6 {
        trailer_pid_len(raw)
    } else {
        trailer_field(raw, k)
    }
}

/// Offset of field `k` (7: end of the fields).
pub open spec fn field_start(raw: Seq<u8>, k: nat) -> int
    decreases k,
{
    if k == 0 {
        114
    } else {
        field_start(raw, (k - 1) as nat) + field_len(raw, k - 1)
    }
}

/// Bytes of field `k`.
pub open spec fn field_bytes(raw: Seq<u8>, k: nat) -> Seq<u8> {
    raw.subrange(field_start(raw, k), field_start(raw, k) + field_len(raw, k as int))
}

/// Witness row `t`.
pub open spec fn field_row(raw: Seq<u8>, t: int) -> int {
    le_u16_at(raw, field_start(raw, 5) + 2 * t)
}

/// `raw` is a well-formed layout.
pub open spec fn layout_valid(raw: Seq<u8>) -> bool {
    &&& raw.len() >= 127
    &&& raw.take(4) == compact_magic()
    &&& raw[4] == 2
    &&& field_start(raw, 7) + 13 == raw.len()
    &&& valid_utf8(field_bytes(raw, 6))
    &&& le_u16_at(raw, 109) == trailer_field(raw, 4)
    &&& raw[111] as int == trailer_pid_len(raw)
    &&& le_u16_at(raw, 112) == trailer_field(raw, 5)
}

/// `c` holds the fields of the well-formed layout `raw`.
pub open spec fn parsed_from(raw: Seq<u8>, c: CompressedFirewallSignature) -> bool {
    &&& c.tau == le_u64_at(raw, 5)
    &&& c.gid@ == raw.subrange(13, 45)
    &&& c.policy_digest@ == raw.subrange(45, 77)
    &&& c.firewall_tag@ == raw.subrange(77, 109)
    &&& c.packed_z@ == field_bytes(raw, 0)
    &&& c.packed_delta@ == field_bytes(raw, 1)
    &&& c.encoded_c@ == field_bytes(raw, 2)
    &&& c.packed_hints == (if field_len(raw, 3) > 0 {
        Some(c.packed_hints->Some_0)
    } else {
        None::<Vec<u8>>
    })
    &&& (field_len(raw, 3) > 0 ==> c.packed_hints->Some_0@ == field_bytes(raw, 3))
    &&& c.pk_hash@ == field_bytes(raw, 4)
    &&& c.witness_rows@.len() == trailer_field(raw, 5)
    &&& (forall|t: int| 0 <= t < c.witness_rows@.len() ==> #[trigger] c.witness_rows@[t] == field_row(raw, t))
    &&& c.parameter_set_id@ == decode_utf8(field_bytes(raw, 6))
    &&& c.crf_seed is None
}

// ---------------------------------------------------------------------------
// Writing and reading
// ---------------------------------------------------------------------------

fn write_u16(buf: &mut Vec<u8>, v: u16)
    ensures
        final(buf)@ == old(buf)@ + le16(v as int),
{
    push_u16_le(buf, v);
}

/// Read a `u16` at `*off` and advance past it.
fn read_u16(buf: &[u8], off: &mut usize) -> (r: PabsCrfResult<u16>)
    ensures
        r is Ok <==> old(off) + 2 <= buf@.len(),
        r matches Ok(v) ==> v == le_u16_at(buf@, *old(off) as int) && *final(off) == *old(off) + 2,
        r matches Err(e) ==> e is DeserializationError && *final(off) == *old(off),
{
    if *off > buf.len() || buf.len() - *off < 2 {
        return Err(PabsCrfError::DeserializationError("truncated u16".to_string()));
    }
    let v = read_u16_le_at(buf, *off);
    *off = *off + 2;
    Ok(v)
}

/// Copy `len` bytes at `*off` and advance past them.
fn read_bytes(buf: &[u8], off: &mut usize, len: usize) -> (r: PabsCrfResult<Vec<u8>>)
    ensures
        r is Ok <==> old(off) + len <= buf@.len(),
        r matches Ok(v) ==> v@ == buf@.subrange(*old(off) as int, old(off) + len) && *final(off) == *old(off) + len,
        r matches Err(e) ==> e is DeserializationError && *final(off) == *old(off),
{
    if *off > buf.len() || buf.len() - *off < len {
        return Err(PabsCrfError::DeserializationError("truncated field".to_string()));
    }
    let v = copy_range(buf, *off, len);
    *off = *off + len;
    Ok(v)
}

fn write_header(raw: &mut Vec<u8>, compressed: &CompressedFirewallSignature)
    requires
        old(raw)@.len() == 0,
    ensures
        final(raw)@ == compact_header(*compressed),
{
    let ghost c = *compressed;
    let pid_bytes: &[u8] = compressed.parameter_set_id.as_str().as_bytes();
    assert(pid_bytes@ == param_id_bytes(c));
    let pk_hash_len = (compressed.pk_hash.len() % 0x10000) as u16;
    let wr_count = (compressed.witness_rows.len() % 0x10000) as u16;
    let pid_len = (pid_bytes.len() % 256) as u8;
    reveal(compact_header);
    raw.push(0x50u8);
    raw.push(0x41u8);
    raw.push(0x42u8);
    raw.push(0x53u8);
    raw.push(COMPACT_VERSION);
    assert(raw@ =~= compact_magic() + seq![2u8]);
    push_u64_le(raw, compressed.tau);
    extend_bytes(raw, compressed.gid.as_slice());
    extend_bytes(raw, compressed.policy_digest.as_slice());
    extend_bytes(raw, compressed.firewall_tag.as_slice());
    write_u16(raw, pk_hash_len);
    raw.push(pid_len);
    write_u16(raw, wr_count);
    assert(raw@ =~= compact_header(c));
}

fn write_rows(raw: &mut Vec<u8>, rows: &Vec<u16>)
    ensures
        final(raw)@ == old(raw)@ + u16_seq_bytes(rows@),
{
    let ghost before_rows = raw@;
    let mut i: usize = 0;
    assert(rows@.take(0) =~= Seq::<u16>::empty());
    assert(raw@ =~= before_rows + u16_seq_bytes(rows@.take(0)));
    while i < rows.len()
        invariant
            i <= rows@.len(),
            raw@ == before_rows + u16_seq_bytes(rows@.take(i as int)),
            before_rows == old(raw)@,
        decreases rows@.len() - i,
    {
        write_u16(raw, rows[i]);
        assert(rows@.take(i + 1).drop_last() =~= rows@.take(i as int));
        i += 1;
        assert(raw@ =~= before_rows + u16_seq_bytes(rows@.take(i as int)));
    }
    assert(rows@.take(i as int) =~= rows@);
}

fn write_fields(raw: &mut Vec<u8>, compressed: &CompressedFirewallSignature)
    ensures
        final(raw)@ == old(raw)@ + compact_fields(*compressed),
{
    let ghost c = *compressed;
    reveal(compact_fields);
    let empty: Vec<u8> = Vec::new();
    let hints_bytes: &[u8] = match &compressed.packed_hints {
        Some(h) => h.as_slice(),
        None => empty.as_slice(),
    };
    assert(hints_bytes@ == hints_blob(c));
    let pid_bytes: &[u8] = compressed.parameter_set_id.as_str().as_bytes();
    assert(pid_bytes@ == param_id_bytes(c));
    extend_bytes(raw, compressed.packed_z.as_slice());
    extend_bytes(raw, compressed.packed_delta.as_slice());
    extend_bytes(raw, compressed.encoded_c.as_slice());
    extend_bytes(raw, hints_bytes);
    extend_bytes(raw, compressed.pk_hash.as_slice());
    write_rows(raw, &compressed.witness_rows);
    extend_bytes(raw, pid_bytes);
    assert(raw@ =~= old(raw)@ + compact_fields(c));
}

fn write_trailer(raw: &mut Vec<u8>, compressed: &CompressedFirewallSignature)
    ensures
        final(raw)@ == old(raw)@ + compact_trailer(*compressed),
{
    let ghost c = *compressed;
    let empty: Vec<u8> = Vec::new();
    let hints_bytes: &[u8] = match &compressed.packed_hints {
        Some(h) => h.as_slice(),
        None => empty.as_slice(),
    };
    assert(hints_bytes@ == hints_blob(c));
    let pid_bytes: &[u8] = compressed.parameter_set_id.as_str().as_bytes();
    assert(pid_bytes@ == param_id_bytes(c));
    reveal(compact_trailer);
    write_u16(raw, (compressed.packed_z.len() % 0x10000) as u16);
    write_u16(raw, (compressed.packed_delta.len() % 0x10000) as u16);
    write_u16(raw, (compressed.encoded_c.len() % 0x10000) as u16);
    write_u16(raw, (hints_bytes.len() % 0x10000) as u16);
    write_u16(raw, (compressed.pk_hash.len() % 0x10000) as u16);
    write_u16(raw, (compressed.witness_rows.len() % 0x10000) as u16);
    raw.push((pid_bytes.len() % 256) as u8);
    assert(raw@ =~= old(raw)@ + compact_trailer(c));
}

/// The uncompressed layout of `compressed`.
pub fn encode_compact_layout(compressed: &CompressedFirewallSignature) -> (raw: Vec<u8>)
    ensures
        raw@ == compact_layout(*compressed),
{
    let mut raw: Vec<u8> = Vec::new();
    write_header(&mut raw, compressed);
    write_fields(&mut raw, compressed);
    write_trailer(&mut raw, compressed);
    raw
}

/// Compress the layout of `compressed` with zstd.
pub fn serialize_compressed_signature(compressed: &CompressedFirewallSignature) -> (r: PabsCrfResult<Vec<u8>>)
    ensures
        r is Ok <==> zstd_encodes(compact_layout(*compressed), ZSTD_LEVEL),
        r matches Ok(blob) ==> blob@ == zstd_frame(compact_layout(*compressed), ZSTD_LEVEL),
        r matches Ok(blob) ==> forall|limit: u64| #[trigger] zstd_decodes(blob@, limit),
        r matches Ok(blob) ==> forall|limit: u64| #[trigger] zstd_decoded_prefix(blob@, limit) == prefix_upto(
            compact_layout(*compressed),
            limit,
        ),
        r matches Err(e) ==> e is CompressionError,
{
    let raw = encode_compact_layout(compressed);
    match zstd_encode(raw.as_slice(), ZSTD_LEVEL) {
        Ok(blob) => Ok(blob),
        Err(msg) => Err(PabsCrfError::CompressionError(msg)),
    }
}

/// Read the fields of a layout; fails unless `raw` is well formed.
pub fn decode_compact_layout(raw: &[u8]) -> (r: PabsCrfResult<CompressedFirewallSignature>)
    ensures
        r is Ok <==> layout_valid(raw@),
        r matches Err(e) ==> e is DeserializationError,
        r matches Ok(c) ==> parsed_from(raw@, c),
{
    let len = raw.len();
    if len < HEADER_SIZE + TRAILER_SIZE {
        return Err(PabsCrfError::DeserializationError("blob too short".to_string()));
    }
    if !(raw[0] == 0x50u8 && raw[1] == 0x41u8 && raw[2] == 0x42u8 && raw[3] == 0x53u8) {
        assert(raw@.take(4) != compact_magic()) by {
            if raw@.take(4) == compact_magic() {
                assert(raw@.take(4)[0] == raw@[0] && raw@.take(4)[1] == raw@[1]);
                assert(raw@.take(4)[2] == raw@[2] && raw@.take(4)[3] == raw@[3]);
            }
        }
        return Err(PabsCrfError::DeserializationError("bad magic".to_string()));
    }
    assert(raw@.take(4) =~= compact_magic());
    let version = raw[4];
    if version != COMPACT_VERSION {
        return Err(PabsCrfError::DeserializationError("unsupported version".to_string()));
    }
    let tau = read_u64_le_at(raw, 5);
    let mut gid = [0u8; 32];
    let mut i: usize = 0;
    while i < 32
        invariant
            len == raw@.len(),
            len >= 127,
            i <= 32,
            forall|t: int| 0 <= t < i ==> #[trigger] gid@[t] == raw@[13 + t],
        decreases 32 - i,
    {
        gid[i] = raw[13 + i];
        i += 1;
    }
    assert(gid@ =~= raw@.subrange(13, 45));
    let policy_digest = copy_range(raw, 45, 32);
    let firewall_tag = copy_range(raw, 77, 32);
    let pk_hash_len_field = read_u16_le_at(raw, 109) as usize;
    let param_id_len_field = raw[111] as usize;
    let wr_count_field = read_u16_le_at(raw, 112) as usize;

    let ts = len - TRAILER_SIZE;
    let z_len = read_u16_le_at(raw, ts) as usize;
    let delta_len = read_u16_le_at(raw, ts + 2) as usize;
    let c_len = read_u16_le_at(raw, ts + 4) as usize;
    let hints_len = read_u16_le_at(raw, ts + 6) as usize;
    let pkh_len = read_u16_le_at(raw, ts + 8) as usize;
    let wr_count_t = read_u16_le_at(raw, ts + 10) as usize;
    let pid_len = raw[ts + 12] as usize;
    proof {
        reveal_with_fuel(field_start, 8);
        assert(field_start(raw@, 7) == HEADER_SIZE + z_len + delta_len + c_len + hints_len + pkh_len + wr_count_t * 2
            + pid_len);
    }
    let expected_field_bytes = z_len + delta_len + c_len + hints_len + pkh_len + wr_count_t * 2 + pid_len;
    if HEADER_SIZE + expected_field_bytes + TRAILER_SIZE != len {
        return Err(PabsCrfError::DeserializationError("field lengths mismatch".to_string()));
    }
    let mut foff: usize = HEADER_SIZE;
    let packed_z = copy_range(raw, foff, z_len);
    foff = foff + z_len;
    let packed_delta = copy_range(raw, foff, delta_len);
    foff = foff + delta_len;
    let encoded_c = copy_range(raw, foff, c_len);
    foff = foff + c_len;
    let packed_hints_blob = copy_range(raw, foff, hints_len);
    foff = foff + hints_len;
    let packed_hints = if hints_len > 0 {
        Some(packed_hints_blob)
    } else {
        None
    };
    let pk_hash = copy_range(raw, foff, pkh_len);
    foff = foff + pkh_len;
    proof {
        reveal_with_fuel(field_start, 8);
        assert(foff == field_start(raw@, 5));
    }
    let ghost rows_start = foff;
    let mut witness_rows: Vec<u16> = Vec::with_capacity(wr_count_t);
    let mut t: usize = 0;
    while t < wr_count_t
        invariant
            len == raw@.len(),
            rows_start == field_start(raw@, 5),
            rows_start + 2 * wr_count_t + pid_len + TRAILER_SIZE == len,
            t <= wr_count_t,
            foff == rows_start + 2 * t,
            witness_rows@.len() == t,
            forall|u: int| 0 <= u < t ==> #[trigger] witness_rows@[u] == field_row(raw@, u),
        decreases wr_count_t - t,
    {
        witness_rows.push(read_u16_le_at(raw, foff));
        foff = foff + 2;
        t += 1;
    }
    proof {
        reveal_with_fuel(field_start, 8);
        assert(foff == field_start(raw@, 6));
    }
    let pid = copy_range(raw, foff, pid_len);
    let parameter_set_id = match string_from_utf8(pid) {
        Some(s) => s,
        None => {
            return Err(PabsCrfError::DeserializationError("invalid utf-8 in parameter_set_id".to_string()));
        },
    };
    if pk_hash_len_field != pkh_len || wr_count_field != wr_count_t || param_id_len_field != pid_len {
        return Err(PabsCrfError::DeserializationError("header/trailer length mismatch".to_string()));
    }
    proof {
        reveal_with_fuel(field_start, 8);
    }
    Ok(CompressedFirewallSignature {
        packed_z,
        encoded_c,
        packed_hints,
        packed_delta,
        witness_rows,
        policy_digest,
        firewall_tag,
        parameter_set_id,
        pk_hash,
        crf_seed: None,
        tau,
        gid,
    })
}

/// The layout that the zstd frame `blob` decodes to, read up to one byte past the size limit.
pub open spec fn blob_layout(blob: Seq<u8>) -> Seq<u8> {
    zstd_decoded_prefix(blob, (MAX_DECOMPRESSED_SIZE + 1) as u64)
}

/// `blob` decodes within the size limit to a valid layout.
pub open spec fn deserializes(blob: Seq<u8>) -> bool {
    &&& zstd_decodes(blob, (MAX_DECOMPRESSED_SIZE + 1) as u64)
    &&& blob_layout(blob).len() <= MAX_DECOMPRESSED_SIZE
    &&& layout_valid(blob_layout(blob))
}

/// Decompress `blob` and read the layout it holds.
///
/// A decoder failure, or a layout over `MAX_DECOMPRESSED_SIZE` bytes, is a
/// compression error; a malformed layout is a deserialization error.
pub fn deserialize_compressed_signature(blob: &[u8]) -> (r: PabsCrfResult<CompressedFirewallSignature>)
    ensures
        r is Ok <==> deserializes(blob@),
        r matches Err(e) && e is CompressionError ==> !zstd_decodes(blob@, (MAX_DECOMPRESSED_SIZE + 1) as u64)
            || blob_layout(blob@).len() > MAX_DECOMPRESSED_SIZE,
        r matches Ok(c) ==> blob_layout(blob@).len() <= MAX_DECOMPRESSED_SIZE && layout_valid(blob_layout(blob@))
            && parsed_from(blob_layout(blob@), c),
        r matches Err(e) ==> e is CompressionError || (e is DeserializationError && blob_layout(blob@).len()
            <= MAX_DECOMPRESSED_SIZE && !layout_valid(blob_layout(blob@))),
{
    let raw = match zstd_decode_bounded(blob, (MAX_DECOMPRESSED_SIZE as u64) + 1) {
        Ok(raw) => raw,
        Err(msg) => {
            return Err(PabsCrfError::CompressionError(msg));
        },
    };
    if raw.len() > MAX_DECOMPRESSED_SIZE {
        return Err(PabsCrfError::CompressionError("decompressed size exceeds the limit".to_string()));
    }
    decode_compact_layout(raw.as_slice())
}

proof fn lemma_u16_seq_bytes(s: Seq<u16>)
    ensures
        u16_seq_bytes(s).len() == 2 * s.len(),
        forall|t: int| 0 <= t < s.len() ==> #[trigger] u16_seq_bytes(s).subrange(2 * t, 2 * t + 2) == le16(s[t] as int),
    decreases s.len(),
{
    if s.len() > 0 {
        let prev = s.drop_last();
        lemma_u16_seq_bytes(prev);
        let b = u16_seq_bytes(s);
        assert forall|t: int| 0 <= t < s.len() implies #[trigger] b.subrange(2 * t, 2 * t + 2) == le16(s[t] as int) by {
            if t < prev.len() {
                assert(b.subrange(2 * t, 2 * t + 2) =~= u16_seq_bytes(prev).subrange(2 * t, 2 * t + 2));
                assert(prev[t] == s[t]);
            } else {
                assert(b.subrange(2 * t, 2 * t + 2) =~= le16(s.last() as int));
            }
        }
    }
}

/// Bytes `[a.len() + i, a.len() + j)` of `a + b + d` are bytes `[i, j)` of `b`.
proof fn lemma_sub_middle(a: Seq<u8>, b: Seq<u8>, d: Seq<u8>, i: int, j: int)
    requires
        0 <= i <= j <= b.len(),
    ensures
        (a + b + d).subrange(a.len() + i, a.len() + j) == b.subrange(i, j),
{
    assert((a + b + d).subrange(a.len() + i, a.len() + j) =~= b.subrange(i, j));
}

/// Where each of seven concatenated pieces sits.
proof fn lemma_concat7(a: Seq<u8>, b: Seq<u8>, c: Seq<u8>, d: Seq<u8>, e: Seq<u8>, f: Seq<u8>, g: Seq<u8>)
    ensures
        ({
            let s = a + b + c + d + e + f + g;
            let o1 = a.len() as int;
            let o2 = o1 + b.len();
            let o3 = o2 + c.len();
            let o4 = o3 + d.len();
            let o5 = o4 + e.len();
            let o6 = o5 + f.len();
            &&& s.len() == o6 + g.len()
            &&& s.subrange(0, o1) == a
            &&& s.subrange(o1, o2) == b
            &&& s.subrange(o2, o3) == c
            &&& s.subrange(o3, o4) == d
            &&& s.subrange(o4, o5) == e
            &&& s.subrange(o5, o6) == f
            &&& s.subrange(o6, s.len() as int) == g
        }),
{
    let s = a + b + c + d + e + f + g;
    let o1 = a.len() as int;
    let o2 = o1 + b.len();
    let o3 = o2 + c.len();
    let o4 = o3 + d.len();
    let o5 = o4 + e.len();
    let o6 = o5 + f.len();
    assert(s.subrange(0, o1) =~= a);
    assert(s.subrange(o1, o2) =~= b);
    assert(s.subrange(o2, o3) =~= c);
    assert(s.subrange(o3, o4) =~= d);
    assert(s.subrange(o4, o5) =~= e);
    assert(s.subrange(o5, o6) =~= f);
    assert(s.subrange(o6, s.len() as int) =~= g);
}

/// A two-byte piece read back as a little-endian value.
proof fn lemma_piece16(s: Seq<u8>, off: int, x: int)
    requires
        0 <= x < 0x10000,
        0 <= off,
        off + 2 <= s.len(),
        s.subrange(off, off + 2) == le16((x % 0x10000) as int),
    ensures
        le_u16_at(s, off) == x,
{
    lemma_le16_roundtrip(x, s, off);
}

#[verifier::spinoff_prover]
#[verifier::rlimit(80)]
proof fn lemma_layout_header(c: CompressedFirewallSignature)
    requires
        layout_representable(c),
    ensures
        compact_header(c).len() == 114,
        compact_header(c).take(4) == compact_magic(),
        compact_header(c)[4] == 2,
        le_u64_at(compact_header(c), 5) == c.tau,
        compact_header(c).subrange(13, 45) == c.gid@,
        compact_header(c).subrange(45, 77) == c.policy_digest@,
        compact_header(c).subrange(77, 109) == c.firewall_tag@,
        le_u16_at(compact_header(c), 109) == c.pk_hash@.len(),
        compact_header(c)[111] as int == param_id_bytes(c).len(),
        le_u16_at(compact_header(c), 112) == c.witness_rows@.len(),
{
    reveal(compact_header);
    let h = compact_header(c);
    let p1 = compact_magic() + seq![2u8] + le64(c.tau as int);
    let a = len16(c.pk_hash@.len());
    let b = len8(param_id_bytes(c).len());
    let d = len16(c.witness_rows@.len());
    assert(h == p1 + c.gid@ + c.policy_digest@ + c.firewall_tag@ + a + b + d);
    lemma_concat7(p1, c.gid@, c.policy_digest@, c.firewall_tag@, a, b, d);
    assert(p1.len() == 13);
    assert(h.take(4) =~= p1.take(4));
    assert(p1.take(4) =~= compact_magic());
    assert(h[4] == p1[4]);
    assert(h.subrange(5, 13) =~= p1.subrange(5, 13));
    assert(p1.subrange(5, 13) =~= le64(c.tau as int));
    lemma_le64_roundtrip(c.tau as int, h, 5);
    lemma_piece16(h, 109, c.pk_hash@.len() as int);
    assert(h[111] == h.subrange(111, 112)[0]);
    lemma_piece16(h, 112, c.witness_rows@.len() as int);
}

proof fn lemma_layout_trailer(c: CompressedFirewallSignature)
    requires
        layout_representable(c),
    ensures
        compact_trailer(c).len() == 13,
        le_u16_at(compact_trailer(c), 0) == c.packed_z@.len(),
        le_u16_at(compact_trailer(c), 2) == c.packed_delta@.len(),
        le_u16_at(compact_trailer(c), 4) == c.encoded_c@.len(),
        le_u16_at(compact_trailer(c), 6) == hints_blob(c).len(),
        le_u16_at(compact_trailer(c), 8) == c.pk_hash@.len(),
        le_u16_at(compact_trailer(c), 10) == c.witness_rows@.len(),
        compact_trailer(c)[12] as int == param_id_bytes(c).len(),
{
    reveal(compact_trailer);
    let t = compact_trailer(c);
    lemma_concat7(
        len16(c.packed_z@.len()),
        len16(c.packed_delta@.len()),
        len16(c.encoded_c@.len()),
        len16(hints_blob(c).len()),
        len16(c.pk_hash@.len()),
        len16(c.witness_rows@.len()),
        len8(param_id_bytes(c).len()),
    );
    lemma_piece16(t, 0, c.packed_z@.len() as int);
    lemma_piece16(t, 2, c.packed_delta@.len() as int);
    lemma_piece16(t, 4, c.encoded_c@.len() as int);
    lemma_piece16(t, 6, hints_blob(c).len() as int);
    lemma_piece16(t, 8, c.pk_hash@.len() as int);
    lemma_piece16(t, 10, c.witness_rows@.len() as int);
    assert(t[12] == t.subrange(12, 13)[0]);
}

proof fn lemma_layout_fields(c: CompressedFirewallSignature)
    ensures
        compact_fields(c) == c.packed_z@ + c.packed_delta@ + c.encoded_c@ + hints_blob(c) + c.pk_hash@ + u16_seq_bytes(
            c.witness_rows@,
        ) + param_id_bytes(c),
{
    reveal(compact_fields);
}

/// Reading back the layout of a representable signature gives its fields.
#[verifier::spinoff_prover]
#[verifier::rlimit(60)]
pub proof fn lemma_compact_layout_roundtrip(c: CompressedFirewallSignature)
    requires
        layout_representable(c),
        c.crf_seed is None,
    ensures
        layout_valid(compact_layout(c)),
        parsed_from(compact_layout(c), c),
{
    let h = compact_header(c);
    let f = compact_fields(c);
    let t = compact_trailer(c);
    let raw = compact_layout(c);
    let rows = u16_seq_bytes(c.witness_rows@);
    lemma_layout_header(c);
    lemma_layout_trailer(c);
    lemma_layout_fields(c);
    lemma_concat7(c.packed_z@, c.packed_delta@, c.encoded_c@, hints_blob(c), c.pk_hash@, rows, param_id_bytes(c));
    lemma_u16_seq_bytes(c.witness_rows@);
    let len = raw.len() as int;
    assert(len == 114 + f.len() + 13);
    let ts = len - 13;
    // header: the first 114 bytes
    assert forall|i: int| 0 <= i < 114 implies #[trigger] raw[i] == h[i] by {}
    assert(raw.take(4) =~= h.take(4));
    assert(raw.subrange(13, 45) =~= h.subrange(13, 45));
    assert(raw.subrange(45, 77) =~= h.subrange(45, 77));
    assert(raw.subrange(77, 109) =~= h.subrange(77, 109));
    assert(le_u64_at(raw, 5) == le_u64_at(h, 5));
    assert(le_u16_at(raw, 109) == le_u16_at(h, 109));
    assert(le_u16_at(raw, 112) == le_u16_at(h, 112));
    // trailer: the last 13 bytes
    assert forall|i: int| 0 <= i < 13 implies #[trigger] raw[ts + i] == t[i] by {}
    assert(trailer_field(raw, 0) == le_u16_at(t, 0));
    assert(trailer_field(raw, 1) == le_u16_at(t, 2));
    assert(trailer_field(raw, 2) == le_u16_at(t, 4));
    assert(trailer_field(raw, 3) == le_u16_at(t, 6));
    assert(trailer_field(raw, 4) == le_u16_at(t, 8));
    assert(trailer_field(raw, 5) == le_u16_at(t, 10));
    assert(raw[len - 1] == t[12]);
    // fields
    reveal_with_fuel(field_start, 8);
    let o1 = c.packed_z@.len() as int;
    let o2 = o1 + c.packed_delta@.len();
    let o3 = o2 + c.encoded_c@.len();
    let o4 = o3 + hints_blob(c).len();
    let o5 = o4 + c.pk_hash@.len();
    let o6 = o5 + rows.len();
    assert(field_start(raw, 7) == 114 + f.len());
    lemma_sub_middle(h, f, t, 0, o1);
    lemma_sub_middle(h, f, t, o1, o2);
    lemma_sub_middle(h, f, t, o2, o3);
    lemma_sub_middle(h, f, t, o3, o4);
    lemma_sub_middle(h, f, t, o4, o5);
    lemma_sub_middle(h, f, t, o6, f.len() as int);
    assert(field_bytes(raw, 0) == c.packed_z@);
    assert(field_bytes(raw, 1) == c.packed_delta@);
    assert(field_bytes(raw, 2) == c.encoded_c@);
    assert(field_bytes(raw, 3) == hints_blob(c));
    assert(field_bytes(raw, 4) == c.pk_hash@);
    assert(field_bytes(raw, 6) == param_id_bytes(c));
    vstd::utf8::encode_utf8_valid_utf8(c.parameter_set_id@);
    vstd::utf8::encode_utf8_decode_utf8(c.parameter_set_id@);
    assert forall|u: int| 0 <= u < c.witness_rows@.len() implies #[trigger] c.witness_rows@[u] == field_row(raw, u) by {
        lemma_sub_middle(h, f, t, o5 + 2 * u, o5 + 2 * u + 2);
        assert(f.subrange(o5 + 2 * u, o5 + 2 * u + 2) =~= rows.subrange(2 * u, 2 * u + 2)) by {
            assert(f.subrange(o5, o6) == rows);
        }
        lemma_le16_roundtrip(c.witness_rows@[u] as int, raw, 114 + o5 + 2 * u);
    }
}

/// The two signatures hold the same field values.
pub open spec fn same_content(a: CompressedFirewallSignature, b: CompressedFirewallSignature) -> bool {
    &&& a.packed_z@ == b.packed_z@
    &&& a.encoded_c@ == b.encoded_c@
    &&& a.packed_hints is Some <==> b.packed_hints is Some
    &&& (a.packed_hints is Some ==> a.packed_hints->Some_0@ == b.packed_hints->Some_0@)
    &&& a.packed_delta@ == b.packed_delta@
    &&& a.witness_rows@ == b.witness_rows@
    &&& a.policy_digest@ == b.policy_digest@
    &&& a.firewall_tag@ == b.firewall_tag@
    &&& a.parameter_set_id@ == b.parameter_set_id@
    &&& a.pk_hash@ == b.pk_hash@
    &&& a.crf_seed is None && b.crf_seed is None
    &&& a.tau == b.tau
    &&& a.gid@ == b.gid@
}

/// Deserializing what `serialize_compressed_signature` produced for a
/// representable signature succeeds, and gives the same fields back.
pub proof fn lemma_serialize_roundtrip(c: CompressedFirewallSignature, blob: Seq<u8>, c2: CompressedFirewallSignature)
    requires
        layout_representable(c),
        c.crf_seed is None,
        forall|limit: u64| #[trigger] zstd_decoded_prefix(blob, limit) == prefix_upto(compact_layout(c), limit),
        forall|limit: u64| #[trigger] zstd_decodes(blob, limit),
    ensures
        blob_layout(blob) == compact_layout(c),
        deserializes(blob),
        parsed_from(blob_layout(blob), c2) ==> same_content(c, c2),
{
    let raw = compact_layout(c);
    lemma_compact_layout_roundtrip(c);
    lemma_concat7(c.packed_z@, c.packed_delta@, c.encoded_c@, hints_blob(c), c.pk_hash@, u16_seq_bytes(c.witness_rows@),
        param_id_bytes(c));
    lemma_u16_seq_bytes(c.witness_rows@);
    lemma_layout_header(c);
    lemma_layout_trailer(c);
    lemma_layout_fields(c);
    assert(raw.len() <= MAX_DECOMPRESSED_SIZE);
    assert(zstd_decoded_prefix(blob, (MAX_DECOMPRESSED_SIZE + 1) as u64) == prefix_upto(raw, (MAX_DECOMPRESSED_SIZE + 1) as u64));
    assert(zstd_decodes(blob, (MAX_DECOMPRESSED_SIZE + 1) as u64));
    if parsed_from(blob_layout(blob), c2) {
        assert(c2.witness_rows@ =~= c.witness_rows@);
    }
}

/// Byte counts of each part of the layout, and of its zstd frame.
pub struct LayoutBreakdown {
    pub header: usize,
    pub packed_z: usize,
    pub packed_delta: usize,
    pub encoded_c: usize,
    pub packed_hints: usize,
    pub pk_hash: usize,
    pub witness_rows: usize,
    pub param_id: usize,
    pub trailer: usize,
    pub raw_total: usize,
    pub zstd_compressed: usize,
}

/// Measure the parts of the layout of `compressed` and the size of its zstd frame.
pub fn measure_layout(compressed: &CompressedFirewallSignature) -> (r: PabsCrfResult<LayoutBreakdown>)
    requires
        HEADER_SIZE + compressed.packed_z@.len() + compressed.packed_delta@.len() + compressed.encoded_c@.len()
            + hints_blob(*compressed).len() + compressed.pk_hash@.len() + 2 * compressed.witness_rows@.len()
            + param_id_bytes(*compressed).len() + TRAILER_SIZE <= usize::MAX,
    ensures
        r is Ok <==> zstd_encodes(compact_layout(*compressed), ZSTD_LEVEL),
        r matches Err(e) ==> e is CompressionError,
        r matches Ok(b) ==> {
            &&& b.zstd_compressed == zstd_frame(compact_layout(*compressed), ZSTD_LEVEL).len()
            &&& b.header == HEADER_SIZE
            &&& b.packed_z == compressed.packed_z@.len()
            &&& b.packed_delta == compressed.packed_delta@.len()
            &&& b.encoded_c == compressed.encoded_c@.len()
            &&& b.packed_hints == hints_blob(*compressed).len()
            &&& b.pk_hash == compressed.pk_hash@.len()
            &&& b.witness_rows == 2 * compressed.witness_rows@.len()
            &&& b.param_id == param_id_bytes(*compressed).len()
            &&& b.trailer == TRAILER_SIZE
            &&& b.raw_total == HEADER_SIZE + b.packed_z + b.packed_delta + b.encoded_c + b.packed_hints + b.pk_hash
                + b.witness_rows + b.param_id + TRAILER_SIZE
        },
{
    let empty: Vec<u8> = Vec::new();
    let hints_bytes: &[u8] = match &compressed.packed_hints {
        Some(h) => h.as_slice(),
        None => empty.as_slice(),
    };
    let param_id_bytes: &[u8] = compressed.parameter_set_id.as_str().as_bytes();
    let wr_count = compressed.witness_rows.len();
    let z = compressed.packed_z.len();
    let delta = compressed.packed_delta.len();
    let c = compressed.encoded_c.len();
    let hints = hints_bytes.len();
    let pkh = compressed.pk_hash.len();
    let wr = wr_count * 2;
    let pid = param_id_bytes.len();
    let raw_total = HEADER_SIZE + z + delta + c + hints + pkh + wr + pid + TRAILER_SIZE;
    let blob = match serialize_compressed_signature(compressed) {
        Ok(b) => b,
        Err(e) => {
            return Err(e);
        },
    };
    Ok(LayoutBreakdown {
        header: HEADER_SIZE,
        packed_z: z,
        packed_delta: delta,
        encoded_c: c,
        packed_hints: hints,
        pk_hash: pkh,
        witness_rows: wr,
        param_id: pid,
        trailer: TRAILER_SIZE,
        raw_total,
        zstd_compressed: blob.len(),
    })
}

// ---------------------------------------------------------------------------
// Firewall signature <-> transport object
// ---------------------------------------------------------------------------

/// Every coefficient centered into `(-q/2, q/2]`.
pub open spec fn centered_vec(v: Seq<Seq<i32>>, q: int) -> Seq<Seq<i32>> {
    Seq::new(v.len(), |j: int| center_i32_seq(v[j], q))
}

/// The transport object `compress_firewall_signature` makes.
pub open spec fn compressed_from(
    signature: FirewallSignature,
    witness_rows: Seq<u16>,
    params: MLWEParameters,
    c: CompressedFirewallSignature,
) -> bool {
    &&& c.packed_z@ == packed_z(centered_vec(signature.z@, params.q as int), params.gamma1)
    &&& c.encoded_c@ == encoded_challenge(signature.challenge@)
    &&& (match signature.hints {
        Some(h) => c.packed_hints matches Some(b) && b@ == packed_hints(h@),
        None => c.packed_hints is None,
    })
    &&& c.packed_delta@ == packed_mod_q(signature.firewall_delta@, params.q)
    &&& c.witness_rows@ == witness_rows
    &&& c.policy_digest@ == signature.policy_digest@
    &&& c.firewall_tag@ == signature.firewall_tag@
    &&& c.parameter_set_id@ == signature.parameter_set_id@
    &&& c.pk_hash@ == signature.pk_hash@
    &&& c.crf_seed is None
    &&& c.tau == signature.tau
    &&& c.gid == signature.gid
}

fn centered_vector(v: &PolynomialVector, q: u32) -> (r: PolynomialVector)
    requires
        q >= 1,
    ensures
        r@ == centered_vec(v@, q as int),
{
    let r = v.center_coefficients(q);
    assert(r@ =~= centered_vec(v@, q as int)) by {
        assert forall|j: int| 0 <= j < r@.len() implies #[trigger] r@[j] == centered_vec(v@, q as int)[j] by {
            assert(r@[j] =~= center_i32_seq(v@[j], q as int));
        }
    }
    r
}

/// Compress a firewall signature into the transport object: `z` centered and
/// bit-packed, the challenge sparse-encoded, hints and `delta` packed.
pub fn compress_firewall_signature(
    signature: &FirewallSignature,
    witness_rows: Vec<u16>,
    params: &MLWEParameters,
) -> (c: CompressedFirewallSignature)
    requires
        valid_q(params.q),
        params.gamma1 < 0x8000_0000,
        z_fits(centered_vec(signature.z@, params.q as int), params.gamma1),
    ensures
        compressed_from(*signature, witness_rows@, *params, c),
{
    let z_centered = centered_vector(&signature.z, params.q);
    let packed_hints = match &signature.hints {
        Some(h) => Some(pack_hints(h)),
        None => None,
    };
    CompressedFirewallSignature {
        packed_z: pack_z(&z_centered, params.gamma1, params.n),
        encoded_c: encode_challenge(&signature.challenge, params.n),
        packed_hints,
        packed_delta: pack_polyvec_mod_q(&signature.firewall_delta, params.q),
        witness_rows,
        policy_digest: vstd::slice::slice_to_vec(signature.policy_digest.as_slice()),
        firewall_tag: vstd::slice::slice_to_vec(signature.firewall_tag.as_slice()),
        parameter_set_id: signature.parameter_set_id.clone(),
        pk_hash: vstd::slice::slice_to_vec(signature.pk_hash.as_slice()),
        crf_seed: None,
        tau: signature.tau,
        gid: signature.gid,
    }
}

/// What `decompress_firewall_signature` needs of the parameters.
pub open spec fn decompress_params_ok(params: MLWEParameters) -> bool {
    &&& valid_q(params.q)
    &&& params.gamma1 < 0x4000_0000
    &&& params.m * params.n * 32 + 7 <= usize::MAX
    &&& params.k * params.n * 32 + 7 <= usize::MAX
}

/// The parts of a transport object that decompress without error.
pub open spec fn decompressible(c: CompressedFirewallSignature, params: MLWEParameters) -> bool {
    &&& c.packed_z@.len() >= bytes_for_bits(spec_z_bits(params.gamma1) * (params.m * params.n))
    &&& (c.packed_hints matches Some(b) ==> hint_blob_valid(b@, params.k as int, params.n as int))
    &&& c.packed_delta@.len() >= bytes_for_bits(q_bits(params.q) * (params.k * params.n))
}

/// The firewall signature rebuilt from a transport object and the public
/// policy, message hash and witness attributes.
pub open spec fn decompressed_from(
    c: CompressedFirewallSignature,
    policy: Policy,
    message_hash: Seq<u8>,
    attributes_used: Seq<String>,
    params: MLWEParameters,
    sig: FirewallSignature,
) -> bool {
    let (m, k, n, q) = (params.m as int, params.k as int, params.n as int, params.q as int);
    &&& sig.z@.len() == m
    &&& vec_uniform(sig.z@, n)
    &&& forall|i: int, j: int| 0 <= i < m && 0 <= j < n ==> #[trigger] sig.z@[i][j]
        == (unpacked_value(c.packed_z@, spec_z_bits(params.gamma1), i * n + j) - params.gamma1) % q
    &&& sig.challenge@.len() == n
    &&& forall|i: int| 0 <= i < n ==> #[trigger] sig.challenge@[i] == decoded_coeff(c.encoded_c@, i)
    &&& (match c.packed_hints {
        Some(b) => sig.hints matches Some(h) && h@.len() == k && (forall|i: int| 0 <= i < k ==> (#[trigger] h@[i]).len()
            == n) && forall|i: int, j: int| 0 <= i < k && 0 <= j < n ==> #[trigger] h@[i][j] == if hint_blob_has(
            b@,
            i,
            j,
        ) {
            1i32
        } else {
            0i32
        },
        None => sig.hints is None,
    })
    &&& sig.policy@ == policy@
    &&& sig.message_hash@ == message_hash
    &&& sig.attributes_used@ == attributes_used
    &&& sig.policy_digest@ == c.policy_digest@
    &&& sig.firewall_delta@.len() == k
    &&& vec_uniform(sig.firewall_delta@, n)
    &&& forall|i: int, j: int| 0 <= i < k && 0 <= j < n ==> #[trigger] sig.firewall_delta@[i][j] == unpacked_value(
        c.packed_delta@,
        q_bits(params.q),
        i * n + j,
    )
    &&& sig.firewall_tag@ == c.firewall_tag@
    &&& sig.parameter_set_id@ == c.parameter_set_id@
    &&& sig.pk_hash@ == c.pk_hash@
    &&& sig.crf_seed is None
    &&& sig.tau == c.tau
    &&& sig.gid == c.gid
}

/// Rebuild a firewall signature from its transport object. The first field
/// that does not unpack decides the error: `z` and `delta` give a
/// serialization error, the hints a deserialization error.
pub fn decompress_firewall_signature(
    compressed: &CompressedFirewallSignature,
    policy: Policy,
    message_hash: Vec<u8>,
    attributes_used: Vec<String>,
    params: &MLWEParameters,
) -> (r: PabsCrfResult<FirewallSignature>)
    requires
        decompress_params_ok(*params),
        challenge_blob_ok(compressed.encoded_c@, params.n as int),
    ensures
        r is Ok <==> decompressible(*compressed, *params),
        r matches Err(e) ==> {
            if compressed.packed_z@.len() < bytes_for_bits(spec_z_bits(params.gamma1) * (params.m * params.n)) {
                e is SerializationError
            } else if compressed.packed_hints matches Some(b) && !hint_blob_valid(b@, params.k as int, params.n as int) {
                e is DeserializationError
            } else {
                e is SerializationError
            }
        },
        r matches Ok(sig) ==> decompressed_from(*compressed, policy, message_hash@, attributes_used@, *params, sig),
{
    let z_centered = match unpack_z(compressed.packed_z.as_slice(), params.m, params.n, params.gamma1) {
        Ok(v) => v,
        Err(e) => {
            return Err(e);
        },
    };
    let z = reduce_vector(&z_centered, params.q);
    let challenge = decode_challenge(compressed.encoded_c.as_slice(), params.n);
    let hints = match &compressed.packed_hints {
        Some(blob) => match unpack_hints(blob.as_slice(), params.k, params.n) {
            Ok(h) => Some(h),
            Err(e) => {
                return Err(e);
            },
        },
        None => None,
    };
    let firewall_delta = match unpack_polyvec_mod_q(compressed.packed_delta.as_slice(), params.k, params.n, params.q) {
        Ok(v) => v,
        Err(e) => {
            return Err(e);
        },
    };
    Ok(FirewallSignature {
        z,
        challenge,
        hints,
        policy,
        message_hash,
        attributes_used,
        policy_digest: vstd::slice::slice_to_vec(compressed.policy_digest.as_slice()),
        firewall_delta,
        firewall_tag: vstd::slice::slice_to_vec(compressed.firewall_tag.as_slice()),
        parameter_set_id: compressed.parameter_set_id.clone(),
        pk_hash: vstd::slice::slice_to_vec(compressed.pk_hash.as_slice()),
        crf_seed: None,
        tau: compressed.tau,
        gid: compressed.gid,
    })
}

/// Every coefficient reduced into `[0, q)`, shapes kept.
fn reduce_vector(v: &PolynomialVector, q: u32) -> (r: PolynomialVector)
    requires
        valid_q(q),
    ensures
        r@.len() == v@.len(),
        forall|j: int| 0 <= j < v@.len() ==> (#[trigger] r@[j]).len() == v@[j].len(),
        forall|j: int, i: int| 0 <= j < v@.len() && 0 <= i < v@[j].len() ==> #[trigger] r@[j][i] == (v@[j][i] as int)
            % (q as int),
{
    let mut elements: Vec<Polynomial> = Vec::with_capacity(v.elements.len());
    let mut j: usize = 0;
    while j < v.elements.len()
        invariant
            valid_q(q),
            j <= v@.len(),
            elements@.len() == j,
            forall|t: int| 0 <= t < j ==> (#[trigger] elements@[t])@.len() == v@[t].len(),
            forall|t: int, i: int| 0 <= t < j && 0 <= i < v@[t].len() ==> #[trigger] elements@[t]@[i] == (v@[t][i] as int)
                % (q as int),
        decreases v@.len() - j,
    {
        elements.push(Polynomial::from_coeffs(v.elements[j].coeffs.as_slice(), q));
        j += 1;
    }
    PolynomialVector { elements }
}

} // verus!
