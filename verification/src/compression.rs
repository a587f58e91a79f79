//! Signature compression: bit-packing of the response vector, sparse
//! encodings of the challenge and of the hint vector, and lossless packing of
//! vectors reduced mod `q`.
use vstd::prelude::*;
use crate::codec::{le16, le32, le_u16_at, le_u32_at, push_u16_le, push_u32_le, read_u16_le_at, read_u32_le_at};
use crate::errors::PabsCrfError;
use crate::bitpack::{
    bit_len, bit_length, bytes_for_bits, le_bytes, lemma_bit_len, lemma_pack_roundtrip, pack_values, packed_int,
    unpack_values, unpacked_value, vals_fit,
};
use crate::mlwe::{mod_reduce, valid_q, vec_uniform, Polynomial, PolynomialVector};
use vstd::arithmetic::power2::pow2;

verus! {

// ---------------------------------------------------------------------------
// Sparse hint vectors
// ---------------------------------------------------------------------------

/// Positions `(i, j)` with a non-zero coefficient in the first `upto` entries of row `i`.
pub open spec fn row_entries(row: Seq<i32>, i: int, upto: int) -> Seq<(int, int)>
    decreases upto,
{
    if upto <= 0 {
        seq![]
    } else {
        row_entries(row, i, upto - 1) + if row[upto - 1] != 0 { seq![(i, upto - 1)] } else { seq![] }
    }
}

/// Positions of the non-zero coefficients of the first `upto` polynomials, row-major.
pub open spec fn hint_entries(h: Seq<Seq<i32>>, upto: int) -> Seq<(int, int)>
    decreases upto,
{
    if upto <= 0 {
        seq![]
    } else {
        hint_entries(h, upto - 1) + row_entries(h[upto - 1], upto - 1, h[upto - 1].len() as int)
    }
}

/// Each position as two little-endian `u16` values (indices truncated to 16 bits).
pub open spec fn entries_bytes(e: Seq<(int, int)>) -> Seq<u8>
    decreases e.len(),
{
    if e.len() == 0 {
        seq![]
    } else {
        entries_bytes(e.drop_last()) + le16(e.last().0 % 0x10000) + le16(e.last().1 % 0x10000)
    }
}

/// The packed form of a hint vector: a `u32` count followed by the positions.
pub open spec fn packed_hints(h: Seq<Seq<i32>>) -> Seq<u8> {
    let e = hint_entries(h, h.len() as int);
    le32((e.len() % 0x1_0000_0000) as int) + entries_bytes(e)
}

/// Number of entries announced by a packed hint blob.
pub open spec fn hint_blob_count(data: Seq<u8>) -> int {
    le_u32_at(data, 0)
}

/// Entry `e` of a packed hint blob.
pub open spec fn hint_blob_entry(data: Seq<u8>, e: int) -> (int, int) {
    (le_u16_at(data, 4 + 4 * e), le_u16_at(data, 6 + 4 * e))
}

/// A packed hint blob that `unpack_hints` accepts for a `k x n` hint vector.
pub open spec fn hint_blob_valid(data: Seq<u8>, k: int, n: int) -> bool {
    &&& data.len() >= 4
    &&& hint_blob_count(data) * 4 + 4 <= data.len()
    &&& forall|e: int| 0 <= e < hint_blob_count(data) ==> (#[trigger] hint_blob_entry(data, e)).0 < k
        && hint_blob_entry(data, e).1 < n
}

/// Position `(i, j)` is listed in the blob.
pub open spec fn hint_blob_has(data: Seq<u8>, i: int, j: int) -> bool {
    exists|e: int| 0 <= e < hint_blob_count(data) && #[trigger] hint_blob_entry(data, e) == (i, j)
}

proof fn lemma_entries_bytes_len(e: Seq<(int, int)>)
    ensures
        entries_bytes(e).len() == 4 * e.len(),
    decreases e.len(),
{
    if e.len() > 0 {
        lemma_entries_bytes_len(e.drop_last());
    }
}

proof fn lemma_entries_bytes_push(e: Seq<(int, int)>, x: (int, int))
    ensures
        entries_bytes(e.push(x)) == entries_bytes(e) + le16(x.0 % 0x10000) + le16(x.1 % 0x10000),
{
    assert(e.push(x).drop_last() =~= e);
}

proof fn lemma_entries_bytes_at(e: Seq<(int, int)>, t: int)
    requires
        0 <= t < e.len(),
    ensures
        le_u16_at(entries_bytes(e), 4 * t) == e[t].0 % 0x10000,
        le_u16_at(entries_bytes(e), 4 * t + 2) == e[t].1 % 0x10000,
    decreases e.len(),
{
    lemma_entries_bytes_len(e);
    lemma_entries_bytes_len(e.drop_last());
    let prefix = entries_bytes(e.drop_last());
    if t < e.len() - 1 {
        lemma_entries_bytes_at(e.drop_last(), t);
        assert(entries_bytes(e)[4 * t] == prefix[4 * t]);
        assert(entries_bytes(e)[4 * t + 1] == prefix[4 * t + 1]);
        assert(entries_bytes(e)[4 * t + 2] == prefix[4 * t + 2]);
        assert(entries_bytes(e)[4 * t + 3] == prefix[4 * t + 3]);
    } else {
        let x = e.last();
        vstd::arithmetic::div_mod::lemma_mod_bound(x.0, 0x10000);
        vstd::arithmetic::div_mod::lemma_mod_bound(x.1, 0x10000);
        assert(entries_bytes(e)[4 * t] == le16(x.0 % 0x10000)[0]);
        assert(entries_bytes(e)[4 * t + 1] == le16(x.0 % 0x10000)[1]);
        assert(entries_bytes(e)[4 * t + 2] == le16(x.1 % 0x10000)[0]);
        assert(entries_bytes(e)[4 * t + 3] == le16(x.1 % 0x10000)[1]);
    }
}

proof fn lemma_row_entries_member(row: Seq<i32>, i: int, upto: int, a: int, b: int)
    requires
        0 <= upto <= row.len(),
    ensures
        row_entries(row, i, upto).contains((a, b)) <==> (a == i && 0 <= b < upto && row[b] != 0),
        forall|t: int| 0 <= t < row_entries(row, i, upto).len() ==> 0 <= (#[trigger] row_entries(row, i, upto)[t]).1 < upto
            && row_entries(row, i, upto)[t].0 == i,
    decreases upto,
{
    if upto > 0 {
        lemma_row_entries_member(row, i, upto - 1, a, b);
        let prev = row_entries(row, i, upto - 1);
        if row[upto - 1] != 0 {
            assert(row_entries(row, i, upto) == prev.push((i, upto - 1)));
            if a == i && b == upto - 1 {
                assert(row_entries(row, i, upto)[prev.len() as int] == (a, b));
            }
            if row_entries(row, i, upto).contains((a, b)) {
                let t = choose|t: int| 0 <= t < row_entries(row, i, upto).len() && row_entries(row, i, upto)[t] == (a, b);
                if t < prev.len() {
                    assert(prev[t] == (a, b));
                }
            }
            if prev.contains((a, b)) {
                let t = choose|t: int| 0 <= t < prev.len() && prev[t] == (a, b);
                assert(row_entries(row, i, upto)[t] == (a, b));
            }
        } else {
            assert(row_entries(row, i, upto) =~= prev);
        }
    }
}

proof fn lemma_hint_entries_member(h: Seq<Seq<i32>>, upto: int, a: int, b: int)
    requires
        0 <= upto <= h.len(),
    ensures
        hint_entries(h, upto).contains((a, b)) <==> (0 <= a < upto && 0 <= b < h[a].len() && h[a][b] != 0),
        forall|t: int| 0 <= t < hint_entries(h, upto).len() ==> 0 <= (#[trigger] hint_entries(h, upto)[t]).0 < upto
            && 0 <= hint_entries(h, upto)[t].1 < h[hint_entries(h, upto)[t].0].len(),
    decreases upto,
{
    if upto > 0 {
        lemma_hint_entries_member(h, upto - 1, a, b);
        let prev = hint_entries(h, upto - 1);
        let r = row_entries(h[upto - 1], upto - 1, h[upto - 1].len() as int);
        lemma_row_entries_member(h[upto - 1], upto - 1, h[upto - 1].len() as int, a, b);
        let all = hint_entries(h, upto);
        assert(all == prev + r);
        if all.contains((a, b)) {
            let t = choose|t: int| 0 <= t < all.len() && all[t] == (a, b);
            if t < prev.len() {
                assert(prev[t] == (a, b));
            } else {
                assert(r[t - prev.len()] == (a, b));
            }
        }
        if prev.contains((a, b)) {
            let t = choose|t: int| 0 <= t < prev.len() && prev[t] == (a, b);
            assert(all[t] == (a, b));
        }
        if r.contains((a, b)) {
            let t = choose|t: int| 0 <= t < r.len() && r[t] == (a, b);
            assert(all[prev.len() + t] == (a, b));
        }
        assert forall|t: int| 0 <= t < all.len() implies 0 <= (#[trigger] all[t]).0 < upto
            && 0 <= all[t].1 < h[all[t].0].len() by {
            if t < prev.len() {
                assert(all[t] == prev[t]);
            } else {
                assert(all[t] == r[t - prev.len()]);
            }
        }
    }
}

/// Pack a sparse binary hint vector: a `u32` count, then `(poly, coeff)` index pairs.
pub fn pack_hints(hints: &PolynomialVector) -> (out: Vec<u8>)
    ensures
        out@ == packed_hints(hints@),
{
    let ghost h = hints@;
    let mut body: Vec<u8> = Vec::new();
    let mut i: usize = 0;
    while i < hints.elements.len()
        invariant
            h == hints@,
            i <= h.len(),
            body@ == entries_bytes(hint_entries(h, i as int)),
        decreases h.len() - i,
    {
        let poly = &hints.elements[i];
        assert(poly@ == h[i as int]);
        let mut j: usize = 0;
        while j < poly.coeffs.len()
            invariant
                h == hints@,
                i < h.len(),
                poly@ == h[i as int],
                j <= poly@.len(),
                body@ == entries_bytes(hint_entries(h, i as int) + row_entries(h[i as int], i as int, j as int)),
            decreases poly@.len() - j,
        {
            let ghost before = hint_entries(h, i as int) + row_entries(h[i as int], i as int, j as int);
            if poly.coeffs[j] != 0 {
                proof {
                    lemma_entries_bytes_push(before, (i as int, j as int));
                    assert(hint_entries(h, i as int) + row_entries(h[i as int], i as int, j + 1)
                        =~= before.push((i as int, j as int)));
                }
                push_u16_le(&mut body, (i % 0x10000) as u16);
                push_u16_le(&mut body, (j % 0x10000) as u16);
            } else {
                assert(hint_entries(h, i as int) + row_entries(h[i as int], i as int, j + 1) =~= before);
            }
            j += 1;
        }
        assert(hint_entries(h, i + 1) == hint_entries(h, i as int) + row_entries(h[i as int], i as int, h[i as int].len() as int));
        i += 1;
    }
    proof {
        lemma_entries_bytes_len(hint_entries(h, h.len() as int));
    }
    let count = body.len() / 4;
    let mut out: Vec<u8> = Vec::new();
    push_u32_le(&mut out, (count as u64 % 0x1_0000_0000) as u32);
    crate::codec::extend_bytes(&mut out, body.as_slice());
    out
}


proof fn lemma_row_entries_len(row: Seq<i32>, i: int, upto: int)
    requires
        0 <= upto,
    ensures
        row_entries(row, i, upto).len() <= upto,
    decreases upto,
{
    if upto > 0 {
        lemma_row_entries_len(row, i, upto - 1);
    }
}

proof fn lemma_entries_count_bound(h: Seq<Seq<i32>>, k: int, n: int, upto: int)
    requires
        0 <= upto <= h.len(),
        0 <= n,
        forall|i: int| 0 <= i < h.len() ==> (#[trigger] h[i]).len() == n,
    ensures
        hint_entries(h, upto).len() <= upto * n,
    decreases upto,
{
    if upto > 0 {
        lemma_entries_count_bound(h, k, n, upto - 1);
        lemma_row_entries_len(h[upto - 1], upto - 1, h[upto - 1].len() as int);
        assert(upto * n == (upto - 1) * n + n) by (nonlinear_arith);
    }
}

/// Position `(i, j)` is among the first `upto` entries of the blob.
pub open spec fn hint_blob_has_upto(data: Seq<u8>, i: int, j: int, upto: int) -> bool {
    exists|e: int| 0 <= e < upto && #[trigger] hint_blob_entry(data, e) == (i, j)
}

/// Unpack a sparse binary hint vector into `k` polynomials of `n` coefficients.
pub fn unpack_hints(data: &[u8], k: usize, n: usize) -> (r: Result<PolynomialVector, PabsCrfError>)
    ensures
        r is Ok <==> hint_blob_valid(data@, k as int, n as int),
        r matches Err(e) ==> e is DeserializationError,
        r matches Ok(v) ==> {
            &&& v@.len() == k
            &&& forall|i: int| 0 <= i < k ==> (#[trigger] v@[i]).len() == n
            &&& forall|i: int, j: int| 0 <= i < k && 0 <= j < n ==> #[trigger] v@[i][j]
                == if hint_blob_has(data@, i, j) { 1i32 } else { 0i32 }
        },
{
    if data.len() < 4 {
        return Err(PabsCrfError::DeserializationError("unpack_hints: data too short for length header".to_string()));
    }
    let len = read_u32_le_at(data, 0) as usize;
    if len > (data.len() - 4) / 4 {
        return Err(PabsCrfError::DeserializationError("unpack_hints: data truncated".to_string()));
    }
    let mut hints = PolynomialVector::new(k, n);
    let mut cursor: usize = 4;
    let mut e: usize = 0;
    let dlen = data.len();
    while e < len
        invariant
            dlen == data@.len(),
            data@.len() >= 4,
            len == hint_blob_count(data@),
            len * 4 + 4 <= data@.len(),
            e <= len,
            cursor == 4 + 4 * e,
            forall|t: int| 0 <= t < e ==> (#[trigger] hint_blob_entry(data@, t)).0 < k && hint_blob_entry(data@, t).1 < n,
            hints@.len() == k,
            forall|i: int| 0 <= i < k ==> (#[trigger] hints@[i]).len() == n,
            forall|i: int, j: int| 0 <= i < k && 0 <= j < n ==> #[trigger] hints@[i][j]
                == if hint_blob_has_upto(data@, i, j, e as int) { 1i32 } else { 0i32 },
        decreases len - e,
    {
        let poly_idx = read_u16_le_at(data, cursor) as usize;
        let coeff_idx = read_u16_le_at(data, cursor + 2) as usize;
        assert(hint_blob_entry(data@, e as int) == (poly_idx as int, coeff_idx as int));
        if poly_idx >= k || coeff_idx >= n {
            return Err(PabsCrfError::DeserializationError("unpack_hints: index out of range".to_string()));
        }
        let ghost old_h = hints@;
        let ghost old_elems = hints.elements@;
        let mut poly = hints.elements[poly_idx].clone();
        assert(poly@ == old_h[poly_idx as int]);
        poly.coeffs.set(coeff_idx, 1);
        hints.elements.set(poly_idx, poly);
        proof {
            assert forall|i: int| 0 <= i < k implies (#[trigger] hints@[i]).len() == n by {
                assert(hints@[i] == hints.elements@[i]@);
                if i != poly_idx {
                    assert(hints.elements@[i] == old_elems[i]);
                    assert(old_h[i] == old_elems[i]@);
                }
            }
            assert forall|i: int, j: int| 0 <= i < k && 0 <= j < n implies #[trigger] hints@[i][j]
                == if hint_blob_has_upto(data@, i, j, e + 1) { 1i32 } else { 0i32 } by {
                assert(hints@[i] == hints.elements@[i]@);
                if i == poly_idx {
                    assert(hints.elements@[i]@ == old_h[i].update(coeff_idx as int, 1i32));
                } else {
                    assert(hints.elements@[i] == old_elems[i]);
                    assert(old_h[i] == old_elems[i]@);
                }
                if hint_blob_has_upto(data@, i, j, e + 1) && !hint_blob_has_upto(data@, i, j, e as int) {
                    let t = choose|t: int| 0 <= t < e + 1 && #[trigger] hint_blob_entry(data@, t) == (i, j);
                    assert(t == e);
                }
                if hint_blob_has_upto(data@, i, j, e as int) {
                    let t = choose|t: int| 0 <= t < e && #[trigger] hint_blob_entry(data@, t) == (i, j);
                    assert(hint_blob_has_upto(data@, i, j, e + 1));
                }
                if i == poly_idx && j == coeff_idx {
                    assert(hint_blob_entry(data@, e as int) == (i, j));
                }
            }
        }
        cursor += 4;
        e += 1;
    }
    proof {
        assert forall|i: int, j: int| hint_blob_has_upto(data@, i, j, len as int) == hint_blob_has(data@, i, j) by {}
    }
    Ok(hints)
}

/// Unpacking a packed hint vector recovers exactly its support: a coefficient of the
/// result is 1 where the original coefficient is non-zero and 0 elsewhere.
pub proof fn lemma_hints_roundtrip(h: Seq<Seq<i32>>, k: int, n: int)
    requires
        h.len() == k,
        forall|i: int| 0 <= i < k ==> (#[trigger] h[i]).len() == n,
        0 <= k <= 0x10000,
        0 <= n <= 0x10000,
        k * n < 0x1_0000_0000,
    ensures
        hint_blob_valid(packed_hints(h), k, n),
        forall|i: int, j: int| 0 <= i < k && 0 <= j < n ==>
            (hint_blob_has(packed_hints(h), i, j) <==> #[trigger] h[i][j] != 0),
{
    let e = hint_entries(h, k);
    let data = packed_hints(h);
    lemma_entries_bytes_len(e);
    assert forall|a: int, b: int| #![trigger e.contains((a, b))] e.contains((a, b)) <==> (0 <= a < k && 0 <= b < h[a].len() && h[a][b] != 0) by {
        lemma_hint_entries_member(h, k, a, b);
    }
    lemma_hint_entries_member(h, k, 0, 0);
    // every entry has both indices below 2^16, so k * n bounds the count
    assert(e.len() <= k * n) by {
        lemma_entries_count_bound(h, k, n, k);
    }
    let cnt = e.len() as int;
    let header = le32((e.len() % 0x1_0000_0000) as int);
    assert(data == header + entries_bytes(e));
    assert(data.subrange(0, 4) =~= header);
    assert(hint_blob_count(data) == cnt) by {
        vstd::arithmetic::div_mod::lemma_small_mod(cnt as nat, 0x1_0000_0000);
        crate::codec::lemma_le32_roundtrip(cnt, data, 0);
    }
    assert forall|t: int| 0 <= t < cnt implies #[trigger] hint_blob_entry(data, t) == e[t] by {
        lemma_entries_bytes_at(e, t);
        let body = entries_bytes(e);
        assert(data[4 + 4 * t] == body[4 * t]);
        assert(data[5 + 4 * t] == body[4 * t + 1]);
        assert(data[6 + 4 * t] == body[4 * t + 2]);
        assert(data[7 + 4 * t] == body[4 * t + 3]);
        assert(e[t].0 % 0x10000 == e[t].0) by {
            vstd::arithmetic::div_mod::lemma_small_mod(e[t].0 as nat, 0x10000);
        }
        assert(e[t].1 % 0x10000 == e[t].1) by {
            vstd::arithmetic::div_mod::lemma_small_mod(e[t].1 as nat, 0x10000);
        }
    }
    assert forall|i: int, j: int| 0 <= i < k && 0 <= j < n implies
        (hint_blob_has(data, i, j) <==> #[trigger] h[i][j] != 0) by {
        if h[i][j] != 0 {
            assert(e.contains((i, j)));
            let t = choose|t: int| 0 <= t < e.len() && e[t] == (i, j);
            assert(hint_blob_entry(data, t) == (i, j));
        }
        if hint_blob_has(data, i, j) {
            let t = choose|t: int| 0 <= t < cnt && #[trigger] hint_blob_entry(data, t) == (i, j);
            assert(e[t] == (i, j));
            assert(e.contains((i, j)));
        }
    }
}


// ---------------------------------------------------------------------------
// Sparse challenges
// ---------------------------------------------------------------------------

/// Indices `i < upto` with `c[i] == v`, in increasing order.
pub open spec fn positions(c: Seq<i32>, v: i32, upto: int) -> Seq<int>
    decreases upto,
{
    if upto <= 0 {
        seq![]
    } else {
        positions(c, v, upto - 1) + if c[upto - 1] == v { seq![upto - 1] } else { seq![] }
    }
}

/// Each index as a little-endian `u16` (truncated to 16 bits).
pub open spec fn u16s_bytes(s: Seq<int>) -> Seq<u8>
    decreases s.len(),
{
    if s.len() == 0 { seq![] } else { u16s_bytes(s.drop_last()) + le16(s.last() % 0x10000) }
}

/// Encoding of a sparse challenge: the number of `+1` coefficients (one byte),
/// the `+1` positions, then the `-1` positions.
pub open spec fn encoded_challenge(c: Seq<i32>) -> Seq<u8> {
    let pos = positions(c, 1, c.len() as int);
    let neg = positions(c, -1i32, c.len() as int);
    seq![(pos.len() % 256) as u8] + u16s_bytes(pos) + u16s_bytes(neg)
}

/// Number of `+1` positions announced by an encoded challenge.
pub open spec fn ch_pos_count(data: Seq<u8>) -> int {
    data[0] as int
}

/// Number of complete `-1` entries that follow the `+1` entries.
pub open spec fn ch_neg_count(data: Seq<u8>) -> int {
    (data.len() - 1 - 2 * ch_pos_count(data)) / 2
}

/// Position `e` among the `+1` entries.
pub open spec fn ch_pos_entry(data: Seq<u8>, e: int) -> int {
    le_u16_at(data, 1 + 2 * e)
}

/// Position `e` among the `-1` entries.
pub open spec fn ch_neg_entry(data: Seq<u8>, e: int) -> int {
    le_u16_at(data, 1 + 2 * ch_pos_count(data) + 2 * e)
}

/// An encoded challenge that `decode_challenge` can apply to `n` coefficients without
/// reading past the data or writing past the polynomial.
pub open spec fn challenge_blob_ok(data: Seq<u8>, n: int) -> bool {
    &&& data.len() >= 1
    &&& 1 + 2 * ch_pos_count(data) <= data.len()
    &&& forall|e: int| 0 <= e < ch_pos_count(data) ==> #[trigger] ch_pos_entry(data, e) < n
    &&& forall|e: int| 0 <= e < ch_neg_count(data) ==> #[trigger] ch_neg_entry(data, e) < n
}

/// Coefficient `i` of a decoded challenge: `-1` entries win over `+1` entries.
pub open spec fn decoded_coeff(data: Seq<u8>, i: int) -> i32 {
    if exists|e: int| 0 <= e < ch_neg_count(data) && #[trigger] ch_neg_entry(data, e) == i {
        -1i32
    } else if exists|e: int| 0 <= e < ch_pos_count(data) && #[trigger] ch_pos_entry(data, e) == i {
        1i32
    } else {
        0i32
    }
}

proof fn lemma_u16s_bytes_len(s: Seq<int>)
    ensures
        u16s_bytes(s).len() == 2 * s.len(),
    decreases s.len(),
{
    if s.len() > 0 {
        lemma_u16s_bytes_len(s.drop_last());
    }
}

proof fn lemma_u16s_bytes_at(s: Seq<int>, t: int)
    requires
        0 <= t < s.len(),
    ensures
        le_u16_at(u16s_bytes(s), 2 * t) == s[t] % 0x10000,
    decreases s.len(),
{
    lemma_u16s_bytes_len(s.drop_last());
    let prefix = u16s_bytes(s.drop_last());
    if t < s.len() - 1 {
        lemma_u16s_bytes_at(s.drop_last(), t);
        assert(u16s_bytes(s)[2 * t] == prefix[2 * t]);
        assert(u16s_bytes(s)[2 * t + 1] == prefix[2 * t + 1]);
    } else {
        vstd::arithmetic::div_mod::lemma_mod_bound(s.last(), 0x10000);
        assert(u16s_bytes(s)[2 * t] == le16(s.last() % 0x10000)[0]);
        assert(u16s_bytes(s)[2 * t + 1] == le16(s.last() % 0x10000)[1]);
    }
}

proof fn lemma_positions(c: Seq<i32>, v: i32, upto: int, x: int)
    requires
        0 <= upto <= c.len(),
    ensures
        positions(c, v, upto).contains(x) <==> (0 <= x < upto && c[x] == v),
        forall|t: int| 0 <= t < positions(c, v, upto).len() ==> 0 <= #[trigger] positions(c, v, upto)[t] < upto,
        positions(c, v, upto).len() <= upto,
    decreases upto,
{
    if upto > 0 {
        lemma_positions(c, v, upto - 1, x);
        let prev = positions(c, v, upto - 1);
        let all = positions(c, v, upto);
        if c[upto - 1] == v {
            assert(all == prev.push(upto - 1));
            if x == upto - 1 {
                assert(all[prev.len() as int] == x);
            }
        } else {
            assert(all =~= prev);
        }
        if all.contains(x) {
            let t = choose|t: int| 0 <= t < all.len() && all[t] == x;
            if t < prev.len() {
                assert(prev[t] == x);
            }
        }
        if prev.contains(x) {
            let t = choose|t: int| 0 <= t < prev.len() && prev[t] == x;
            assert(all[t] == x);
        }
    }
}

/// Encode a sparse challenge polynomial.
pub fn encode_challenge(c: &Polynomial, _n: usize) -> (out: Vec<u8>)
    ensures
        out@ == encoded_challenge(c@),
{
    let ghost cs = c@;
    let mut pos_bytes: Vec<u8> = Vec::new();
    let mut neg_bytes: Vec<u8> = Vec::new();
    let mut i: usize = 0;
    while i < c.coeffs.len()
        invariant
            cs == c@,
            i <= cs.len(),
            pos_bytes@ == u16s_bytes(positions(cs, 1, i as int)),
            neg_bytes@ == u16s_bytes(positions(cs, -1i32, i as int)),
        decreases cs.len() - i,
    {
        let coeff = c.coeffs[i];
        let ghost p = positions(cs, 1, i as int);
        let ghost m = positions(cs, -1i32, i as int);
        if coeff == 1 {
            push_u16_le(&mut pos_bytes, (i % 0x10000) as u16);
            assert(positions(cs, 1, i + 1) == p.push(i as int));
            assert(p.push(i as int).drop_last() =~= p);
            assert(positions(cs, -1i32, i + 1) =~= m);
        } else if coeff == -1 {
            push_u16_le(&mut neg_bytes, (i % 0x10000) as u16);
            assert(positions(cs, -1i32, i + 1) == m.push(i as int));
            assert(m.push(i as int).drop_last() =~= m);
            assert(positions(cs, 1, i + 1) =~= p);
        } else {
            assert(positions(cs, 1, i + 1) =~= p);
            assert(positions(cs, -1i32, i + 1) =~= m);
        }
        i += 1;
    }
    proof {
        lemma_u16s_bytes_len(positions(cs, 1, cs.len() as int));
    }
    let pos_len = pos_bytes.len() / 2;
    let mut out: Vec<u8> = Vec::new();
    out.push((pos_len % 256) as u8);
    crate::codec::extend_bytes(&mut out, pos_bytes.as_slice());
    crate::codec::extend_bytes(&mut out, neg_bytes.as_slice());
    assert(out@ =~= encoded_challenge(cs));
    out
}

/// Whether `decode_challenge` can apply `data` to `n` coefficients: the
/// announced `+1` entries are present and every index is below `n`.
pub fn challenge_blob_valid(data: &[u8], n: usize) -> (b: bool)
    ensures
        b == challenge_blob_ok(data@, n as int),
{
    let dlen = data.len();
    if dlen < 1 {
        return false;
    }
    let pos_len = data[0] as usize;
    if 1 + 2 * pos_len > dlen {
        return false;
    }
    let mut e: usize = 0;
    while e < pos_len
        invariant
            dlen == data@.len(),
            dlen >= 1,
            pos_len == ch_pos_count(data@),
            1 + 2 * pos_len <= dlen,
            e <= pos_len,
            forall|t: int| 0 <= t < e ==> #[trigger] ch_pos_entry(data@, t) < n,
        decreases pos_len - e,
    {
        let idx = read_u16_le_at(data, 1 + 2 * e) as usize;
        assert(idx == ch_pos_entry(data@, e as int));
        if idx >= n {
            return false;
        }
        e += 1;
    }
    let neg_len = (dlen - 1 - 2 * pos_len) / 2;
    assert(neg_len == ch_neg_count(data@));
    let mut f: usize = 0;
    while f < neg_len
        invariant
            dlen == data@.len(),
            dlen >= 1,
            pos_len == ch_pos_count(data@),
            1 + 2 * pos_len <= dlen,
            neg_len == ch_neg_count(data@),
            f <= neg_len,
            forall|t: int| 0 <= t < pos_len ==> #[trigger] ch_pos_entry(data@, t) < n,
            forall|t: int| 0 <= t < f ==> #[trigger] ch_neg_entry(data@, t) < n,
        decreases neg_len - f,
    {
        let idx = read_u16_le_at(data, 1 + 2 * pos_len + 2 * f) as usize;
        assert(idx == ch_neg_entry(data@, f as int));
        if idx >= n {
            return false;
        }
        f += 1;
    }
    true
}

/// Decode a sparse challenge polynomial with `n` coefficients.
pub fn decode_challenge(data: &[u8], n: usize) -> (p: Polynomial)
    requires
        challenge_blob_ok(data@, n as int),
    ensures
        p@.len() == n,
        forall|i: int| 0 <= i < n ==> #[trigger] p@[i] == decoded_coeff(data@, i),
{
    let mut coeffs: Vec<i32> = Polynomial::new(n).coeffs;
    let pos_len = data[0] as usize;
    let dlen = data.len();
    let mut cursor: usize = 1;
    let mut e: usize = 0;
    while e < pos_len
        invariant
            challenge_blob_ok(data@, n as int),
            dlen == data@.len(),
            pos_len == ch_pos_count(data@),
            e <= pos_len,
            cursor == 1 + 2 * e,
            coeffs@.len() == n,
            forall|i: int| 0 <= i < n ==> #[trigger] coeffs@[i]
                == if exists|t: int| 0 <= t < e && #[trigger] ch_pos_entry(data@, t) == i { 1i32 } else { 0i32 },
        decreases pos_len - e,
    {
        let idx = read_u16_le_at(data, cursor) as usize;
        assert(idx == ch_pos_entry(data@, e as int));
        coeffs.set(idx, 1);
        proof {
            assert forall|i: int| 0 <= i < n implies #[trigger] coeffs@[i]
                == if exists|t: int| 0 <= t < e + 1 && #[trigger] ch_pos_entry(data@, t) == i { 1i32 } else { 0i32 } by {
                if i == idx {
                    assert(ch_pos_entry(data@, e as int) == i);
                } else if exists|t: int| 0 <= t < e + 1 && #[trigger] ch_pos_entry(data@, t) == i {
                    let t = choose|t: int| 0 <= t < e + 1 && #[trigger] ch_pos_entry(data@, t) == i;
                    assert(t != e);
                }
            }
        }
        cursor += 2;
        e += 1;
    }
    let ghost after_pos = coeffs@;
    let mut f: usize = 0;
    while dlen - cursor >= 2
        invariant
            challenge_blob_ok(data@, n as int),
            dlen == data@.len(),
            pos_len == ch_pos_count(data@),
            cursor == 1 + 2 * pos_len + 2 * f,
            cursor <= dlen,
            f <= ch_neg_count(data@),
            coeffs@.len() == n,
            after_pos.len() == n,
            forall|i: int| 0 <= i < n ==> #[trigger] coeffs@[i]
                == if exists|t: int| 0 <= t < f && #[trigger] ch_neg_entry(data@, t) == i { -1i32 } else { after_pos[i] },
            forall|i: int| 0 <= i < n ==> #[trigger] after_pos[i]
                == if exists|t: int| 0 <= t < pos_len && #[trigger] ch_pos_entry(data@, t) == i { 1i32 } else { 0i32 },
        decreases dlen - cursor,
    {
        let idx = read_u16_le_at(data, cursor) as usize;
        assert(f < ch_neg_count(data@));
        assert(idx == ch_neg_entry(data@, f as int));
        coeffs.set(idx, -1);
        proof {
            assert forall|i: int| 0 <= i < n implies #[trigger] coeffs@[i]
                == if exists|t: int| 0 <= t < f + 1 && #[trigger] ch_neg_entry(data@, t) == i { -1i32 } else { after_pos[i] } by {
                if i == idx {
                    assert(ch_neg_entry(data@, f as int) == i);
                } else if exists|t: int| 0 <= t < f + 1 && #[trigger] ch_neg_entry(data@, t) == i {
                    let t = choose|t: int| 0 <= t < f + 1 && #[trigger] ch_neg_entry(data@, t) == i;
                    assert(t != f);
                }
            }
        }
        cursor += 2;
        f += 1;
    }
    assert(f == ch_neg_count(data@));
    Polynomial { coeffs }
}

/// Decoding an encoded ternary challenge gives back the challenge.
pub proof fn lemma_challenge_roundtrip(c: Seq<i32>)
    requires
        c.len() <= 0x10000,
        forall|i: int| 0 <= i < c.len() ==> -1 <= #[trigger] c[i] <= 1,
        positions(c, 1, c.len() as int).len() < 256,
    ensures
        challenge_blob_ok(encoded_challenge(c), c.len() as int),
        forall|i: int| 0 <= i < c.len() ==> #[trigger] decoded_coeff(encoded_challenge(c), i) == c[i],
{
    let n = c.len() as int;
    let pos = positions(c, 1, n);
    let neg = positions(c, -1i32, n);
    let data = encoded_challenge(c);
    lemma_u16s_bytes_len(pos);
    lemma_u16s_bytes_len(neg);
    lemma_positions(c, 1, n, 0);
    lemma_positions(c, -1i32, n, 0);
    vstd::arithmetic::div_mod::lemma_small_mod(pos.len(), 256);
    assert(ch_pos_count(data) == pos.len());
    assert(ch_neg_count(data) == neg.len());
    assert forall|e: int| 0 <= e < pos.len() implies #[trigger] ch_pos_entry(data, e) == pos[e] by {
        lemma_u16s_bytes_at(pos, e);
        assert(data[1 + 2 * e] == u16s_bytes(pos)[2 * e]);
        assert(data[2 + 2 * e] == u16s_bytes(pos)[2 * e + 1]);
        vstd::arithmetic::div_mod::lemma_small_mod(pos[e] as nat, 0x10000);
    }
    assert forall|e: int| 0 <= e < neg.len() implies #[trigger] ch_neg_entry(data, e) == neg[e] by {
        lemma_u16s_bytes_at(neg, e);
        let off = 1 + 2 * pos.len();
        assert(data[off + 2 * e] == u16s_bytes(neg)[2 * e]);
        assert(data[off + 2 * e + 1] == u16s_bytes(neg)[2 * e + 1]);
        vstd::arithmetic::div_mod::lemma_small_mod(neg[e] as nat, 0x10000);
    }
    assert forall|i: int| 0 <= i < n implies #[trigger] decoded_coeff(data, i) == c[i] by {
        lemma_positions(c, 1, n, i);
        lemma_positions(c, -1i32, n, i);
        if c[i] == -1 {
            let t = choose|t: int| 0 <= t < neg.len() && neg[t] == i;
            assert(ch_neg_entry(data, t) == i);
        } else {
            if exists|e: int| 0 <= e < ch_neg_count(data) && #[trigger] ch_neg_entry(data, e) == i {
                let t = choose|e: int| 0 <= e < ch_neg_count(data) && #[trigger] ch_neg_entry(data, e) == i;
                assert(neg[t] == i);
                assert(neg.contains(i));
            }
            if c[i] == 1 {
                let t = choose|t: int| 0 <= t < pos.len() && pos[t] == i;
                assert(ch_pos_entry(data, t) == i);
            } else {
                if exists|e: int| 0 <= e < ch_pos_count(data) && #[trigger] ch_pos_entry(data, e) == i {
                    let t = choose|e: int| 0 <= e < ch_pos_count(data) && #[trigger] ch_pos_entry(data, e) == i;
                    assert(pos[t] == i);
                    assert(pos.contains(i));
                }
            }
        }
    }
}

// ---------------------------------------------------------------------------
// Bit-packed coefficient vectors
// ---------------------------------------------------------------------------

/// The coefficients of all polynomials of `v`, one polynomial after another.
pub open spec fn flat(v: Seq<Seq<i32>>) -> Seq<i32>
    decreases v.len(),
{
    if v.len() == 0 {
        Seq::empty()
    } else {
        flat(v.drop_last()) + v.last()
    }
}

/// Each coefficient plus `g`, as an unsigned value.
pub open spec fn shift_seq(s: Seq<i32>, g: int) -> Seq<u64> {
    Seq::new(s.len(), |t: int| (s[t] + g) as u64)
}

/// Each coefficient reduced into `[0, q)`, as an unsigned value.
pub open spec fn reduce_seq(s: Seq<i32>, q: int) -> Seq<u64> {
    Seq::new(s.len(), |t: int| ((s[t] as int) % q) as u64)
}

/// Coefficient `j` of polynomial `i` sits at position `i*n + j` of `flat(v)`.
pub proof fn lemma_flat_uniform(v: Seq<Seq<i32>>, n: int)
    requires
        n >= 0,
        vec_uniform(v, n),
    ensures
        flat(v).len() == v.len() * n,
        forall|i: int, j: int| 0 <= i < v.len() && 0 <= j < n ==> #[trigger] flat(v)[i * n + j] == v[i][j],
    decreases v.len(),
{
    if v.len() > 0 {
        let prev = v.drop_last();
        assert(vec_uniform(prev, n)) by {
            assert forall|t: int| 0 <= t < prev.len() implies (#[trigger] prev[t]).len() == n by {
                assert(prev[t] == v[t]);
            }
        }
        lemma_flat_uniform(prev, n);
        let m = v.len() - 1;
        assert(m * n + n == v.len() * n) by (nonlinear_arith)
            requires m == v.len() - 1;
        assert forall|i: int, j: int| 0 <= i < v.len() && 0 <= j < n implies #[trigger] flat(v)[i * n + j] == v[i][j] by {
            if i < m {
                assert(i * n + j < m * n) by (nonlinear_arith)
                    requires 0 <= i < m, 0 <= j < n;
                assert(0 <= i * n) by (nonlinear_arith)
                    requires 0 <= i, 0 <= n;
                assert(prev[i] == v[i]);
            } else {
                assert(i * n == m * n);
            }
        }
    }
}

/// Every entry of `flat(v)` is a coefficient of some polynomial of `v`.
pub proof fn lemma_flat_index(v: Seq<Seq<i32>>, t: int)
    requires
        0 <= t < flat(v).len(),
    ensures
        exists|i: int, j: int| 0 <= i < v.len() && 0 <= j < v[i].len() && flat(v)[t] == #[trigger] v[i][j],
    decreases v.len(),
{
    let prev = v.drop_last();
    if t < flat(prev).len() {
        lemma_flat_index(prev, t);
        let (i, j) = choose|i: int, j: int| 0 <= i < prev.len() && 0 <= j < prev[i].len() && flat(prev)[t] == #[trigger] prev[i][j];
        assert(prev[i] == v[i]);
        assert(flat(v)[t] == v[i][j]);
    } else {
        let i = v.len() - 1;
        let j = t - flat(prev).len();
        assert(flat(v)[t] == v[i][j]);
    }
}

/// Bits per packed coefficient of the response vector for the bound `gamma1`.
pub open spec fn spec_z_bits(gamma1: u32) -> nat {
    if gamma1 == 131072 {
        18
    } else if gamma1 == 524288 {
        20
    } else if gamma1 == 33554432 {
        26
    } else {
        bit_len((2 * gamma1 + 1) as nat)
    }
}

/// Each coefficient shifted by `gamma1` is a `spec_z_bits(gamma1)`-bit value that fits in an `i32`.
pub open spec fn z_fits(v: Seq<Seq<i32>>, gamma1: u32) -> bool {
    forall|i: int, j: int| 0 <= i < v.len() && 0 <= j < v[i].len() ==> {
        &&& 0 <= #[trigger] v[i][j] + gamma1
        &&& v[i][j] + gamma1 < pow2(spec_z_bits(gamma1))
        &&& v[i][j] + gamma1 <= i32::MAX
    }
}

/// The bytes `pack_z` writes: the shifted coefficients as `spec_z_bits(gamma1)`-bit values.
pub open spec fn packed_z(v: Seq<Seq<i32>>, gamma1: u32) -> Seq<u8> {
    let w = spec_z_bits(gamma1);
    le_bytes(packed_int(shift_seq(flat(v), gamma1 as int), w), bytes_for_bits((w * flat(v).len()) as int))
}

/// Bits per coefficient of a vector packed mod `q`.
pub open spec fn q_bits(q: u32) -> nat {
    bit_len((q - 1) as nat)
}

/// The bytes `pack_polyvec_mod_q` writes: the reduced coefficients as `q_bits(q)`-bit values.
pub open spec fn packed_mod_q(v: Seq<Seq<i32>>, q: u32) -> Seq<u8> {
    let w = q_bits(q);
    le_bytes(packed_int(reduce_seq(flat(v), q as int), w), bytes_for_bits((w * flat(v).len()) as int))
}

proof fn lemma_z_bits_bound(gamma1: u32)
    requires
        gamma1 < 0x8000_0000,
    ensures
        spec_z_bits(gamma1) <= 32,
        gamma1 < 0x4000_0000 ==> spec_z_bits(gamma1) <= 31,
{
    vstd::arithmetic::power2::lemma2_to64();
    if gamma1 < 0x4000_0000 {
        lemma_bit_len((2 * gamma1 + 1) as nat, 31);
    } else {
        lemma_bit_len((2 * gamma1 + 1) as nat, 32);
    }
}

/// The packed width of `z` holds every shifted value in `[0, 2 gamma1]`.
pub proof fn lemma_z_bits_cover(gamma1: u32)
    ensures
        2 * gamma1 < pow2(spec_z_bits(gamma1)) || (gamma1 > 0 && 2 * gamma1 == pow2(spec_z_bits(gamma1))),
{
    vstd::arithmetic::power2::lemma2_to64();
    if gamma1 != 131072 && gamma1 != 524288 && gamma1 != 33554432 {
        lemma_bit_len((2 * gamma1 + 1) as nat, 0);
    }
}

proof fn lemma_q_bits_bound(q: u32)
    requires
        valid_q(q),
    ensures
        q_bits(q) <= 30,
        (q - 1) < pow2(q_bits(q)),
{
    vstd::arithmetic::power2::lemma2_to64();
    lemma_bit_len((q - 1) as nat, 30);
}

fn z_bits(gamma1: u32) -> (b: u32)
    ensures
        b == spec_z_bits(gamma1),
{
    if gamma1 == 131072 {
        18
    } else if gamma1 == 524288 {
        20
    } else if gamma1 == 33554432 {
        26
    } else {
        bit_length(2 * (gamma1 as u64) + 1)
    }
}

/// Each coefficient plus `g` lies in `[0, i32::MAX]`.
pub open spec fn shift_ok(v: Seq<Seq<i32>>, g: int) -> bool {
    forall|i: int, j: int| 0 <= i < v.len() && 0 <= j < v[i].len() ==> 0 <= #[trigger] v[i][j] + g <= i32::MAX
}

/// The coefficients of `z`, one polynomial after another, each plus `gamma1`.
pub(crate) fn shifted_coeffs(z: &PolynomialVector, gamma1: u32) -> (vals: Vec<u64>)
    requires
        shift_ok(z@, gamma1 as int),
        gamma1 < 0x8000_0000,
    ensures
        vals@ == shift_seq(flat(z@), gamma1 as int),
{
    let ghost zs = z@;
    let g = gamma1 as i32;
    let mut vals: Vec<u64> = Vec::new();
    let mut i: usize = 0;
    assert(zs.take(0) =~= Seq::<Seq<i32>>::empty());
    assert(shift_seq(flat(zs.take(0)), gamma1 as int) =~= vals@);
    while i < z.elements.len()
        invariant
            zs == z@,
            g == gamma1,
            shift_ok(zs, gamma1 as int),
            i <= zs.len(),
            vals@ == shift_seq(flat(zs.take(i as int)), gamma1 as int),
        decreases zs.len() - i,
    {
        let poly = &z.elements[i];
        let ghost before = flat(zs.take(i as int));
        assert(poly@ == zs[i as int]);
        let mut j: usize = 0;
        assert(before + poly@.take(0) =~= before);
        while j < poly.coeffs.len()
            invariant
                zs == z@,
                g == gamma1,
                shift_ok(zs, gamma1 as int),
                i < zs.len(),
                poly@ == zs[i as int],
                j <= poly@.len(),
                vals@ == shift_seq(before + poly@.take(j as int), gamma1 as int),
            decreases poly@.len() - j,
        {
            let c = poly.coeffs[j];
            assert(0 <= zs[i as int][j as int] + gamma1 <= i32::MAX);
            let v = (c + g) as u64;
            let ghost old_vals = vals@;
            vals.push(v);
            assert(before + poly@.take(j + 1) =~= (before + poly@.take(j as int)).push(c));
            assert(vals@ =~= shift_seq(before + poly@.take(j + 1), gamma1 as int));
            j += 1;
        }
        assert(zs.take(i + 1).drop_last() =~= zs.take(i as int));
        assert(poly@.take(j as int) =~= poly@);
        i += 1;
    }
    assert(zs.take(zs.len() as int) =~= zs);
    vals
}

/// The coefficients of `v`, one polynomial after another, each reduced into `[0, q)`.
fn reduced_coeffs(v: &PolynomialVector, q: u32) -> (vals: Vec<u64>)
    requires
        valid_q(q),
    ensures
        vals@ == reduce_seq(flat(v@), q as int),
{
    let ghost vs = v@;
    let mut vals: Vec<u64> = Vec::new();
    let mut i: usize = 0;
    assert(vs.take(0) =~= Seq::<Seq<i32>>::empty());
    assert(reduce_seq(flat(vs.take(0)), q as int) =~= vals@);
    while i < v.elements.len()
        invariant
            vs == v@,
            valid_q(q),
            i <= vs.len(),
            vals@ == reduce_seq(flat(vs.take(i as int)), q as int),
        decreases vs.len() - i,
    {
        let poly = &v.elements[i];
        let ghost before = flat(vs.take(i as int));
        assert(poly@ == vs[i as int]);
        let mut j: usize = 0;
        assert(before + poly@.take(0) =~= before);
        while j < poly.coeffs.len()
            invariant
                vs == v@,
                valid_q(q),
                i < vs.len(),
                poly@ == vs[i as int],
                j <= poly@.len(),
                vals@ == reduce_seq(before + poly@.take(j as int), q as int),
            decreases poly@.len() - j,
        {
            let c = poly.coeffs[j];
            let r = mod_reduce(c, q);
            vals.push(r as u64);
            assert(before + poly@.take(j + 1) =~= (before + poly@.take(j as int)).push(c));
            assert(vals@ =~= reduce_seq(before + poly@.take(j + 1), q as int));
            j += 1;
        }
        assert(vs.take(i + 1).drop_last() =~= vs.take(i as int));
        assert(poly@.take(j as int) =~= poly@);
        i += 1;
    }
    assert(vs.take(vs.len() as int) =~= vs);
    vals
}

/// `k` polynomials of `n` coefficients from `k*n` values, coefficient `(i, j)`
/// being `vals[i*n + j] - sub`.
fn rows_from_values(vals: &Vec<u64>, k: usize, n: usize, sub: u32) -> (v: PolynomialVector)
    requires
        vals@.len() == k * n,
        sub < 0x8000_0000,
        forall|t: int| 0 <= t < vals@.len() ==> #[trigger] vals@[t] < 0x8000_0000,
    ensures
        v@.len() == k,
        vec_uniform(v@, n as int),
        forall|i: int, j: int| 0 <= i < k && 0 <= j < n ==> #[trigger] v@[i][j] == vals@[i * n + j] - sub,
{
    let s = sub as i32;
    let vlen = vals.len();
    let mut elements: Vec<Polynomial> = Vec::with_capacity(k);
    let mut i: usize = 0;
    let mut t: usize = 0;
    while i < k
        invariant
            vals@.len() == k * n,
            vlen == vals@.len(),
            s == sub,
            sub < 0x8000_0000,
            forall|u: int| 0 <= u < vals@.len() ==> #[trigger] vals@[u] < 0x8000_0000,
            i <= k,
            t == i * n,
            elements@.len() == i,
            forall|a: int| 0 <= a < i ==> (#[trigger] elements@[a])@.len() == n,
            forall|a: int, b: int| 0 <= a < i && 0 <= b < n ==> #[trigger] elements@[a]@[b] == vals@[a * n + b] - sub,
        decreases k - i,
    {
        assert((i + 1) * n == i * n + n) by (nonlinear_arith);
        assert((i + 1) * n <= k * n) by (nonlinear_arith)
            requires i + 1 <= k;
        let mut coeffs: Vec<i32> = Vec::with_capacity(n);
        let mut j: usize = 0;
        while j < n
            invariant
                vals@.len() == k * n,
                vlen == vals@.len(),
                s == sub,
                sub < 0x8000_0000,
                forall|u: int| 0 <= u < vals@.len() ==> #[trigger] vals@[u] < 0x8000_0000,
                (i + 1) * n <= k * n,
                (i + 1) * n == i * n + n,
                j <= n,
                t == i * n + j,
                coeffs@.len() == j,
                forall|b: int| 0 <= b < j ==> #[trigger] coeffs@[b] == vals@[i * n + b] - sub,
            decreases n - j,
        {
            let val = vals[t] as i32;
            coeffs.push(val - s);
            t += 1;
            j += 1;
        }
        elements.push(Polynomial { coeffs });
        i += 1;
    }
    let v = PolynomialVector { elements };
    assert forall|a: int| 0 <= a < v@.len() implies (#[trigger] v@[a]).len() == n by {
        assert(v@[a] == v.elements@[a]@);
    }
    assert forall|a: int, b: int| 0 <= a < k && 0 <= b < n implies #[trigger] v@[a][b] == vals@[a * n + b] - sub by {
        assert(v@[a] == v.elements@[a]@);
    }
    v
}

/// Bit-pack the response vector `z`: each coefficient plus `gamma1`, written as a
/// `spec_z_bits(gamma1)`-bit value, least significant bits first.
pub fn pack_z(z: &PolynomialVector, gamma1: u32, _n: usize) -> (out: Vec<u8>)
    requires
        gamma1 < 0x8000_0000,
        z_fits(z@, gamma1),
    ensures
        out@ == packed_z(z@, gamma1),
{
    let bits = z_bits(gamma1);
    proof {
        lemma_z_bits_bound(gamma1);
    }
    assert(shift_ok(z@, gamma1 as int));
    let vals = shifted_coeffs(z, gamma1);
    proof {
        let f = flat(z@);
        assert forall|t: int| 0 <= t < vals@.len() implies (#[trigger] vals@[t]) < pow2(bits as nat) by {
            lemma_flat_index(z@, t);
            let (i, j) = choose|i: int, j: int| 0 <= i < z@.len() && 0 <= j < z@[i].len() && f[t] == #[trigger] z@[i][j];
            assert(0 <= z@[i][j] + gamma1);
        }
    }
    pack_values(&vals, bits)
}

/// Unpack `k` polynomials of `n` coefficients written by [`pack_z`].
///
/// Fails when `data` is shorter than the `spec_z_bits(gamma1) * k * n` bits it must hold.
pub fn unpack_z(data: &[u8], k: usize, n: usize, gamma1: u32) -> (r: Result<PolynomialVector, PabsCrfError>)
    requires
        gamma1 < 0x4000_0000,
        k * n * 32 + 7 <= usize::MAX,
    ensures
        r is Ok <==> data@.len() >= bytes_for_bits(spec_z_bits(gamma1) * (k * n)),
        r matches Err(e) ==> e is SerializationError,
        r matches Ok(v) ==> {
            &&& v@.len() == k
            &&& vec_uniform(v@, n as int)
            &&& forall|i: int, j: int| 0 <= i < k && 0 <= j < n ==> #[trigger] v@[i][j]
                == unpacked_value(data@, spec_z_bits(gamma1), i * n + j) - gamma1
        },
{
    let bits = z_bits(gamma1);
    proof {
        lemma_z_bits_bound(gamma1);
        assert(k * n * bits <= k * n * 32) by (nonlinear_arith)
            requires bits <= 32;
    }
    let count = k * n;
    assert(count * bits == bits * (k * n)) by (nonlinear_arith)
        requires count == k * n;
    let expected_bytes = (count * (bits as usize) + 7) / 8;
    if data.len() < expected_bytes {
        return Err(PabsCrfError::SerializationError("unpack_z: input too short".to_string()));
    }
    let vals = unpack_values(data, count, bits);
    proof {
        vstd::arithmetic::power2::lemma2_to64();
        if bits < 31 {
            vstd::arithmetic::power2::lemma_pow2_strictly_increases(bits as nat, 31);
        }
        assert forall|t: int| 0 <= t < vals@.len() implies #[trigger] vals@[t] < 0x8000_0000 by {
            vstd::arithmetic::power2::lemma_pow2_pos(bits as nat);
            vstd::arithmetic::div_mod::lemma_mod_bound(
                crate::bitpack::le_int(data@) / crate::bitpack::p2((bits * t) as nat),
                crate::bitpack::p2(bits as nat),
            );
        }
    }
    let v = rows_from_values(&vals, k, n, gamma1);
    proof {
        assert forall|i: int, j: int| 0 <= i < k && 0 <= j < n implies #[trigger] v@[i][j]
            == unpacked_value(data@, spec_z_bits(gamma1), i * n + j) - gamma1 by {
            assert(0 <= i * n + j < k * n) by (nonlinear_arith)
                requires 0 <= i < k, 0 <= j < n;
        }
    }
    Ok(v)
}

/// Losslessly bit-pack a vector with each coefficient reduced into `[0, q)`,
/// `q_bits(q)` bits per coefficient.
pub fn pack_polyvec_mod_q(v: &PolynomialVector, q: u32) -> (out: Vec<u8>)
    requires
        valid_q(q),
    ensures
        out@ == packed_mod_q(v@, q),
{
    let bits = bit_length((q - 1) as u64);
    let vals = reduced_coeffs(v, q);
    proof {
        lemma_q_bits_bound(q);
        vstd::arithmetic::power2::lemma_pow2_pos(bits as nat);
        assert forall|t: int| 0 <= t < vals@.len() implies (#[trigger] vals@[t]) < pow2(bits as nat) by {
            assert(vals@[t] == ((flat(v@)[t] as int) % (q as int)) as u64);
        }
    }
    pack_values(&vals, bits)
}

/// Unpack `k` polynomials of `n` coefficients written by [`pack_polyvec_mod_q`].
///
/// Fails when `data` is shorter than the `q_bits(q) * k * n` bits it must hold.
pub fn unpack_polyvec_mod_q(data: &[u8], k: usize, n: usize, q: u32) -> (r: Result<PolynomialVector, PabsCrfError>)
    requires
        valid_q(q),
        k * n * 32 + 7 <= usize::MAX,
    ensures
        r is Ok <==> data@.len() >= bytes_for_bits(q_bits(q) * (k * n)),
        r matches Err(e) ==> e is SerializationError,
        r matches Ok(v) ==> {
            &&& v@.len() == k
            &&& vec_uniform(v@, n as int)
            &&& forall|i: int, j: int| 0 <= i < k && 0 <= j < n ==> #[trigger] v@[i][j]
                == unpacked_value(data@, q_bits(q), i * n + j)
        },
{
    let bits = bit_length((q - 1) as u64);
    proof {
        lemma_q_bits_bound(q);
        assert(k * n * bits <= k * n * 32) by (nonlinear_arith)
            requires bits <= 32;
    }
    let count = k * n;
    assert(count * bits == bits * (k * n)) by (nonlinear_arith)
        requires count == k * n;
    let expected_bytes = (count * (bits as usize) + 7) / 8;
    if data.len() < expected_bytes {
        return Err(PabsCrfError::SerializationError("unpack_polyvec_mod_q: input too short".to_string()));
    }
    let vals = unpack_values(data, count, bits);
    proof {
        vstd::arithmetic::power2::lemma2_to64();
        if bits < 31 {
            vstd::arithmetic::power2::lemma_pow2_strictly_increases(bits as nat, 31);
        }
        assert forall|t: int| 0 <= t < vals@.len() implies #[trigger] vals@[t] < 0x8000_0000 by {
            vstd::arithmetic::power2::lemma_pow2_pos(bits as nat);
            vstd::arithmetic::div_mod::lemma_mod_bound(
                crate::bitpack::le_int(data@) / crate::bitpack::p2((bits * t) as nat),
                crate::bitpack::p2(bits as nat),
            );
        }
    }
    let v = rows_from_values(&vals, k, n, 0);
    proof {
        assert forall|i: int, j: int| 0 <= i < k && 0 <= j < n implies #[trigger] v@[i][j]
            == unpacked_value(data@, q_bits(q), i * n + j) by {
            assert(0 <= i * n + j < k * n) by (nonlinear_arith)
                requires 0 <= i < k, 0 <= j < n;
        }
    }
    Ok(v)
}

/// Unpacking the packed response vector gives the vector back.
pub proof fn lemma_z_roundtrip(z: Seq<Seq<i32>>, gamma1: u32, n: int)
    requires
        gamma1 < 0x4000_0000,
        n >= 0,
        vec_uniform(z, n),
        z_fits(z, gamma1),
    ensures
        packed_z(z, gamma1).len() == bytes_for_bits(spec_z_bits(gamma1) * (z.len() * n)),
        forall|i: int, j: int| 0 <= i < z.len() && 0 <= j < n ==> #[trigger] unpacked_value(
            packed_z(z, gamma1),
            spec_z_bits(gamma1),
            i * n + j,
        ) - gamma1 == z[i][j],
{
    let w = spec_z_bits(gamma1);
    let f = flat(z);
    let vals = shift_seq(f, gamma1 as int);
    lemma_flat_uniform(z, n);
    assert(vals_fit(vals, w)) by {
        assert forall|t: int| 0 <= t < vals.len() implies (#[trigger] vals[t]) < pow2(w) by {
            lemma_flat_index(z, t);
            let (i, j) = choose|i: int, j: int| 0 <= i < z.len() && 0 <= j < z[i].len() && f[t] == #[trigger] z[i][j];
            assert(0 <= z[i][j] + gamma1);
        }
    }
    assert forall|i: int, j: int| 0 <= i < z.len() && 0 <= j < n implies #[trigger] unpacked_value(
        packed_z(z, gamma1),
        w,
        i * n + j,
    ) - gamma1 == z[i][j] by {
        assert(0 <= i * n + j < z.len() * n) by (nonlinear_arith)
            requires 0 <= i < z.len(), 0 <= j < n;
        lemma_pack_roundtrip(vals, w, i * n + j);
        assert(0 <= z[i][j] + gamma1);
    }
}

/// Unpacking a vector packed mod `q` gives each coefficient reduced into `[0, q)`.
pub proof fn lemma_mod_q_roundtrip(v: Seq<Seq<i32>>, q: u32, n: int)
    requires
        valid_q(q),
        n >= 0,
        vec_uniform(v, n),
    ensures
        packed_mod_q(v, q).len() == bytes_for_bits(q_bits(q) * (v.len() * n)),
        forall|i: int, j: int| 0 <= i < v.len() && 0 <= j < n ==> #[trigger] unpacked_value(
            packed_mod_q(v, q),
            q_bits(q),
            i * n + j,
        ) == (v[i][j] as int) % (q as int),
{
    let w = q_bits(q);
    let f = flat(v);
    let vals = reduce_seq(f, q as int);
    lemma_flat_uniform(v, n);
    lemma_q_bits_bound(q);
    assert(vals_fit(vals, w));
    assert forall|i: int, j: int| 0 <= i < v.len() && 0 <= j < n implies #[trigger] unpacked_value(
        packed_mod_q(v, q),
        w,
        i * n + j,
    ) == (v[i][j] as int) % (q as int) by {
        assert(0 <= i * n + j < v.len() * n) by (nonlinear_arith)
            requires 0 <= i < v.len(), 0 <= j < n;
        lemma_pack_roundtrip(vals, w, i * n + j);
    }
}

} // verus!
