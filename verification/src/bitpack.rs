//! Little-endian bit-packing of fixed-width unsigned values.
//!
//! A sequence of `w`-bit values `v_0, v_1, ...` is read as the integer
//! `sum_i v_i * 2^(w*i)`, and that integer is written out least-significant
//! byte first, using just enough bytes to hold `w * len` bits.
use vstd::prelude::*;
use vstd::arithmetic::power2::{pow2, lemma_pow2_adds, lemma_pow2_pos};
use vstd::arithmetic::div_mod::{
    lemma_div_denominator, lemma_hoist_over_denominator, lemma_mod_multiples_vanish, lemma_div_pos_is_pos,
    lemma_mod_breakdown, lemma_small_mod, lemma_mod_bound, lemma_fundamental_div_mod, lemma_div_is_ordered,
    lemma_mod_twice,
};
use vstd::bits::{lemma_u64_shl_is_mul, lemma_u64_shr_is_div, lemma_u64_pow2_no_overflow};

verus! {

/// `2^e` as an integer.
pub open spec fn p2(e: nat) -> int {
    pow2(e) as int
}

/// `sum_i vals[i] * 2^(w*i)`.
pub open spec fn packed_int(vals: Seq<u64>, w: nat) -> int
    decreases vals.len(),
{
    if vals.len() == 0 {
        0
    } else {
        packed_int(vals.drop_last(), w) + vals.last() * pow2(w * (vals.len() - 1) as nat)
    }
}

/// `sum_j data[j] * 2^(8*j)`.
pub open spec fn le_int(data: Seq<u8>) -> int
    decreases data.len(),
{
    if data.len() == 0 {
        0
    } else {
        le_int(data.drop_last()) + data.last() * pow2(8 * (data.len() - 1) as nat)
    }
}

/// Byte `j` of the little-endian representation of `x`.
pub open spec fn byte_of(x: int, j: int) -> u8 {
    ((x / p2((8 * j) as nat)) % 256) as u8
}

/// The first `len` bytes of the little-endian representation of `x`.
pub open spec fn le_bytes(x: int, len: int) -> Seq<u8> {
    Seq::new(len as nat, |j: int| byte_of(x, j))
}

/// Bytes needed to hold `bits` bits.
pub open spec fn bytes_for_bits(bits: int) -> int {
    (bits + 7) / 8
}

/// Every value fits in `w` bits.
pub open spec fn vals_fit(vals: Seq<u64>, w: nat) -> bool {
    forall|i: int| 0 <= i < vals.len() ==> (#[trigger] vals[i]) < pow2(w)
}

/// Value `e` read back from packed data: bits `[w*e, w*e + w)` of `le_int(data)`.
pub open spec fn unpacked_value(data: Seq<u8>, w: nat, e: int) -> int {
    (le_int(data) / p2((w * e) as nat)) % p2(w)
}

pub proof fn lemma_packed_int_nonneg(vals: Seq<u64>, w: nat)
    ensures
        packed_int(vals, w) >= 0,
    decreases vals.len(),
{
    if vals.len() > 0 {
        lemma_packed_int_nonneg(vals.drop_last(), w);
        lemma_pow2_pos(w * (vals.len() - 1) as nat);
        assert(vals.last() * pow2(w * (vals.len() - 1) as nat) >= 0) by (nonlinear_arith)
            requires pow2(w * (vals.len() - 1) as nat) > 0;
    }
}

pub proof fn lemma_packed_int_bound(vals: Seq<u64>, w: nat)
    requires
        vals_fit(vals, w),
    ensures
        0 <= packed_int(vals, w) < pow2(w * vals.len()),
    decreases vals.len(),
{
    lemma_packed_int_nonneg(vals, w);
    if vals.len() == 0 {
        lemma_pow2_pos(0);
        assert(pow2(0) == 1) by { vstd::arithmetic::power2::lemma2_to64(); }
    } else {
        let prev = vals.drop_last();
        assert(vals_fit(prev, w)) by {
            assert forall|i: int| 0 <= i < prev.len() implies (#[trigger] prev[i]) < pow2(w) by {
                assert(prev[i] == vals[i]);
            }
        }
        lemma_packed_int_bound(prev, w);
        let s = (w * (vals.len() - 1)) as nat;
        lemma_pow2_adds(s, w);
        assert(s + w == w * vals.len()) by (nonlinear_arith)
            requires s == w * (vals.len() - 1), vals.len() >= 1;
        let v = vals.last();
        assert(v < pow2(w));
        assert(packed_int(prev, w) + v * pow2(s) < pow2(s) * pow2(w)) by (nonlinear_arith)
            requires packed_int(prev, w) < pow2(s), v + 1 <= pow2(w), v >= 0, pow2(s) > 0;
    }
}

/// `(a + k*d) / d == a/d + k`.
proof fn lemma_div_add_multiple(a: int, k: int, d: int)
    requires
        d > 0,
    ensures
        (a + k * d) / d == a / d + k,
{
    lemma_hoist_over_denominator(a, k, d as nat);
}

/// Adding a multiple of `2^s` does not change the bits below `s`:
/// `((n + x*2^s) / 2^a) % 2^m == (n / 2^a) % 2^m` when `s >= a + m`.
pub proof fn lemma_high_addend_invisible(n: int, x: int, s: nat, a: nat, m: nat)
    requires
        s >= a + m,
    ensures
        ((n + x * pow2(s)) / p2(a)) % p2(m) == (n / p2(a)) % p2(m),
{
    let r = (s - a - m) as nat;
    lemma_pow2_adds(a, (s - a) as nat);
    lemma_pow2_adds(m, r);
    lemma_pow2_pos(a);
    lemma_pow2_pos(m);
    lemma_pow2_pos(r);
    assert(x * pow2(s) == (x * pow2((s - a) as nat)) * pow2(a)) by (nonlinear_arith)
        requires pow2(s) == pow2(a) * pow2((s - a) as nat);
    lemma_div_add_multiple(n, x * p2((s - a) as nat), p2(a));
    assert(x * pow2((s - a) as nat) == pow2(m) * (x * pow2(r))) by (nonlinear_arith)
        requires pow2((s - a) as nat) == pow2(m) * pow2(r);
    lemma_mod_multiples_vanish(x * p2(r), n / p2(a), p2(m));
}

/// `n < 2^(a+b)` implies `n / 2^a < 2^b`.
proof fn lemma_div_pow2_bound(n: int, a: nat, b: nat)
    requires
        0 <= n < pow2(a + b),
    ensures
        0 <= n / p2(a) < pow2(b),
{
    lemma_pow2_adds(a, b);
    lemma_pow2_pos(a);
    lemma_pow2_pos(b);
    lemma_fundamental_div_mod(n, p2(a));
    lemma_mod_bound(n, p2(a));
    lemma_div_pos_is_pos(n, p2(a));
    let q = n / p2(a);
    assert(q < pow2(b)) by (nonlinear_arith)
        requires n == pow2(a) * q + n % p2(a), n % p2(a) >= 0, n < pow2(a) * pow2(b), pow2(a) > 0;
}

proof fn lemma_packed_int_push(vals: Seq<u64>, i: int, w: nat)
    requires
        0 <= i < vals.len(),
    ensures
        packed_int(vals.subrange(0, i + 1), w) == packed_int(vals.subrange(0, i), w) + vals[i] * pow2(w * i as nat),
{
    assert(vals.subrange(0, i + 1).drop_last() =~= vals.subrange(0, i));
}

proof fn lemma_le_int_push(data: Seq<u8>, i: int)
    requires
        0 <= i < data.len(),
    ensures
        le_int(data.subrange(0, i + 1)) == le_int(data.subrange(0, i)) + data[i] * pow2((8 * i) as nat),
{
    assert(data.subrange(0, i + 1).drop_last() =~= data.subrange(0, i));
}

pub proof fn lemma_le_int_nonneg(data: Seq<u8>)
    ensures
        le_int(data) >= 0,
    decreases data.len(),
{
    if data.len() > 0 {
        lemma_le_int_nonneg(data.drop_last());
        lemma_pow2_pos((8 * (data.len() - 1)) as nat);
        assert(data.last() * pow2((8 * (data.len() - 1)) as nat) >= 0) by (nonlinear_arith)
            requires pow2((8 * (data.len() - 1)) as nat) > 0;
    }
}

/// `le_int(a + b) == le_int(a) + 2^(8|a|) * le_int(b)`.
proof fn lemma_le_int_concat(a: Seq<u8>, b: Seq<u8>)
    ensures
        le_int(a + b) == le_int(a) + pow2((8 * a.len()) as nat) * le_int(b),
    decreases b.len(),
{
    if b.len() == 0 {
        assert(a + b =~= a);
    } else {
        lemma_le_int_concat(a, b.drop_last());
        assert((a + b).drop_last() =~= a + b.drop_last());
        let k = (8 * (b.len() - 1)) as nat;
        lemma_pow2_adds((8 * a.len()) as nat, k);
        assert((8 * a.len()) as nat + k == (8 * ((a + b).len() - 1)) as nat);
        assert(pow2((8 * a.len()) as nat) * le_int(b) == pow2((8 * a.len()) as nat) * le_int(b.drop_last())
            + b.last() * pow2((8 * ((a + b).len() - 1)) as nat)) by (nonlinear_arith)
            requires
                le_int(b) == le_int(b.drop_last()) + b.last() * pow2(k),
                pow2((8 * ((a + b).len() - 1)) as nat) == pow2((8 * a.len()) as nat) * pow2(k);
    }
}

/// Reading back the little-endian bytes of `x` gives `x` modulo `2^(8*len)`.
pub proof fn lemma_le_int_le_bytes(x: int, len: int)
    requires
        x >= 0,
        len >= 0,
    ensures
        le_int(le_bytes(x, len)) == x % p2((8 * len) as nat),
    decreases len,
{
    lemma_pow2_pos((8 * len) as nat);
    if len == 0 {
        assert(pow2(0) == 1) by { vstd::arithmetic::power2::lemma2_to64(); }
        assert(le_bytes(x, 0) =~= Seq::<u8>::empty());
    } else {
        let s = le_bytes(x, len);
        assert(s.drop_last() =~= le_bytes(x, len - 1));
        lemma_le_int_le_bytes(x, len - 1);
        let a = (8 * (len - 1)) as nat;
        lemma_pow2_pos(a);
        lemma_pow2_adds(a, 8);
        assert(pow2(8) == 256) by { vstd::arithmetic::power2::lemma2_to64(); }
        lemma_mod_breakdown(x, p2(a), 256);
        lemma_div_pos_is_pos(x, p2(a));
        lemma_mod_bound(x / p2(a), 256);
        assert(s.last() == (x / p2(a)) % 256);
        assert(a + 8 == (8 * len) as nat);
        assert(pow2(a) * ((x / p2(a)) % 256) == ((x / p2(a)) % 256) * pow2(a)) by (nonlinear_arith);
    }
}

/// Unpacking the packed form of values that fit in `w` bits gives the values back.
pub proof fn lemma_unpack_packed(vals: Seq<u64>, w: nat, e: int)
    requires
        vals_fit(vals, w),
        0 <= e < vals.len(),
    ensures
        (packed_int(vals, w) / p2((w * e) as nat)) % p2(w) == vals[e],
    decreases vals.len(),
{
    let prev = vals.drop_last();
    assert(vals_fit(prev, w)) by {
        assert forall|i: int| 0 <= i < prev.len() implies (#[trigger] prev[i]) < pow2(w) by {
            assert(prev[i] == vals[i]);
        }
    }
    let last_pos = (w * (vals.len() - 1)) as nat;
    lemma_pow2_pos((w * e) as nat);
    lemma_pow2_pos(w);
    if e < vals.len() - 1 {
        lemma_unpack_packed(prev, w, e);
        assert(w * (vals.len() - 1) >= w * (e + 1)) by (nonlinear_arith)
            requires e + 1 <= vals.len() - 1;
        assert(w * (e + 1) == w * e + w) by (nonlinear_arith);
        lemma_high_addend_invisible(packed_int(prev, w), vals.last() as int, last_pos, (w * e) as nat, w);
        assert(prev[e] == vals[e]);
    } else {
        lemma_packed_int_bound(prev, w);
        assert(w * prev.len() == last_pos);
        let p = packed_int(prev, w);
        lemma_div_add_multiple(p, vals.last() as int, p2(last_pos));
        lemma_small_mod(p as nat, pow2(last_pos) as nat);
        lemma_div_pos_is_pos(p, p2(last_pos));
        lemma_fundamental_div_mod(p, p2(last_pos));
        assert(p / p2(last_pos) == 0) by (nonlinear_arith)
            requires p == pow2(last_pos) * (p / p2(last_pos)) + p % p2(last_pos), p % p2(last_pos) == p,
                pow2(last_pos) > 0;
        lemma_small_mod(vals.last() as nat, pow2(w) as nat);
    }
}

/// Pack `w`-bit values, least significant bits first.
pub fn pack_values(vals: &Vec<u64>, w: u32) -> (out: Vec<u8>)
    requires
        w <= 32,
        vals_fit(vals@, w as nat),
    ensures
        out@ == le_bytes(packed_int(vals@, w as nat), bytes_for_bits(w * vals@.len())),
{
    let ghost wn = w as nat;
    let mut out: Vec<u8> = Vec::new();
    let mut bit_buf: u64 = 0;
    let mut bit_count: u32 = 0;
    let mut i: usize = 0;
    proof {
        lemma_pow2_pos(0);
        assert(pow2(0) == 1) by { vstd::arithmetic::power2::lemma2_to64(); }
    }
    while i < vals.len()
        invariant
            w <= 32,
            wn == w,
            vals_fit(vals@, wn),
            i <= vals@.len(),
            bit_count < 8,
            out@.len() * 8 + bit_count == w * i,
            bit_buf == packed_int(vals@.subrange(0, i as int), wn) / p2((8 * out@.len()) as nat),
            bit_buf < pow2(bit_count as nat),
            forall|j: int| 0 <= j < out@.len() ==> #[trigger] out@[j] == byte_of(packed_int(vals@.subrange(0, i as int), wn), j),
        decreases vals@.len() - i,
    {
        let val = vals[i];
        let ghost p_old = packed_int(vals@.subrange(0, i as int), wn);
        let ghost p_new = packed_int(vals@.subrange(0, i + 1), wn);
        let ghost o = out@.len();
        proof {
            lemma_packed_int_push(vals@, i as int, wn);
            assert(val < pow2(wn));
            lemma_u64_pow2_no_overflow(32);
            lemma_pow2_adds(wn, bit_count as nat);
            assert(pow2(32) == 0x1_0000_0000) by { vstd::arithmetic::power2::lemma2_to64(); }
            assert(pow2(8) == 256) by { vstd::arithmetic::power2::lemma2_to64(); }
            vstd::arithmetic::power2::lemma_pow2_strictly_increases(bit_count as nat, 8);
            if wn == 32 {
            } else {
                vstd::arithmetic::power2::lemma_pow2_strictly_increases(wn, 32);
            }
            assert(val * pow2(bit_count as nat) <= u64::MAX) by (nonlinear_arith)
                requires val < pow2(wn), pow2(wn) <= 0x1_0000_0000, pow2(bit_count as nat) < 256;
            lemma_u64_shl_is_mul(val, bit_count as u64);
            lemma_u64_shl_is_mul(1, bit_count as u64);
        }
        let shifted = val << bit_count;
        assert(bit_buf | shifted == bit_buf + shifted) by (bit_vector)
            requires bit_buf < (1u64 << bit_count), shifted == val << bit_count, bit_count < 8;
        proof {
            lemma_pow2_adds((8 * o) as nat, bit_count as nat);
            assert((8 * o) as nat + bit_count as nat == wn * i);
            lemma_pow2_pos((8 * o) as nat);
            assert(val * pow2(wn * i as nat) == (val * pow2(bit_count as nat)) * pow2((8 * o) as nat)) by (nonlinear_arith)
                requires pow2(wn * i as nat) == pow2((8 * o) as nat) * pow2(bit_count as nat);
            lemma_div_add_multiple(p_old, val * p2(bit_count as nat), p2((8 * o) as nat));
            assert forall|j: int| 0 <= j < o implies #[trigger] out@[j] == byte_of(p_new, j) by {
                assert(pow2(8) == 256) by { vstd::arithmetic::power2::lemma2_to64(); }
                lemma_high_addend_invisible(p_old, val as int, wn * i as nat, (8 * j) as nat, 8);
            }
        }
        bit_buf = bit_buf | shifted;
        bit_count = bit_count + w;
        proof {
            assert(wn * (i + 1) == wn * i + wn) by (nonlinear_arith);
            assert(vals_fit(vals@.subrange(0, i + 1), wn));
            lemma_packed_int_bound(vals@.subrange(0, i + 1), wn);
            assert((8 * o) as nat + bit_count as nat == wn * (i + 1) as nat);
            lemma_div_pow2_bound(p_new, (8 * o) as nat, bit_count as nat);
        }
        while bit_count >= 8
            invariant
                w <= 32,
                wn == w,
                out@.len() * 8 + bit_count == w * (i + 1),
                bit_count <= 40,
                bit_buf == p_new / p2((8 * out@.len()) as nat),
                bit_buf < pow2(bit_count as nat),
                p_new >= 0,
                p_new < pow2(wn * (i + 1) as nat),
                forall|j: int| 0 <= j < out@.len() ==> #[trigger] out@[j] == byte_of(p_new, j),
            decreases bit_count,
        {
            let ghost o2 = out@.len();
            proof {
                assert(pow2(8) == 256) by { vstd::arithmetic::power2::lemma2_to64(); }
                lemma_pow2_pos((8 * o2) as nat);
                lemma_u64_shr_is_div(bit_buf, 8);
                lemma_div_denominator(p_new, p2((8 * o2) as nat), 256);
                lemma_pow2_adds((8 * o2) as nat, 8);
            }
            let byte = (bit_buf & 0xFF) as u8;
            assert(byte == bit_buf % 256) by (bit_vector)
                requires byte == (bit_buf & 0xFF) as u8;
            out.push(byte);
            bit_buf = bit_buf >> 8;
            bit_count = bit_count - 8;
            proof {
                assert(out@[o2 as int] == byte_of(p_new, o2 as int));
                lemma_div_pow2_bound(p_new, (8 * out@.len()) as nat, bit_count as nat);
            }
        }
        i += 1;
    }
    let ghost p = packed_int(vals@, wn);
    assert(vals@.subrange(0, vals@.len() as int) =~= vals@);
    if bit_count > 0 {
        let ghost o = out@.len();
        let byte = (bit_buf & 0xFF) as u8;
        assert(byte == bit_buf % 256) by (bit_vector)
            requires byte == (bit_buf & 0xFF) as u8;
        proof {
            vstd::arithmetic::power2::lemma_pow2_strictly_increases(bit_count as nat, 8);
            assert(pow2(8) == 256) by { vstd::arithmetic::power2::lemma2_to64(); }
            lemma_small_mod(bit_buf as nat, 256);
        }
        out.push(byte);
        assert(out@[o as int] == byte_of(p, o as int));
    }
    assert(out@ =~= le_bytes(p, bytes_for_bits(w * vals@.len())));
    out
}

/// Unpack `count` values of `w` bits each from the little-endian bit stream `data`.
pub fn unpack_values(data: &[u8], count: usize, w: u32) -> (vals: Vec<u64>)
    requires
        w <= 32,
        data@.len() >= bytes_for_bits(w * count),
    ensures
        vals@.len() == count,
        forall|e: int| 0 <= e < count ==> #[trigger] vals@[e] == unpacked_value(data@, w as nat, e),
{
    let ghost wn = w as nat;
    let mut vals: Vec<u64> = Vec::with_capacity(count);
    let mut bit_buf: u64 = 0;
    let mut bit_count: u32 = 0;
    let mut idx: usize = 0;
    let dlen = data.len();
    proof {
        lemma_pow2_pos(0);
        assert(pow2(0) == 1) by { vstd::arithmetic::power2::lemma2_to64(); }
        lemma_le_int_nonneg(data@);
        assert(data@.subrange(0, 0) =~= Seq::<u8>::empty());
    }
    let mut e: usize = 0;
    while e < count
        invariant
            w <= 32,
            wn == w,
            dlen == data@.len(),
            data@.len() >= bytes_for_bits(w * count),
            e <= count,
            vals@.len() == e,
            idx <= dlen,
            8 * idx == w * e + bit_count,
            bit_count < w || (e == 0 && bit_count == 0) || bit_count < 8,
            bit_count <= 39,
            bit_buf == le_int(data@.subrange(0, idx as int)) / p2((w * e) as nat),
            bit_buf < pow2(bit_count as nat),
            forall|t: int| 0 <= t < e ==> #[trigger] vals@[t] == unpacked_value(data@, wn, t),
        decreases count - e,
    {
        while bit_count < w && idx < dlen
            invariant
                w <= 32,
                wn == w,
                dlen == data@.len(),
                e < count,
                idx <= dlen,
                8 * idx == w * e + bit_count,
                bit_count <= w + 7,
                bit_buf == le_int(data@.subrange(0, idx as int)) / p2((w * e) as nat),
                bit_buf < pow2(bit_count as nat),
            decreases dlen - idx,
        {
            let ghost d_old = le_int(data@.subrange(0, idx as int));
            let byte = data[idx] as u64;
            proof {
                lemma_le_int_push(data@, idx as int);
                lemma_u64_pow2_no_overflow(40);
                assert(pow2(40) == 0x100_0000_0000) by { vstd::arithmetic::power2::lemma2_to64_rest(); }
                vstd::arithmetic::power2::lemma_pow2_strictly_increases(bit_count as nat, 40);
                assert(byte * pow2(bit_count as nat) <= u64::MAX) by (nonlinear_arith)
                    requires byte < 256, pow2(bit_count as nat) < 0x100_0000_0000;
                lemma_u64_shl_is_mul(byte, bit_count as u64);
                lemma_u64_shl_is_mul(1, bit_count as u64);
                lemma_pow2_adds((w * e) as nat, bit_count as nat);
                lemma_pow2_pos((w * e) as nat);
                assert(byte * pow2((8 * idx) as nat) == (byte * pow2(bit_count as nat)) * pow2((w * e) as nat)) by (nonlinear_arith)
                    requires pow2((8 * idx) as nat) == pow2((w * e) as nat) * pow2(bit_count as nat);
                lemma_div_add_multiple(d_old, byte * p2(bit_count as nat), p2((w * e) as nat));
                lemma_pow2_adds(bit_count as nat, 8);
                assert(pow2(8) == 256) by { vstd::arithmetic::power2::lemma2_to64(); }
            }
            let shifted = byte << bit_count;
            assert(bit_buf | shifted == bit_buf + shifted) by (bit_vector)
                requires bit_buf < (1u64 << bit_count), shifted == byte << bit_count, bit_count < 40;
            bit_buf = bit_buf | shifted;
            bit_count = bit_count + 8;
            idx += 1;
            proof {
                assert(bit_buf < pow2(bit_count as nat)) by (nonlinear_arith)
                    requires bit_buf == (bit_buf - shifted) + shifted, bit_buf - shifted < pow2((bit_count - 8) as nat),
                        shifted == byte * pow2((bit_count - 8) as nat), byte < 256,
                        pow2(bit_count as nat) == pow2((bit_count - 8) as nat) * 256;
            }
        }
        proof {
            assert(w * (e + 1) == w * e + w) by (nonlinear_arith);
            // enough bytes remain for the value being read
            assert(w * (e + 1) <= w * count) by (nonlinear_arith) requires e + 1 <= count;
            if bit_count < w {
                assert(idx >= dlen);
                assert(8 * dlen >= w * count);
                assert(false) by (nonlinear_arith)
                    requires 8 * idx == w * e + bit_count, bit_count < w, idx >= dlen, 8 * dlen >= w * count,
                        w * (e + 1) <= w * count, w * (e + 1) == w * e + w;
            }
        }
        let ghost d = le_int(data@.subrange(0, idx as int));
        proof {
            lemma_u64_pow2_no_overflow(w as nat);
            lemma_pow2_pos(w as nat);
            vstd::bits::lemma_u64_low_bits_mask_is_mod(bit_buf, w as nat);
            lemma_u64_shr_is_div(bit_buf, w as u64);
            lemma_u64_shl_is_mul(1, w as u64);
            lemma_pow2_pos((w * e) as nat);
            lemma_le_int_nonneg(data@.subrange(0, idx as int));
            lemma_div_denominator(d, p2((w * e) as nat), p2(w as nat));
            lemma_pow2_adds((w * e) as nat, w as nat);
            // the value only depends on bytes already read
            let rest = data@.subrange(idx as int, data@.len() as int);
            assert(data@ =~= data@.subrange(0, idx as int) + rest);
            lemma_le_int_concat(data@.subrange(0, idx as int), rest);
            lemma_le_int_nonneg(data@.subrange(0, idx as int));
            assert((w * e) as nat + wn <= (8 * idx) as nat);
            assert(le_int(data@) == d + le_int(rest) * pow2((8 * idx) as nat)) by (nonlinear_arith)
                requires le_int(data@) == d + pow2((8 * idx) as nat) * le_int(rest);
            lemma_high_addend_invisible(d, le_int(rest), (8 * idx) as nat, (w * e) as nat, wn);
        }
        let mask: u64 = (1u64 << w) - 1;
        assert(mask == vstd::bits::low_bits_mask(w as nat)) by {
            assert(vstd::bits::low_bits_mask(w as nat) == pow2(w as nat) - 1);
        }
        let val = bit_buf & mask;
        vals.push(val);
        bit_buf = bit_buf >> w;
        bit_count = bit_count - w;
        proof {
            lemma_div_pow2_bound(d / p2((w * e) as nat), w as nat, bit_count as nat);
            assert(w as nat + bit_count as nat == (bit_count + w) as nat);
            lemma_div_pow2_bound(d / p2((w * e) as nat), w as nat, bit_count as nat);
        }
        e += 1;
        assert(w * e == w * (e - 1) + w) by (nonlinear_arith);
    }
    vals
}

/// Round trip: reading value `e` back from the packed bytes of values that fit
/// in `w` bits gives `vals[e]`.
pub proof fn lemma_pack_roundtrip(vals: Seq<u64>, w: nat, e: int)
    requires
        vals_fit(vals, w),
        0 <= e < vals.len(),
    ensures
        unpacked_value(le_bytes(packed_int(vals, w), bytes_for_bits((w * vals.len()) as int)), w, e) == vals[e],
{
    let x = packed_int(vals, w);
    let len = bytes_for_bits((w * vals.len()) as int);
    lemma_packed_int_bound(vals, w);
    lemma_le_int_le_bytes(x, len);
    assert(8 * len >= w * vals.len());
    if 8 * len > w * vals.len() {
        vstd::arithmetic::power2::lemma_pow2_strictly_increases(w * vals.len(), (8 * len) as nat);
    }
    lemma_pow2_pos((8 * len) as nat);
    lemma_small_mod(x as nat, pow2((8 * len) as nat));
    lemma_unpack_packed(vals, w, e);
}

/// Number of bits needed to write `x` in binary (0 for 0).
pub open spec fn bit_len(x: nat) -> nat
    decreases x,
{
    if x == 0 { 0 } else { 1 + bit_len(x / 2) }
}

/// `x < 2^bit_len(x)`, and `x < 2^k` bounds the bit length by `k`.
pub proof fn lemma_bit_len(x: nat, k: nat)
    ensures
        x < pow2(bit_len(x)),
        x < pow2(k) ==> bit_len(x) <= k,
        x > 0 ==> bit_len(x) >= 1,
    decreases x,
{
    if x == 0 {
        lemma_pow2_pos(0);
    } else {
        if k > 0 {
            lemma_bit_len(x / 2, (k - 1) as nat);
            vstd::arithmetic::power2::lemma_pow2_unfold(k);
        } else {
            lemma_bit_len(x / 2, 0);
            vstd::arithmetic::power2::lemma2_to64();
        }
        vstd::arithmetic::power2::lemma_pow2_unfold(bit_len(x));
    }
}

/// Bit length of a 64-bit value.
pub fn bit_length(x: u64) -> (b: u32)
    ensures
        b == bit_len(x as nat),
        b <= 64,
{
    let mut y = x;
    let mut b: u32 = 0;
    proof {
        vstd::arithmetic::power2::lemma2_to64_rest();
        lemma_bit_len(x as nat, 64);
    }
    while y > 0
        invariant
            b + bit_len(y as nat) == bit_len(x as nat),
            bit_len(x as nat) <= 64,
        decreases y,
    {
        y = y / 2;
        b = b + 1;
    }
    b
}

} // verus!
