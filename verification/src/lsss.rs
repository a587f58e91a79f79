//! LSSS (linear secret sharing scheme) matrix engine.
//!
//! An access structure is a sharing matrix `M` over `Z_q` (`l x n`) with a map
//! `rho` from rows to attributes. For a secret `s`, pick random `r_2..r_n`, let
//! `v = (s, r_2, ..., r_n)`; share `i` is `lambda_i = M_i . v mod q`. When an
//! attribute set satisfies the structure there are constants `omega_i` with
//! `sum omega_i M_i = (1, 0, ..., 0)`, so `sum omega_i lambda_i = s`.
use vstd::prelude::*;
use vstd::arithmetic::div_mod::{lemma_fundamental_div_mod, lemma_mod_bound, lemma_mod_pos_bound};
use crate::errors::{PabsCrfError, PabsCrfResult};
use crate::policy::{attr_set, depth_at, eval_rule, paren_group, parse_spec, Policy};
use crate::rng::{gen_range_i64, thread_rng};
use crate::text::{chars_of, is_ws, lemma_trim_len, occurs_at, string_from_chars, trim, trim_range};

verus! {

/// Largest absolute reconstruction constant accepted.
pub const MAX_RECONSTRUCTION_COEFF_NORM: i64 = 0x1_0000;

/// Largest nesting depth of policies lowered to a matrix.
pub const MAX_POLICY_DEPTH: usize = 8;

// ---------------------------------------------------------------------------
// Modular inverse
// ---------------------------------------------------------------------------

/// Greatest common divisor (Euclid).
pub open spec fn gcd(a: int, b: int) -> int
    decreases b,
    when b >= 0
{
    if b == 0 {
        a
    } else {
        gcd(b, a % b)
    }
}

/// `p` is prime.
pub open spec fn prime(p: int) -> bool {
    p > 1 && forall|d: int| 1 < d < p ==> #[trigger] (p % d) != 0
}

/// `gcd(a, b)` divides both arguments and is positive when `a` is.
proof fn lemma_gcd_divides(a: int, b: int)
    requires
        a >= 0,
        b >= 0,
        a > 0 || b > 0,
    ensures
        gcd(a, b) >= 1,
        a % gcd(a, b) == 0,
        b % gcd(a, b) == 0,
    decreases b,
{
    if b == 0 {
        vstd::arithmetic::div_mod::lemma_mod_self_0(a);
        vstd::arithmetic::div_mod::lemma_small_mod(0, a as nat);
    } else {
        lemma_mod_pos_bound(a, b);
        lemma_gcd_divides(b, a % b);
        let g = gcd(b, a % b);
        lemma_fundamental_div_mod(a, b);
        // a = b * (a / b) + a % b, and g divides both terms
        vstd::arithmetic::div_mod::lemma_mod_multiples_basic(a / b, b);
        let kb = b / g;
        let kr = (a % b) / g;
        lemma_fundamental_div_mod(b, g);
        lemma_fundamental_div_mod(a % b, g);
        assert(a == g * (kb * (a / b) + kr)) by (nonlinear_arith)
            requires
                a == b * (a / b) + a % b,
                b == g * kb + b % g,
                a % b == g * kr + (a % b) % g,
                b % g == 0,
                (a % b) % g == 0;
        vstd::arithmetic::div_mod::lemma_mod_multiples_basic(kb * (a / b) + kr, g);
        assert((g * (kb * (a / b) + kr)) % g == 0) by {
            vstd::arithmetic::mul::lemma_mul_is_commutative(g, kb * (a / b) + kr);
        }
    }
}

/// A value in `(0, p)` shares no factor with a prime `p`.
proof fn lemma_prime_gcd(a: int, p: int)
    requires
        prime(p),
        0 < a < p,
    ensures
        gcd(a, p) == 1,
{
    lemma_gcd_divides(a, p);
    let g = gcd(a, p);
    if g > a {
        vstd::arithmetic::div_mod::lemma_small_mod(a as nat, g as nat);
    }
    assert(g <= a);
    if g > 1 {
        assert(p % g != 0);
    }
}

pub open spec fn iabs(v: int) -> int {
    if v < 0 { -v } else { v }
}

/// One step of the extended Euclidean algorithm keeps its invariants.
proof fn lemma_euclid_step(aa: int, bb: int, x: int, y: int, a0: int, m: int)
    requires
        m >= 2,
        aa > 1,
        bb >= 1,
        (x * a0 - aa) % m == 0,
        (y * a0 - bb) % m == 0,
        x * y <= 0,
        iabs(x) * bb + iabs(y) * aa == m,
    ensures
        ({
            let q = aa / bb;
            let r = aa % bb;
            let y2 = x - q * y;
            &&& 0 <= r < bb
            &&& 0 <= q <= aa
            &&& iabs(q * y) <= m
            &&& iabs(x) <= m
            &&& (y * a0 - bb) % m == 0
            &&& (y2 * a0 - r) % m == 0
            &&& y * y2 <= 0
            &&& iabs(y) * r + iabs(y2) * bb == m
            &&& iabs(y) <= m
            &&& iabs(y2) <= m
        }),
{
    let q = aa / bb;
    let r = aa % bb;
    let y2 = x - q * y;
    lemma_fundamental_div_mod(aa, bb);
    lemma_mod_pos_bound(aa, bb);
    vstd::arithmetic::div_mod::lemma_div_pos_is_pos(aa, bb);
    assert(q <= aa) by (nonlinear_arith)
        requires aa == bb * q + r, bb >= 1, r >= 0, q >= 0;
    assert(iabs(q * y) <= iabs(y) * aa) by (nonlinear_arith)
        requires q >= 0, q <= aa;
    assert(iabs(y) * aa <= m) by (nonlinear_arith)
        requires iabs(x) * bb + iabs(y) * aa == m, iabs(x) >= 0, bb >= 1;
    assert(iabs(x) <= m) by (nonlinear_arith)
        requires iabs(x) * bb + iabs(y) * aa == m, iabs(y) >= 0, aa >= 0, bb >= 1, iabs(x) >= 0;
    assert(iabs(y) <= m) by (nonlinear_arith)
        requires iabs(y) * aa <= m, aa >= 1, iabs(y) >= 0;
    // coefficient of the new remainder
    assert(y2 * a0 - r == (x * a0 - aa) - q * (y * a0 - bb)) by (nonlinear_arith)
        requires y2 == x - q * y, aa == bb * q + r;
    vstd::arithmetic::div_mod::lemma_mod_multiples_vanish(-q * ((y * a0 - bb) / m), x * a0 - aa, m);
    lemma_fundamental_div_mod(y * a0 - bb, m);
    assert(q * (y * a0 - bb) == m * (q * ((y * a0 - bb) / m))) by (nonlinear_arith)
        requires y * a0 - bb == m * ((y * a0 - bb) / m) + (y * a0 - bb) % m, (y * a0 - bb) % m == 0;
    assert((y2 * a0 - r) == (x * a0 - aa) + m * (-q * ((y * a0 - bb) / m))) by (nonlinear_arith)
        requires y2 * a0 - r == (x * a0 - aa) - q * (y * a0 - bb), q * (y * a0 - bb) == m * (q * ((y * a0 - bb) / m));
    vstd::arithmetic::div_mod::lemma_mod_multiples_vanish(-q * ((y * a0 - bb) / m), x * a0 - aa, m);
    // signs alternate and sizes are kept
    assert(iabs(y2) == iabs(x) + q * iabs(y)) by (nonlinear_arith)
        requires y2 == x - q * y, x * y <= 0, q >= 0;
    assert(y * y2 <= 0) by (nonlinear_arith)
        requires y2 == x - q * y, x * y <= 0, q >= 0;
    assert(iabs(y) * r + iabs(y2) * bb == m) by (nonlinear_arith)
        requires iabs(y2) == iabs(x) + q * iabs(y), aa == bb * q + r, iabs(x) * bb + iabs(y) * aa == m;
    assert(iabs(y2) <= m) by (nonlinear_arith)
        requires iabs(y) * r + iabs(y2) * bb == m, bb >= 1, r >= 0, iabs(y) >= 0, iabs(y2) >= 0;
}

/// An inverse of `a mod m` is an inverse of `a`.
proof fn lemma_inverse_lift(x: int, a: int, a0: int, m: int)
    requires
        m >= 2,
        a0 == a % m,
        (x * a0 - 1) % m == 0,
    ensures
        (x * a) % m == 1,
{
    lemma_fundamental_div_mod(a, m);
    lemma_fundamental_div_mod(x * a0 - 1, m);
    let k = (x * a0 - 1) / m;
    assert(x * a == 1 + m * (k + x * (a / m))) by (nonlinear_arith)
        requires a == m * (a / m) + a0, x * a0 - 1 == m * k + 0;
    vstd::arithmetic::div_mod::lemma_mod_multiples_vanish(k + x * (a / m), 1, m);
    vstd::arithmetic::div_mod::lemma_small_mod(1, m as nat);
}

/// Inverse of `a` modulo `m` by the extended Euclidean algorithm (`Some(0)` when `m == 1`).
fn mod_inverse(a: i64, m: i64) -> (r: Option<i64>)
    requires
        1 <= m <= 0x8000_0000,
        (a as int) % (m as int) == 0 || gcd((a as int) % (m as int), m as int) == 1,
    ensures
        r is Some,
        r matches Some(x) ==> 0 <= x <= m,
        r matches Some(x) ==> (m > 1 && (a as int) % (m as int) != 0 ==> (x * a) % (m as int) == 1),
{
    let ghost a_in = a as int;
    proof {
        crate::modarith::lemma_trem(a as int, m as int);
    }
    let a = ((a % m) + m) % m;
    let ghost a0 = a as int;
    assert(a0 == a_in % (m as int)) by {
        crate::modarith::lemma_add_mod(crate::modarith::trem(a_in, m as int), m as int, m as int);
    }
    let mut m0 = m;
    let mut y: i64 = 0;
    let mut x: i64 = 1;
    if m == 1 {
        return Some(0);
    }
    let mut a_copy = a;
    proof {
        assert(1 * a0 - a0 == 0);
        vstd::arithmetic::div_mod::lemma_small_mod(0, m as nat);
        assert(iabs(x as int) == 1 && iabs(y as int) == 0);
        assert(iabs(x as int) * m0 + iabs(y as int) * a_copy == m) by (nonlinear_arith)
            requires iabs(x as int) == 1, iabs(y as int) == 0, m0 == m;
        assert((0 * a0 - m) % (m as int) == 0) by {
            vstd::arithmetic::div_mod::lemma_mod_self_0(m as int);
            assert(0 * a0 - m == -m);
            vstd::arithmetic::div_mod::lemma_mod_multiples_vanish(-1, 0, m as int);
        }
    }
    while a_copy > 1
        invariant
            2 <= m <= 0x8000_0000,
            0 <= a0 < m,
            a0 == 0 || gcd(a0, m as int) == 1,
            a0 == 0 ==> a_copy == 0,
            a0 != 0 ==> a_copy >= 1,
            m0 >= 0,
            gcd(a_copy as int, m0 as int) == gcd(a0, m as int),
            (x * a0 - a_copy) % (m as int) == 0,
            (y * a0 - m0) % (m as int) == 0,
            x * y <= 0,
            iabs(x as int) * m0 + iabs(y as int) * a_copy == m,
            iabs(x as int) <= m,
            iabs(y as int) <= m,
        decreases m0,
    {
        assert(m0 != 0) by {
            if m0 == 0 {
                assert(gcd(a_copy as int, 0) == a_copy);
            }
        }
        proof {
            lemma_euclid_step(a_copy as int, m0 as int, x as int, y as int, a0, m as int);
        }
        let q = a_copy / m0;
        let t = m0;
        m0 = a_copy % m0;
        a_copy = t;
        let temp = y;
        y = x - q * y;
        x = temp;
    }
    let ghost x_before = x as int;
    if x < 0 {
        x += m;
    }
    proof {
        if a0 != 0 {
            assert(a_copy == 1);
            // x == x_before or x_before + m
            assert((x * a0 - 1) % (m as int) == 0) by {
                if x_before < 0 {
                    assert(x * a0 - 1 == (x_before * a0 - 1) + m * a0) by (nonlinear_arith)
                        requires x == x_before + m;
                    vstd::arithmetic::div_mod::lemma_mod_multiples_vanish(a0, x_before * a0 - 1, m as int);
                }
            }
            lemma_inverse_lift(x as int, a_in, a0, m as int);
        }
    }
    Some(x)
}

// ---------------------------------------------------------------------------
// Gaussian elimination over Z_q
// ---------------------------------------------------------------------------

/// A `rows x cols` table with every entry in `[0, q)`.
pub open spec fn reduced_table(t: Seq<Vec<i64>>, rows: int, cols: int, q: int) -> bool {
    &&& t.len() == rows
    &&& forall|i: int| 0 <= i < rows ==> (#[trigger] t[i])@.len() == cols
    &&& forall|i: int, j: int| 0 <= i < rows && 0 <= j < cols ==> 0 <= #[trigger] t[i]@[j] < q
}

/// Every row of `m` has at least as many entries as the first.
pub open spec fn rows_cover_first(m: Seq<Vec<i64>>) -> bool {
    m.len() > 0 ==> forall|j: int| 0 <= j < m.len() ==> (#[trigger] m[j])@.len() >= m[0]@.len()
}

/// The rows of a table of vectors, as sequences.
pub open spec fn table_view(t: Seq<Vec<i64>>) -> Seq<Seq<i64>> {
    Seq::new(t.len(), |i: int| t[i]@)
}

/// The augmented system `[M^T | e_1]` over `Z_q` for the rows `m`: one row per
/// column of `m`, entries reduced into `[0, q)`, and the target `1` in the first
/// row only.
pub open spec fn augmented_system(m: Seq<Seq<i64>>, q: int) -> Seq<Seq<i64>> {
    Seq::new(
        m[0].len(),
        |i: int| Seq::new(m.len() + 1, |j: int| if j < m.len() { ((m[j][i] as int) % q) as i64 } else if i == 0 { 1i64 } else { 0i64 }),
    )
}

/// `x` in `[0, q)` is an inverse of `a` modulo `q`.
pub open spec fn is_inverse_mod(x: int, a: int, q: int) -> bool {
    0 <= x < q && (x * a) % q == 1
}

/// The inverse of `a` modulo `q` in `[0, q)`.
pub open spec fn inverse_mod(a: int, q: int) -> int {
    choose|x: int| #[trigger] is_inverse_mod(x, a, q)
}

/// `row` multiplied by `c` modulo `q`.
pub open spec fn scaled_row(row: Seq<i64>, c: int, q: int) -> Seq<i64> {
    Seq::new(row.len(), |j: int| (((row[j] as int) * c) % q) as i64)
}

/// `row - f * pivot` modulo `q`.
pub open spec fn reduced_row(row: Seq<i64>, pivot: Seq<i64>, f: int, q: int) -> Seq<i64> {
    Seq::new(row.len(), |j: int| (((row[j] as int) - f * pivot[j]) % q) as i64)
}

/// The first row at or after `from` whose entry in column `col` is nonzero.
pub open spec fn pivot_search(t: Seq<Seq<i64>>, col: int, from: int) -> Option<int>
    decreases t.len() - from,
{
    if from < 0 || from >= t.len() {
        None
    } else if t[from][col] != 0 {
        Some(from)
    } else {
        pivot_search(t, col, from + 1)
    }
}

/// Rows `a` and `b` exchanged.
pub open spec fn swapped_rows(t: Seq<Seq<i64>>, a: int, b: int) -> Seq<Seq<i64>> {
    if a == b {
        t
    } else {
        t.update(a, t[b]).update(b, t[a])
    }
}

/// Row `p` moved to position `pr` and normalised so that its entry in `col` is 1.
pub open spec fn normalised_pivot(t: Seq<Seq<i64>>, pr: int, p: int, col: int, q: int) -> Seq<Seq<i64>> {
    let s = swapped_rows(t, pr, p);
    s.update(pr, scaled_row(s[pr], inverse_mod(s[pr][col] as int, q), q))
}

/// Column `col` cleared in every row but the pivot row `pr`.
pub open spec fn cleared_column(t: Seq<Seq<i64>>, pr: int, col: int, q: int) -> Seq<Seq<i64>> {
    Seq::new(
        t.len(),
        |r: int| if r != pr && t[r][col] != 0 { reduced_row(t[r], t[pr], t[r][col] as int, q) } else { t[r] },
    )
}

/// One Gauss-Jordan step on column `col` with `pr` pivots found so far.
pub open spec fn elimination_step(t: Seq<Seq<i64>>, pr: int, col: int, q: int) -> (Seq<Seq<i64>>, int) {
    match pivot_search(t, col, pr) {
        Some(p) => (cleared_column(normalised_pivot(t, pr, p, col, q), pr, col, q), pr + 1),
        None => (t, pr),
    }
}

/// The table and the number of pivots after eliminating the first `cols` columns.
pub open spec fn eliminated(t0: Seq<Seq<i64>>, q: int, cols: nat) -> (Seq<Seq<i64>>, int)
    decreases cols,
{
    if cols == 0 {
        (t0, 0)
    } else {
        let (t, pr) = eliminated(t0, q, (cols - 1) as nat);
        elimination_step(t, pr, cols - 1, q)
    }
}

/// `v` in `[0, q)` centred into `(-q/2, q/2]`.
pub open spec fn centred(v: i64, q: int) -> i64 {
    if v <= q / 2 { v } else { (v - q) as i64 }
}

/// The columns in which the first `cols` elimination steps found a pivot, in order.
pub open spec fn pivot_columns(t0: Seq<Seq<i64>>, q: int, cols: nat) -> Seq<int>
    decreases cols,
{
    if cols == 0 {
        Seq::empty()
    } else {
        let prev = pivot_columns(t0, q, (cols - 1) as nat);
        let (t, pr) = eliminated(t0, q, (cols - 1) as nat);
        if pivot_search(t, cols - 1, pr) is Some {
            prev.push(cols - 1)
        } else {
            prev
        }
    }
}

/// The solution read off the reduced system: for each of the first `upto`
/// pivot rows, the unknown of its pivot column takes the row's (centred)
/// target; every other unknown is 0.
pub open spec fn placed_solution(t: Seq<Seq<i64>>, piv: Seq<int>, nr: int, q: int, upto: int) -> Seq<i64>
    decreases upto,
{
    if upto <= 0 {
        Seq::new(nr as nat, |i: int| 0i64)
    } else {
        placed_solution(t, piv, nr, q, upto - 1).update(piv[upto - 1], centred(t[upto - 1][nr], q))
    }
}

/// What Gauss-Jordan elimination of `[M^T | e_1]` answers for the rows `m`:
/// `None` for an empty system or when a row without a pivot has a nonzero
/// target; otherwise the unknown of each pivot column takes its row's target
/// (centred), and the free unknowns are 0.
pub open spec fn solve_spec(m: Seq<Seq<i64>>, q: int) -> Option<Seq<i64>> {
    if m.len() == 0 || m[0].len() == 0 {
        None
    } else {
        let nr = m.len() as int;
        let (t, pr) = eliminated(augmented_system(m, q), q, m.len());
        if exists|r: int| pr <= r < m[0].len() && #[trigger] t[r][nr] != 0 {
            None
        } else {
            Some(placed_solution(t, pivot_columns(augmented_system(m, q), q, m.len()), nr, q, pr))
        }
    }
}

/// The values of a usize sequence as integers.
pub open spec fn int_seq(s: Seq<usize>) -> Seq<int> {
    Seq::new(s.len(), |i: int| s[i] as int)
}

/// An inverse modulo `q` in `[0, q)` is unique.
proof fn lemma_inverse_unique(a: int, x: int, q: int)
    requires
        q > 1,
        0 <= x < q,
        (x * a) % q == 1,
    ensures
        inverse_mod(a, q) == x,
{
    assert(is_inverse_mod(x, a, q));
    let y = inverse_mod(a, q);
    assert(0 <= y < q && (y * a) % q == 1);
    vstd::arithmetic::div_mod::lemma_mul_mod_noop_right(x, y * a, q);
    vstd::arithmetic::div_mod::lemma_mul_mod_noop_right(y, x * a, q);
    vstd::arithmetic::div_mod::lemma_small_mod(x as nat, q as nat);
    vstd::arithmetic::div_mod::lemma_small_mod(y as nat, q as nat);
    assert(x * (y * a) == y * (x * a)) by (nonlinear_arith);
}

/// `row[j] := (row[j] * inv) mod q` for every `j`.
fn scale_row(row: &mut Vec<i64>, inv: i64, q: i64)
    requires
        2 <= q < 0x8000_0000,
        0 <= inv <= q,
        forall|j: int| 0 <= j < old(row)@.len() ==> 0 <= #[trigger] old(row)@[j] < q,
    ensures
        final(row)@.len() == old(row)@.len(),
        forall|j: int| 0 <= j < final(row)@.len() ==> #[trigger] final(row)@[j] == (old(row)@[j] * inv) % (q as int),
        forall|j: int| 0 <= j < final(row)@.len() ==> 0 <= #[trigger] final(row)@[j] < q,
{
    let mut j: usize = 0;
    while j < row.len()
        invariant
            2 <= q < 0x8000_0000,
            0 <= inv <= q,
            row@.len() == old(row)@.len(),
            j <= row@.len(),
            forall|t: int| 0 <= t < j ==> #[trigger] row@[t] == (old(row)@[t] * inv) % (q as int),
            forall|t: int| j <= t < row@.len() ==> #[trigger] row@[t] == old(row)@[t],
            forall|t: int| 0 <= t < row@.len() ==> 0 <= #[trigger] row@[t] < q,
        decreases row@.len() - j,
    {
        let v = row[j];
        assert(0 <= v * inv <= q * q) by (nonlinear_arith)
            requires 0 <= v < q, 0 <= inv <= q;
        assert(q * q < 0x4000_0000_0000_0000) by (nonlinear_arith)
            requires 2 <= q < 0x8000_0000;
        let nv = ((v * inv) % q + q) % q;
        proof {
            crate::modarith::lemma_trem((v * inv) as int, q as int);
            crate::modarith::lemma_add_mod(crate::modarith::trem((v * inv) as int, q as int), q as int, q as int);
            vstd::arithmetic::div_mod::lemma_mod_self_0(q as int);
        }
        row.set(j, nv);
        j += 1;
    }
}

/// `row[j] := (row[j] - factor * pivot[j]) mod q` for every `j`.
fn eliminate_row(row: &mut Vec<i64>, pivot: &Vec<i64>, factor: i64, q: i64)
    requires
        2 <= q < 0x8000_0000,
        0 <= factor < q,
        pivot@.len() == old(row)@.len(),
        forall|j: int| 0 <= j < old(row)@.len() ==> 0 <= #[trigger] old(row)@[j] < q,
        forall|j: int| 0 <= j < pivot@.len() ==> 0 <= #[trigger] pivot@[j] < q,
    ensures
        final(row)@.len() == old(row)@.len(),
        forall|j: int| 0 <= j < final(row)@.len() ==> #[trigger] final(row)@[j] == (old(row)@[j] - factor * pivot@[j]) % (
        q as int),
        forall|j: int| 0 <= j < final(row)@.len() ==> 0 <= #[trigger] final(row)@[j] < q,
{
    let mut j: usize = 0;
    while j < row.len()
        invariant
            2 <= q < 0x8000_0000,
            0 <= factor < q,
            pivot@.len() == old(row)@.len(),
            row@.len() == old(row)@.len(),
            j <= row@.len(),
            forall|t: int| 0 <= t < pivot@.len() ==> 0 <= #[trigger] pivot@[t] < q,
            forall|t: int| 0 <= t < j ==> #[trigger] row@[t] == (old(row)@[t] - factor * pivot@[t]) % (q as int),
            forall|t: int| j <= t < row@.len() ==> #[trigger] row@[t] == old(row)@[t],
            forall|t: int| 0 <= t < row@.len() ==> 0 <= #[trigger] row@[t] < q,
        decreases row@.len() - j,
    {
        let v = row[j];
        let pv = pivot[j];
        assert(0 <= factor * pv < q * q) by (nonlinear_arith)
            requires 0 <= factor < q, 0 <= pv < q;
        assert(q * q < 0x4000_0000_0000_0000) by (nonlinear_arith)
            requires 2 <= q < 0x8000_0000;
        let d = v - factor * pv;
        let nv = (d % q + q) % q;
        proof {
            crate::modarith::lemma_trem(d as int, q as int);
            crate::modarith::lemma_add_mod(crate::modarith::trem(d as int, q as int), q as int, q as int);
            vstd::arithmetic::div_mod::lemma_mod_self_0(q as int);
        }
        row.set(j, nv);
        j += 1;
    }
}

/// `v mod q` in `[0, q)`.
fn reduce_mod(v: i64, q: i64) -> (r: i64)
    requires
        2 <= q < 0x8000_0000,
    ensures
        r == (v as int) % (q as int),
        0 <= r < q,
{
    proof {
        crate::modarith::lemma_trem(v as int, q as int);
        crate::modarith::lemma_add_mod(crate::modarith::trem(v as int, q as int), q as int, q as int);
        vstd::arithmetic::div_mod::lemma_mod_self_0(q as int);
    }
    ((v % q) + q) % q
}

/// The augmented system `[M^T | e_1]` of the rows `m` over `Z_q`.
fn build_augmented(m: &[Vec<i64>], q: i64) -> (aug: Vec<Vec<i64>>)
    requires
        m@.len() >= 1,
        rows_cover_first(m@),
        2 <= q < 0x8000_0000,
    ensures
        table_view(aug@) == augmented_system(table_view(m@), q as int),
        reduced_table(aug@, m@[0]@.len() as int, m@.len() + 1int, q as int),
{
    let n_rows = m.len();
    let n_cols = m[0].len();
    let ghost tv = table_view(m@);
    let ghost target = augmented_system(tv, q as int);
    let mut aug: Vec<Vec<i64>> = Vec::new();
    let mut i: usize = 0;
    while i < n_cols
        invariant
            n_rows == m@.len(),
            n_rows >= 1,
            n_cols == m@[0]@.len(),
            rows_cover_first(m@),
            tv == table_view(m@),
            target == augmented_system(tv, q as int),
            2 <= q < 0x8000_0000,
            i <= n_cols,
            aug@.len() == i,
            forall|t: int| 0 <= t < i ==> (#[trigger] aug@[t])@ == target[t],
            reduced_table(aug@, i as int, n_rows + 1, q as int),
        decreases n_cols - i,
    {
        let mut row: Vec<i64> = Vec::new();
        let mut j: usize = 0;
        while j < n_rows
            invariant
                n_rows == m@.len(),
                n_cols == m@[0]@.len(),
                rows_cover_first(m@),
                tv == table_view(m@),
                i < n_cols,
                2 <= q < 0x8000_0000,
                j <= n_rows,
                row@.len() == j,
                forall|t: int| 0 <= t < j ==> #[trigger] row@[t] == ((tv[t][i as int] as int) % (q as int)) as i64,
                forall|t: int| 0 <= t < j ==> 0 <= #[trigger] row@[t] < q,
            decreases n_rows - j,
        {
            assert(m@[j as int]@.len() >= m@[0]@.len());
            let v = m[j][i];
            assert(tv[j as int][i as int] == v);
            row.push(reduce_mod(v, q));
            j += 1;
        }
        row.push(if i == 0 { 1 } else { 0 });
        assert(row@ =~= target[i as int]);
        aug.push(row);
        i += 1;
    }
    assert(table_view(aug@) =~= target);
    aug
}

/// The first row at or after `from` with a nonzero entry in column `col`.
fn find_pivot(aug: &Vec<Vec<i64>>, col: usize, from: usize, n_cols: usize, width: usize, q: i64) -> (r: Option<usize>)
    requires
        reduced_table(aug@, n_cols as int, width as int, q as int),
        col < width,
        from <= n_cols,
    ensures
        r matches Some(p) ==> pivot_search(table_view(aug@), col as int, from as int) == Some(p as int),
        r is None ==> pivot_search(table_view(aug@), col as int, from as int) is None,
        r matches Some(p) ==> from <= p < n_cols && aug@[p as int]@[col as int] != 0,
{
    let ghost tv = table_view(aug@);
    let mut row = from;
    while row < n_cols
        invariant
            reduced_table(aug@, n_cols as int, width as int, q as int),
            tv == table_view(aug@),
            col < width,
            from <= row <= n_cols,
            pivot_search(tv, col as int, from as int) == pivot_search(tv, col as int, row as int),
        decreases n_cols - row,
    {
        assert(tv[row as int][col as int] == aug@[row as int]@[col as int]);
        if aug[row][col] != 0 {
            return Some(row);
        }
        row += 1;
    }
    None
}

/// Move row `p` to position `pr` and scale it so that its entry in `col` is 1.
fn normalise(aug: &mut Vec<Vec<i64>>, pr: usize, p: usize, col: usize, n_cols: usize, width: usize, q: i64)
    requires
        prime(q as int),
        q < 0x8000_0000,
        reduced_table(old(aug)@, n_cols as int, width as int, q as int),
        pr <= p < n_cols,
        col < width,
        old(aug)@[p as int]@[col as int] != 0,
    ensures
        table_view(final(aug)@) == normalised_pivot(table_view(old(aug)@), pr as int, p as int, col as int, q as int),
        reduced_table(final(aug)@, n_cols as int, width as int, q as int),
        is_inverse_mod(
            inverse_mod(swapped_rows(table_view(old(aug)@), pr as int, p as int)[pr as int][col as int] as int, q as int),
            swapped_rows(table_view(old(aug)@), pr as int, p as int)[pr as int][col as int] as int,
            q as int,
        ),
{
    let ghost t = table_view(aug@);
    let mut row_a: Vec<i64> = Vec::new();
    aug.set_and_swap(pr, &mut row_a);
    let mut row_b: Vec<i64> = Vec::new();
    if p != pr {
        aug.set_and_swap(p, &mut row_b);
        aug.set(p, row_a);
    } else {
        row_b = row_a;
    }
    let ghost s = swapped_rows(t, pr as int, p as int);
    assert(row_b@ == s[pr as int]);
    let pivot_val = row_b[col];
    proof {
        lemma_prime_gcd(pivot_val as int, q as int);
        vstd::arithmetic::div_mod::lemma_small_mod(pivot_val as nat, q as nat);
    }
    let inv = match mod_inverse(pivot_val, q) {
        Some(v) => v,
        None => {
            proof { assert(false); }
            0
        },
    };
    proof {
        if inv == q {
            vstd::arithmetic::div_mod::lemma_mod_multiples_basic(pivot_val as int, q as int);
            assert((inv * pivot_val) % (q as int) == (pivot_val * q) % (q as int)) by (nonlinear_arith)
                requires inv == q;
        }
        lemma_inverse_unique(pivot_val as int, inv as int, q as int);
        assert(is_inverse_mod(inv as int, pivot_val as int, q as int));
    }
    let ghost before = row_b@;
    scale_row(&mut row_b, inv, q);
    assert(row_b@ =~= scaled_row(before, inv as int, q as int));
    proof {
        assert((inv * pivot_val) % (q as int) == 1);
    }
    aug.set(pr, row_b);
    assert(table_view(aug@) =~= normalised_pivot(t, pr as int, p as int, col as int, q as int));
}

/// Clear column `col` in every row but the pivot row `pr`.
fn clear_column(aug: &mut Vec<Vec<i64>>, pr: usize, col: usize, n_cols: usize, width: usize, q: i64)
    requires
        2 <= q < 0x8000_0000,
        reduced_table(old(aug)@, n_cols as int, width as int, q as int),
        pr < n_cols,
        col < width,
    ensures
        table_view(final(aug)@) == cleared_column(table_view(old(aug)@), pr as int, col as int, q as int),
        reduced_table(final(aug)@, n_cols as int, width as int, q as int),
{
    let ghost t = table_view(aug@);
    let ghost target = cleared_column(t, pr as int, col as int, q as int);
    let mut r2: usize = 0;
    while r2 < n_cols
        invariant
            2 <= q < 0x8000_0000,
            pr < n_cols,
            col < width,
            r2 <= n_cols,
            t.len() == n_cols,
            target == cleared_column(t, pr as int, col as int, q as int),
            reduced_table(aug@, n_cols as int, width as int, q as int),
            aug@[pr as int]@ == t[pr as int],
            forall|r: int| 0 <= r < r2 ==> (#[trigger] aug@[r])@ == target[r],
            forall|r: int| r2 <= r < n_cols ==> (#[trigger] aug@[r])@ == t[r],
        decreases n_cols - r2,
    {
        if r2 != pr && aug[r2][col] != 0 {
            let factor = aug[r2][col];
            let pivot_copy = aug[pr].clone();
            assert(pivot_copy@ =~= t[pr as int]);
            let mut row: Vec<i64> = Vec::new();
            aug.set_and_swap(r2, &mut row);
            let ghost before = row@;
            eliminate_row(&mut row, &pivot_copy, factor, q);
            assert(row@ =~= reduced_row(before, t[pr as int], factor as int, q as int));
            aug.set(r2, row);
        }
        assert(aug@[r2 as int]@ == target[r2 as int]);
        r2 += 1;
    }
    assert(table_view(aug@) =~= target);
}

/// Solve `M^T . omega = (1, 0, ..., 0)` over `Z_q` by Gauss-Jordan elimination,
/// reading row `i` of the reduced system as the value of `omega_i`, centred
/// into `(-q/2, q/2]`.
pub fn solve_linear_system(m: &[Vec<i64>], q: u32) -> (r: Option<Vec<i64>>)
    requires
        prime(q as int),
        q < 0x8000_0000,
        rows_cover_first(m@),
    ensures
        r matches Some(omega) ==> crate::gauss::solves_system(table_view(m@), omega@, q as int),
        r is None ==> m@.len() == 0 || m@[0]@.len() == 0 || forall|w: Seq<i64>|
            !#[trigger] crate::gauss::solves_system(table_view(m@), w, q as int),
        r matches Some(omega) ==> solve_spec(table_view(m@), q as int) == Some(omega@),
        r is None ==> solve_spec(table_view(m@), q as int) is None,
        (m@.len() == 0 || m@[0]@.len() == 0) ==> r is None,
        r matches Some(omega) ==> omega@.len() == m@.len(),
        r matches Some(omega) ==> forall|i: int| 0 <= i < omega@.len() ==> -(q as int) / 2 <= #[trigger] omega@[i] <= (
        q as int) / 2,
{
    if m.len() == 0 || m[0].len() == 0 {
        return None;
    }
    let n_rows = m.len();
    let n_cols = m[0].len();
    let qi = q as i64;
    let ghost mv = table_view(m@);
    let ghost t0 = augmented_system(mv, q as int);
    assert(mv.len() == n_rows && mv[0].len() == n_cols);
    let mut augmented = build_augmented(m, qi);
    let width = augmented[0].len();
    assert(width == n_rows + 1);
    let mut pivot_row: usize = 0;
    let mut pivots: Vec<usize> = Vec::new();
    let mut col: usize = 0;
    while col < n_rows
        invariant
            n_rows >= 1,
            n_rows == mv.len(),
            width == n_rows + 1,
            qi == q,
            prime(q as int),
            q < 0x8000_0000,
            col <= n_rows,
            pivot_row <= col,
            pivot_row <= n_cols,
            reduced_table(augmented@, n_cols as int, n_rows + 1, q as int),
            (table_view(augmented@), pivot_row as int) == eliminated(t0, q as int, col as nat),
            int_seq(pivots@) == pivot_columns(t0, q as int, col as nat),
            pivots@.len() == pivot_row,
            forall|k: int| 0 <= k < pivots@.len() ==> #[trigger] pivots@[k] < col,
            mv.len() >= 1,
            t0 == augmented_system(mv, q as int),
            t0.len() == n_cols,
            crate::gauss::table_ok(table_view(augmented@), n_rows as int, q as int),
            crate::gauss::reduced_form(table_view(augmented@), int_seq(pivots@), col as int),
            forall|w: Seq<i64>| #[trigger] crate::gauss::solves_table(table_view(augmented@), w, n_rows as int, q as int)
                <==> crate::gauss::solves_table(t0, w, n_rows as int, q as int),
        decreases n_rows - col,
    {
        let ghost tb = table_view(augmented@);
        let ghost pr0 = pivot_row as int;
        let ghost pv0 = pivots@;
        match find_pivot(&augmented, col, pivot_row, n_cols, width, qi) {
            Some(p) => {
                assert(tb[p as int][col as int] == augmented@[p as int]@[col as int]);
                normalise(&mut augmented, pivot_row, p, col, n_cols, width, qi);
                let ghost tn = table_view(augmented@);
                clear_column(&mut augmented, pivot_row, col, n_cols, width, qi);
                proof {
                    let sw = swapped_rows(tb, pr0, p as int);
                    let a = sw[pr0][col as int] as int;
                    let inv = inverse_mod(a, q as int);
                    assert(tn == sw.update(pr0, scaled_row(sw[pr0], inv, q as int)));
                    assert(crate::gauss::table_ok(sw, n_rows as int, q as int)) by {
                        assert forall|r: int| 0 <= r < sw.len() implies (#[trigger] sw[r]).len() == n_rows + 1 && forall|j: int|
                            0 <= j <= n_rows ==> 0 <= #[trigger] sw[r][j] < q by {
                            if r == pr0 { assert(sw[r] == tb[p as int]); } else if r == p as int { assert(sw[r] == tb[pr0]); } else { assert(sw[r] == tb[r]); }
                        }
                    }
                    assert(crate::gauss::table_ok(tn, n_rows as int, q as int));
                    assert forall|w: Seq<i64>| #[trigger] crate::gauss::solves_table(table_view(augmented@), w, n_rows as int, q as int)
                        <==> crate::gauss::solves_table(t0, w, n_rows as int, q as int) by {
                        crate::gauss::lemma_swap_solutions(tb, pr0, p as int, w, n_rows as int, q as int);
                        assert((inv * a) % (q as int) == 1);
                        assert(a * inv == inv * a) by (nonlinear_arith);
                        crate::gauss::lemma_scale_solutions(sw, pr0, inv, a, w, n_rows as int, q as int);
                        crate::gauss::lemma_clear_solutions(tn, pr0, col as int, w, n_rows as int, q as int);
                    }
                    crate::gauss::lemma_form_pivot(tb, int_seq(pv0), col as int, p as int, n_rows as int, q as int);
                }
                pivot_row += 1;
                pivots.push(col);
                assert(int_seq(pivots@) =~= int_seq(pv0).push(col as int));
            },
            None => {
                proof {
                    crate::gauss::lemma_form_no_pivot(tb, int_seq(pv0), col as int);
                }
            },
        }
        assert((table_view(augmented@), pivot_row as int) == elimination_step(tb, pr0, col as int, q as int));
        assert(eliminated(t0, q as int, (col + 1) as nat) == elimination_step(tb, pr0, col as int, q as int));
        assert(int_seq(pivots@) == pivot_columns(t0, q as int, (col + 1) as nat));
        col += 1;
    }
    let ghost tf = table_view(augmented@);
    let mut row = pivot_row;
    while row < n_cols
        invariant
            pivot_row <= row <= n_cols,
            tf == table_view(augmented@),
            n_rows == mv.len(),
            n_rows >= 1,
            mv == table_view(m@),
            mv[0].len() == n_cols,
            t0 == augmented_system(mv, q as int),
            (tf, pivot_row as int) == eliminated(t0, q as int, n_rows as nat),
            reduced_table(augmented@, n_cols as int, n_rows + 1, q as int),
            forall|r: int| pivot_row <= r < row ==> #[trigger] tf[r][n_rows as int] == 0,
            pivots@.len() == pivot_row,
            1 < q < 0x8000_0000,
            crate::gauss::table_ok(tf, n_rows as int, q as int),
            crate::gauss::reduced_form(tf, int_seq(pivots@), n_rows as int),
            forall|w: Seq<i64>| #[trigger] crate::gauss::solves_table(tf, w, n_rows as int, q as int)
                <==> crate::gauss::solves_table(t0, w, n_rows as int, q as int),
        decreases n_cols - row,
    {
        assert(tf[row as int][n_rows as int] == augmented@[row as int]@[n_rows as int]);
        if augmented[row][n_rows] != 0 {
            assert(eliminated(t0, q as int, mv.len()) == (tf, pivot_row as int));
            assert(tf[row as int][n_rows as int] != 0);
            proof {
                let bad = tf[row as int];
                assert(int_seq(pivots@).len() == pivot_row);
                assert forall|j: int| 0 <= j < n_rows implies #[trigger] bad[j] == 0 by {
                    assert(tf[row as int][j] == 0);
                }
                assert forall|w: Seq<i64>| !#[trigger] crate::gauss::solves_system(mv, w, q as int) by {
                    crate::gauss::lemma_inconsistent_row(bad, w, n_rows as int, q as int);
                    assert(!crate::gauss::eq_holds(tf[row as int], w, n_rows as int, q as int));
                    assert(!crate::gauss::solves_table(tf, w, n_rows as int, q as int));
                    if w.len() == mv.len() {
                        crate::gauss::lemma_augmented_solutions(mv, w, q as int);
                    }
                }
            }
            return None;
        }
        row += 1;
    }
    let ghost pc = int_seq(pivots@);
    let mut omega: Vec<i64> = Vec::new();
    let mut z: usize = 0;
    while z < n_rows
        invariant
            z <= n_rows,
            omega@.len() == z,
            forall|t: int| 0 <= t < z ==> #[trigger] omega@[t] == 0i64,
        decreases n_rows - z,
    {
        omega.push(0);
        z += 1;
    }
    assert(omega@ =~= placed_solution(tf, pc, n_rows as int, q as int, 0));
    let q_half = qi / 2;
    let mut i2: usize = 0;
    while i2 < pivot_row
        invariant
            qi == q,
            q_half == qi / 2,
            pivot_row <= n_rows,
            pivot_row <= n_cols,
            pivots@.len() == pivot_row,
            pc == int_seq(pivots@),
            forall|k: int| 0 <= k < pivots@.len() ==> #[trigger] pivots@[k] < n_rows,
            i2 <= pivot_row,
            omega@.len() == n_rows,
            tf == table_view(augmented@),
            reduced_table(augmented@, n_cols as int, n_rows + 1, q as int),
            omega@ == placed_solution(tf, pc, n_rows as int, q as int, i2 as int),
            forall|t: int| 0 <= t < n_rows ==> -(q as int) / 2 <= #[trigger] omega@[t] <= (q as int) / 2,
            forall|r: int| pivot_row <= r < n_cols ==> #[trigger] tf[r][n_rows as int] == 0,
            1 < q < 0x8000_0000,
            n_rows == mv.len(),
            n_rows >= 1,
            mv == table_view(m@),
            t0 == augmented_system(mv, q as int),
            tf.len() == n_cols,
            crate::gauss::table_ok(tf, n_rows as int, q as int),
            crate::gauss::reduced_form(tf, pc, n_rows as int),
            forall|w: Seq<i64>| #[trigger] crate::gauss::solves_table(tf, w, n_rows as int, q as int)
                <==> crate::gauss::solves_table(t0, w, n_rows as int, q as int),
        decreases pivot_row - i2,
    {
        let val_mod_q = augmented[i2][n_rows];
        assert(tf[i2 as int][n_rows as int] == val_mod_q);
        let centered = if val_mod_q <= q_half {
            val_mod_q
        } else {
            val_mod_q - qi
        };
        let target = pivots[i2];
        assert(pc[i2 as int] == target as int);
        omega.set(target, centered);
        i2 += 1;
    }
    proof {
        crate::gauss::lemma_readout_solves(tf, pc, n_rows as int, q as int);
        assert(crate::gauss::solves_table(tf, omega@, n_rows as int, q as int));
        crate::gauss::lemma_augmented_solutions(mv, omega@, q as int);
    }
    Some(omega)
}

// ---------------------------------------------------------------------------
// Lowering boolean formulas to sharing matrices
// ---------------------------------------------------------------------------

/// `s` trimmed, with enclosing parenthesis pairs removed one by one.
pub open spec fn strip_parens(s: Seq<char>) -> Seq<char>
    decreases s.len(),
{
    let t = trim(s);
    proof {
        lemma_trim_len(s);
    }
    if paren_group(t) {
        strip_parens(t.subrange(1, t.len() - 1))
    } else {
        t
    }
}

pub proof fn lemma_strip_parens_len(s: Seq<char>)
    ensures
        strip_parens(s).len() <= s.len(),
    decreases s.len(),
{
    let t = trim(s);
    lemma_trim_len(s);
    if paren_group(t) {
        lemma_strip_parens_len(t.subrange(1, t.len() - 1));
    }
}

/// `op` occurs at `i` outside any parentheses.
pub open spec fn op_at(s: Seq<char>, op: Seq<char>, i: int) -> bool {
    &&& depth_at(s, i) == 0
    &&& s[i] != '('
    &&& s[i] != ')'
    &&& occurs_at(s, op, i)
}

/// First top-level occurrence of `op` at or after `i`.
pub open spec fn find_op_from(s: Seq<char>, op: Seq<char>, i: int) -> Option<int>
    decreases s.len() - i,
{
    if i < 0 || i >= s.len() || i + op.len() > s.len() {
        None
    } else if op_at(s, op, i) {
        Some(i)
    } else {
        find_op_from(s, op, i + 1)
    }
}

pub open spec fn or_token() -> Seq<char> {
    seq![' ', 'O', 'R', ' ']
}

pub open spec fn and_token() -> Seq<char> {
    seq![' ', 'A', 'N', 'D', ' ']
}

pub proof fn lemma_find_op(s: Seq<char>, op: Seq<char>, i: int)
    requires
        0 <= i,
    ensures
        find_op_from(s, op, i) matches Some(k) ==> i <= k && k + op.len() <= s.len() && op_at(s, op, k),
    decreases s.len() - i,
{
    if i < s.len() && i + op.len() <= s.len() && !op_at(s, op, i) {
        lemma_find_op(s, op, i + 1);
    }
}

/// `cur` cut or padded with zeros to length `n` (`Vec::resize`).
pub open spec fn resized(cur: Seq<i64>, n: nat) -> Seq<i64> {
    Seq::new(n, |j: int| if j < cur.len() { cur[j] } else { 0i64 })
}

/// Rows, row attributes and next free column from lowering the formula `p`
/// with row vector `cur` when column `nc` is the next free one (monotone span
/// program: OR shares `cur`, AND splits it over a fresh column); `None` on an
/// empty leaf.
pub open spec fn msp(p: Seq<char>, cur: Seq<i64>, nc: nat) -> Option<(Seq<Seq<i64>>, Seq<Seq<char>>, nat)>
    decreases p.len(),
{
    let s = strip_parens(p);
    proof {
        lemma_strip_parens_len(p);
    }
    if find_op_from(s, or_token(), 0) is Some {
        let k = find_op_from(s, or_token(), 0)->Some_0;
        proof {
            lemma_find_op(s, or_token(), 0);
            lemma_trim_len(s.subrange(0, k));
            lemma_trim_len(s.subrange(k + 4, s.len() as int));
        }
        let l = trim(s.subrange(0, k));
        let r = trim(s.subrange(k + 4, s.len() as int));
        match msp(l, cur, nc) {
            None => None,
            Some((r1, a1, n1)) => match msp(r, cur, n1) {
                None => None,
                Some((r2, a2, n2)) => Some((r1 + r2, a1 + a2, n2)),
            },
        }
    } else if find_op_from(s, and_token(), 0) is Some {
        let k = find_op_from(s, and_token(), 0)->Some_0;
        proof {
            lemma_find_op(s, and_token(), 0);
            lemma_trim_len(s.subrange(0, k));
            lemma_trim_len(s.subrange(k + 5, s.len() as int));
        }
        let l = trim(s.subrange(0, k));
        let r = trim(s.subrange(k + 5, s.len() as int));
        let lv = resized(cur, nc + 1).update(nc as int, 1i64);
        let rv = resized(Seq::empty(), nc + 1).update(nc as int, -1i64);
        match msp(l, lv, nc + 1) {
            None => None,
            Some((r1, a1, n1)) => match msp(r, rv, n1) {
                None => None,
                Some((r2, a2, n2)) => Some((r1 + r2, a1 + a2, n2)),
            },
        }
    } else if s.len() == 0 {
        None
    } else {
        Some((seq![cur], seq![s], nc))
    }
}

/// The column counter grows by at most the length of the formula.
pub proof fn lemma_msp_columns(p: Seq<char>, cur: Seq<i64>, nc: nat)
    ensures
        msp(p, cur, nc) matches Some((rows, attrs, n)) ==> nc <= n <= nc + p.len() && rows.len() == attrs.len(),
    decreases p.len(),
{
    let s = strip_parens(p);
    lemma_strip_parens_len(p);
    if find_op_from(s, or_token(), 0) is Some {
        let k = find_op_from(s, or_token(), 0)->Some_0;
        lemma_find_op(s, or_token(), 0);
        lemma_trim_len(s.subrange(0, k));
        lemma_trim_len(s.subrange(k + 4, s.len() as int));
        let l = trim(s.subrange(0, k));
        let r = trim(s.subrange(k + 4, s.len() as int));
        lemma_msp_columns(l, cur, nc);
        if let Some((r1, a1, n1)) = msp(l, cur, nc) {
            lemma_msp_columns(r, cur, n1);
        }
    } else if find_op_from(s, and_token(), 0) is Some {
        let k = find_op_from(s, and_token(), 0)->Some_0;
        lemma_find_op(s, and_token(), 0);
        lemma_trim_len(s.subrange(0, k));
        lemma_trim_len(s.subrange(k + 5, s.len() as int));
        let l = trim(s.subrange(0, k));
        let r = trim(s.subrange(k + 5, s.len() as int));
        let lv = resized(cur, nc + 1).update(nc as int, 1i64);
        let rv = resized(Seq::empty(), nc + 1).update(nc as int, -1i64);
        lemma_msp_columns(l, lv, nc + 1);
        if let Some((r1, a1, n1)) = msp(l, lv, nc + 1) {
            lemma_msp_columns(r, rv, n1);
        }
    }
}

/// Trimmed `s` without enclosing parenthesis pairs.
fn strip_outer_parens(s: &Vec<char>) -> (r: Vec<char>)
    ensures
        r@ == strip_parens(s@),
    decreases s@.len(),
{
    let t = trim_range(s, 0, s.len());
    assert(s@.subrange(0, s@.len() as int) =~= s@);
    proof {
        lemma_trim_len(s@);
    }
    if t.len() >= 2 && t[0] == '(' && t[t.len() - 1] == ')' && is_wrapped_by_single_paren_group(&t) {
        let inner = sub_chars(&t, 1, t.len() - 1);
        strip_outer_parens(&inner)
    } else {
        t
    }
}

/// `s` is one parenthesised group (its depth first returns to zero at the end).
fn is_wrapped_by_single_paren_group(s: &Vec<char>) -> (b: bool)
    requires
        s@.len() >= 2,
        s@[0] == '(',
        s@.last() == ')',
    ensures
        b == paren_group(s@),
{
    let mut opens: usize = 0;
    let mut closes: usize = 0;
    let mut i: usize = 0;
    while i < s.len()
        invariant
            2 <= s@.len(),
            s@[0] == '(',
            s@.last() == ')',
            i <= s@.len(),
            opens <= i,
            closes <= i,
            opens - closes == depth_at(s@, i as int),
            forall|t: int| 1 <= t <= i && t < s@.len() ==> #[trigger] depth_at(s@, t) != 0,
        decreases s@.len() - i,
    {
        proof {
            crate::policy::lemma_depth_step(s@, i as int);
        }
        if s[i] == '(' {
            opens += 1;
        } else if s[i] == ')' {
            closes += 1;
        }
        if opens == closes && i + 1 < s.len() {
            return false;
        }
        i += 1;
    }
    opens == closes
}

/// Characters `s[lo..hi]`.
fn sub_chars(s: &Vec<char>, lo: usize, hi: usize) -> (r: Vec<char>)
    requires
        lo <= hi <= s@.len(),
    ensures
        r@ == s@.subrange(lo as int, hi as int),
{
    let mut r: Vec<char> = Vec::new();
    let mut k = lo;
    while k < hi
        invariant
            lo <= k <= hi <= s@.len(),
            r@ == s@.subrange(lo as int, k as int),
        decreases hi - k,
    {
        r.push(s[k]);
        k += 1;
        assert(r@ =~= s@.subrange(lo as int, k as int));
    }
    r
}

/// First top-level occurrence of `op` in `s`.
fn find_top_level_operator(s: &Vec<char>, op: &Vec<char>) -> (r: Option<usize>)
    requires
        op@.len() >= 1,
    ensures
        r matches Some(k) ==> find_op_from(s@, op@, 0) == Some(k as int),
        r is None ==> find_op_from(s@, op@, 0) is None,
{
    if op.len() > s.len() {
        return None;
    }
    let last = s.len() - op.len();
    let slen = s.len();
    let mut opens: usize = 0;
    let mut closes: usize = 0;
    let mut i: usize = 0;
    while i <= last
        invariant
            last + op@.len() == s@.len(),
            slen == s@.len(),
            i <= last + 1,
            opens <= i,
            closes <= i,
            opens - closes == depth_at(s@, i as int),
            find_op_from(s@, op@, 0) == find_op_from(s@, op@, i as int),
            op@.len() >= 1,
        decreases last + 1 - i,
    {
        proof {
            crate::policy::lemma_depth_step(s@, i as int);
        }
        if s[i] == '(' {
            opens += 1;
        } else if s[i] == ')' {
            closes += 1;
        } else if opens == closes {
            if crate::text::matches_at(s, op, i) {
                return Some(i);
            }
        }
        if i == last {
            assert(find_op_from(s@, op@, (i + 1) as int) is None);
            return None;
        }
        i += 1;
    }
    None
}

/// The rows of a matrix.
pub open spec fn mat_rows(v: Seq<Vec<i64>>) -> Seq<Seq<i64>> {
    v.map_values(|r: Vec<i64>| r@)
}

/// The characters of each string.
pub open spec fn str_seqs(v: Seq<String>) -> Seq<Seq<char>> {
    v.map_values(|a: String| a@)
}

/// `cur` cut or padded with zeros to length `n`.
fn resize_row(cur: &Vec<i64>, n: usize) -> (r: Vec<i64>)
    ensures
        r@ == resized(cur@, n as nat),
{
    let mut r: Vec<i64> = Vec::new();
    let mut j: usize = 0;
    while j < n
        invariant
            j <= n,
            r@ == resized(cur@, n as nat).take(j as int),
        decreases n - j,
    {
        if j < cur.len() {
            r.push(cur[j]);
        } else {
            r.push(0);
        }
        j += 1;
        assert(r@ =~= resized(cur@, n as nat).take(j as int));
    }
    assert(r@ =~= resized(cur@, n as nat));
    r
}

fn build_msp(
    policy: &Vec<char>,
    current_vec: Vec<i64>,
    next_col: &mut usize,
    rows: &mut Vec<Vec<i64>>,
    row_to_attr: &mut Vec<String>,
) -> (r: PabsCrfResult<()>)
    requires
        *old(next_col) + policy@.len() <= usize::MAX,
    ensures
        r is Ok <==> msp(policy@, current_vec@, *old(next_col) as nat) is Some,
        r matches Err(e) ==> e is PolicyError,
        r is Ok ==> ({
            let (rs, ats, n) = msp(policy@, current_vec@, *old(next_col) as nat)->Some_0;
            &&& mat_rows(final(rows)@) == mat_rows(old(rows)@) + rs
            &&& str_seqs(final(row_to_attr)@) == str_seqs(old(row_to_attr)@) + ats
            &&& *final(next_col) == n
        }),
    decreases policy@.len(),
{
    let s = strip_outer_parens(policy);
    proof {
        lemma_strip_parens_len(policy@);
    }
    let or_tok = vec![' ', 'O', 'R', ' '];
    let and_tok = vec![' ', 'A', 'N', 'D', ' '];
    assert(or_tok@ =~= or_token());
    assert(and_tok@ =~= and_token());
    if let Some(or_pos) = find_top_level_operator(&s, &or_tok) {
        proof {
            lemma_find_op(s@, or_token(), 0);
            lemma_trim_len(s@.subrange(0, or_pos as int));
            lemma_trim_len(s@.subrange(or_pos + 4, s@.len() as int));
            lemma_msp_columns(trim(s@.subrange(0, or_pos as int)), current_vec@, *old(next_col) as nat);
        }
        let left = trim_range(&s, 0, or_pos);
        let right = trim_range(&s, or_pos + 4, s.len());
        let cur2 = current_vec.clone();
        match build_msp(&left, cur2, next_col, rows, row_to_attr) {
            Err(e) => {
                return Err(e);
            },
            Ok(_) => {},
        }
        match build_msp(&right, current_vec, next_col, rows, row_to_attr) {
            Err(e) => {
                return Err(e);
            },
            Ok(_) => {},
        }
        return Ok(());
    }
    if let Some(and_pos) = find_top_level_operator(&s, &and_tok) {
        proof {
            lemma_find_op(s@, and_token(), 0);
            lemma_trim_len(s@.subrange(0, and_pos as int));
            lemma_trim_len(s@.subrange(and_pos + 5, s@.len() as int));
        }
        let left = trim_range(&s, 0, and_pos);
        let right = trim_range(&s, and_pos + 5, s.len());
        let fresh_col = *next_col;
        *next_col = *next_col + 1;
        let mut left_vec = resize_row(&current_vec, *next_col);
        left_vec.set(fresh_col, 1);
        let empty: Vec<i64> = Vec::new();
        let mut right_vec = resize_row(&empty, *next_col);
        right_vec.set(fresh_col, -1);
        proof {
            lemma_msp_columns(left@, left_vec@, (fresh_col + 1) as nat);
        }
        match build_msp(&left, left_vec, next_col, rows, row_to_attr) {
            Err(e) => {
                return Err(e);
            },
            Ok(_) => {},
        }
        match build_msp(&right, right_vec, next_col, rows, row_to_attr) {
            Err(e) => {
                return Err(e);
            },
            Ok(_) => {},
        }
        return Ok(());
    }
    if s.len() == 0 {
        return Err(PabsCrfError::PolicyError("Encountered empty leaf in policy".to_string()));
    }
    let ghost cv = current_vec@;
    rows.push(current_vec);
    row_to_attr.push(string_from_chars(s.as_slice()));
    assert(mat_rows(rows@) =~= mat_rows(old(rows)@) + seq![cv]);
    assert(str_seqs(row_to_attr@) =~= str_seqs(old(row_to_attr)@) + seq![s@]);
    Ok(())
}

// ---------------------------------------------------------------------------
// The sharing matrix
// ---------------------------------------------------------------------------

/// LSSS sharing matrix representation.
#[derive(Debug)]
pub struct LSSSShareMatrix {
    /// Sharing matrix M over Z_q, `rows x cols`
    matrix: Vec<Vec<i64>>,
    /// Row to attribute mapping
    row_to_attr: Vec<String>,
    rows: usize,
    cols: usize,
    /// The policy text the matrix was built from.
    policy_repr: Option<String>,
}

/// Row `i` of `m`, when its attribute is in `attrs`, for the rows before `upto`, in order.
pub open spec fn selected_rows(row_attrs: Seq<Seq<char>>, attrs: Seq<Seq<char>>, upto: int) -> Seq<int>
    decreases upto,
{
    if upto <= 0 {
        Seq::empty()
    } else if attrs.contains(row_attrs[upto - 1]) {
        selected_rows(row_attrs, attrs, upto - 1).push(upto - 1)
    } else {
        selected_rows(row_attrs, attrs, upto - 1)
    }
}

/// `sum_i omega[i] * m[idx[i]][0]` over the first `n` constants.
pub open spec fn first_column_sum(omega: Seq<i64>, m: Seq<Seq<i64>>, idx: Seq<int>, n: int) -> int
    decreases n,
{
    if n <= 0 {
        0
    } else {
        first_column_sum(omega, m, idx, n - 1) + omega[n - 1] * m[idx[n - 1]][0]
    }
}

/// `sum_j row[j] * v[j]`.
pub open spec fn dot(row: Seq<i64>, v: Seq<i64>, n: int) -> int
    decreases n,
{
    if n <= 0 {
        0
    } else {
        dot(row, v, n - 1) + row[n - 1] * v[n - 1]
    }
}

/// The characters of each attribute string.
pub open spec fn attr_names(attrs: Seq<String>) -> Seq<Seq<char>> {
    attrs.map_values(|a: String| a@)
}

impl LSSSShareMatrix {
    pub closed spec fn spec_matrix(&self) -> Seq<Seq<i64>> {
        mat_rows(self.matrix@)
    }

    pub closed spec fn spec_attrs(&self) -> Seq<Seq<char>> {
        str_seqs(self.row_to_attr@)
    }

    pub closed spec fn spec_rows(&self) -> nat {
        self.rows as nat
    }

    pub closed spec fn spec_cols(&self) -> nat {
        self.cols as nat
    }

    pub closed spec fn spec_repr(&self) -> Option<Seq<char>> {
        match self.policy_repr {
            Some(p) => Some(p@),
            None => None,
        }
    }

    /// Dimensions agree: `rows` rows of `cols` entries, one attribute per row.
    pub open spec fn wf(&self) -> bool {
        &&& self.spec_matrix().len() == self.spec_rows()
        &&& self.spec_attrs().len() == self.spec_rows()
        &&& forall|i: int| 0 <= i < self.spec_rows() ==> (#[trigger] self.spec_matrix()[i]).len() == self.spec_cols()
    }

    /// Every entry has absolute value below `b`.
    pub open spec fn entries_below(&self, b: int) -> bool {
        forall|i: int, j: int| 0 <= i < self.spec_matrix().len() && 0 <= j < self.spec_matrix()[i].len() ==> -b
            < #[trigger] self.spec_matrix()[i][j] < b
    }

    /// Create a sharing matrix from its rows and the attribute of each row.
    pub fn new(matrix: Vec<Vec<i64>>, row_to_attr: Vec<String>) -> (r: Self)
        ensures
            r.spec_matrix() == mat_rows(matrix@),
            r.spec_attrs() == str_seqs(row_to_attr@),
            r.spec_rows() == matrix@.len(),
            r.spec_cols() == if matrix@.len() > 0 { matrix@[0]@.len() } else { 0 },
            r.spec_repr() is None,
    {
        let rows = matrix.len();
        let cols = if rows > 0 { matrix[0].len() } else { 0 };
        LSSSShareMatrix { matrix, row_to_attr, rows, cols, policy_repr: None }
    }

    /// Create a sharing matrix with the source policy attached.
    pub fn new_with_policy(matrix: Vec<Vec<i64>>, row_to_attr: Vec<String>, policy_repr: String) -> (r: Self)
        ensures
            r.spec_matrix() == mat_rows(matrix@),
            r.spec_attrs() == str_seqs(row_to_attr@),
            r.spec_rows() == matrix@.len(),
            r.spec_cols() == if matrix@.len() > 0 { matrix@[0]@.len() } else { 0 },
            r.spec_repr() == Some(policy_repr@),
    {
        let rows = matrix.len();
        let cols = if rows > 0 { matrix[0].len() } else { 0 };
        LSSSShareMatrix { matrix, row_to_attr, rows, cols, policy_repr: Some(policy_repr) }
    }

    /// Number of rows.
    pub fn rows(&self) -> (r: usize)
        ensures
            r == self.spec_rows(),
    {
        self.rows
    }

    /// Number of columns.
    pub fn cols(&self) -> (r: usize)
        ensures
            r == self.spec_cols(),
    {
        self.cols
    }

    /// The attribute of each row.
    pub fn row_to_attr(&self) -> (r: &Vec<String>)
        ensures
            str_seqs(r@) == self.spec_attrs(),
    {
        &self.row_to_attr
    }

    /// The rows of the sharing matrix.
    pub fn matrix(&self) -> (r: &Vec<Vec<i64>>)
        ensures
            mat_rows(r@) == self.spec_matrix(),
    {
        &self.matrix
    }

    /// A copy of the matrix.
    pub fn clone(&self) -> (r: Self)
        ensures
            r.spec_matrix() == self.spec_matrix(),
            r.spec_attrs() == self.spec_attrs(),
            r.spec_rows() == self.spec_rows(),
            r.spec_cols() == self.spec_cols(),
            r.spec_repr() == self.spec_repr(),
    {
        let mut matrix: Vec<Vec<i64>> = Vec::new();
        let mut i: usize = 0;
        while i < self.matrix.len()
            invariant
                i <= self.matrix@.len(),
                matrix@.len() == i,
                mat_rows(matrix@) == mat_rows(self.matrix@).take(i as int),
            decreases self.matrix@.len() - i,
        {
            let c = self.matrix[i].clone();
            let ghost old_m = matrix@;
            matrix.push(c);
            assert forall|t: int| 0 <= t <= i implies #[trigger] mat_rows(matrix@)[t] == mat_rows(self.matrix@).take(i + 1)[t] by {
                if t < i {
                    assert(matrix@[t] == old_m[t]);
                    assert(mat_rows(old_m)[t] == mat_rows(self.matrix@).take(i as int)[t]);
                }
            }
            i += 1;
            assert(mat_rows(matrix@) =~= mat_rows(self.matrix@).take(i as int));
        }
        assert(mat_rows(self.matrix@).take(i as int) =~= mat_rows(self.matrix@));
        let mut attrs: Vec<String> = Vec::new();
        let mut k: usize = 0;
        while k < self.row_to_attr.len()
            invariant
                k <= self.row_to_attr@.len(),
                attrs@.len() == k,
                str_seqs(attrs@) == str_seqs(self.row_to_attr@).take(k as int),
            decreases self.row_to_attr@.len() - k,
        {
            let c = self.row_to_attr[k].clone();
            let ghost old_a = attrs@;
            attrs.push(c);
            assert forall|t: int| 0 <= t <= k implies #[trigger] str_seqs(attrs@)[t] == str_seqs(self.row_to_attr@).take(k + 1)[t] by {
                if t < k {
                    assert(attrs@[t] == old_a[t]);
                    assert(str_seqs(old_a)[t] == str_seqs(self.row_to_attr@).take(k as int)[t]);
                }
            }
            k += 1;
            assert(str_seqs(attrs@) =~= str_seqs(self.row_to_attr@).take(k as int));
        }
        assert(str_seqs(self.row_to_attr@).take(k as int) =~= str_seqs(self.row_to_attr@));
        let policy_repr = match &self.policy_repr {
            Some(p) => Some(p.clone()),
            None => None,
        };
        LSSSShareMatrix { matrix, row_to_attr: attrs, rows: self.rows, cols: self.cols, policy_repr }
    }
}

/// The operator word `NOT` at position `i` of `s`: the letters `NOT`, with no
/// character that may belong to an attribute name right before or after them
/// (so `NOTARY` or `ANNOTATION` hold no such word).
pub open spec fn not_word_at(s: Seq<char>, i: int) -> bool {
    &&& crate::text::occurs_at(s, seq!['N', 'O', 'T'], i)
    &&& (i == 0 || !crate::policy::attr_char(s[i - 1]))
    &&& (i + 3 == s.len() || !crate::policy::attr_char(s[i + 3]))
}

/// `s` holds the operator word `NOT`.
pub open spec fn has_not_word(s: Seq<char>) -> bool {
    exists|i: int| #[trigger] not_word_at(s, i)
}

/// Whether `s` holds the operator word `NOT`.
fn has_not_word_exec(s: &Vec<char>) -> (b: bool)
    ensures
        b == has_not_word(s@),
{
    let not_word = vec!['N', 'O', 'T'];
    assert(not_word@ =~= seq!['N', 'O', 'T']);
    if s.len() < 3 {
        assert forall|t: int| #[trigger] not_word_at(s@, t) implies false by {}
        return false;
    }
    let len = s.len();
    let mut i: usize = 0;
    while i <= len - 3
        invariant
            len == s@.len(),
            len >= 3,
            i <= len - 2,
            not_word@ == seq!['N', 'O', 'T'],
            forall|t: int| 0 <= t < i ==> !#[trigger] not_word_at(s@, t),
        decreases len - i,
    {
        if crate::text::matches_at(s, &not_word, i) {
            let before_ok = i == 0 || !crate::policy::attr_char_exec(s[i - 1]);
            let after_ok = i + 3 == len || !crate::policy::attr_char_exec(s[i + 3]);
            if before_ok && after_ok {
                assert(not_word_at(s@, i as int));
                return true;
            }
        }
        i += 1;
    }
    assert forall|t: int| #[trigger] not_word_at(s@, t) implies false by {
        if t >= i {
            assert(t + 3 <= s@.len());
        }
    }
    false
}

/// The matrix rows, attributes and column count `from_boolean_tree` builds
/// from `s`, or `None` when it rejects `s`.
pub open spec fn boolean_tree_spec(s: Seq<char>) -> Option<(Seq<Seq<i64>>, Seq<Seq<char>>, nat)> {
    let p = strip_parens(s);
    if p.len() == 0 || has_not_word(p) || p.len() >= usize::MAX {
        None
    } else {
        match msp(p, seq![1i64], 1) {
            None => None,
            Some((rs, ats, n)) => Some((Seq::new(rs.len(), |i: int| resized(rs[i], n)), ats, n)),
        }
    }
}

/// Entries of lowered rows are -1, 0 or 1, and no row is longer than the column count.
pub proof fn lemma_msp_entries(p: Seq<char>, cur: Seq<i64>, nc: nat)
    requires
        cur.len() <= nc,
        forall|j: int| 0 <= j < cur.len() ==> -1 <= #[trigger] cur[j] <= 1,
    ensures
        msp(p, cur, nc) matches Some((rows, attrs, n)) ==> forall|i: int|
            0 <= i < rows.len() ==> (#[trigger] rows[i]).len() <= n && forall|j: int|
                0 <= j < rows[i].len() ==> -1 <= #[trigger] rows[i][j] <= 1,
    decreases p.len(),
{
    let s = strip_parens(p);
    lemma_strip_parens_len(p);
    if find_op_from(s, or_token(), 0) is Some {
        let k = find_op_from(s, or_token(), 0)->Some_0;
        lemma_find_op(s, or_token(), 0);
        lemma_trim_len(s.subrange(0, k));
        lemma_trim_len(s.subrange(k + 4, s.len() as int));
        let l = trim(s.subrange(0, k));
        let r = trim(s.subrange(k + 4, s.len() as int));
        lemma_msp_entries(l, cur, nc);
        lemma_msp_columns(l, cur, nc);
        if let Some((r1, a1, n1)) = msp(l, cur, nc) {
            lemma_msp_entries(r, cur, n1);
            lemma_msp_columns(r, cur, n1);
            if let Some((r2, a2, n2)) = msp(r, cur, n1) {
                assert forall|i: int| 0 <= i < (r1 + r2).len() implies (#[trigger] (r1 + r2)[i]).len() <= n2 && forall|j: int|
                    0 <= j < (r1 + r2)[i].len() ==> -1 <= #[trigger] (r1 + r2)[i][j] <= 1 by {
                    if i < r1.len() {
                        assert((r1 + r2)[i] == r1[i]);
                    } else {
                        assert((r1 + r2)[i] == r2[i - r1.len()]);
                    }
                }
            }
        }
    } else if find_op_from(s, and_token(), 0) is Some {
        let k = find_op_from(s, and_token(), 0)->Some_0;
        lemma_find_op(s, and_token(), 0);
        lemma_trim_len(s.subrange(0, k));
        lemma_trim_len(s.subrange(k + 5, s.len() as int));
        let l = trim(s.subrange(0, k));
        let r = trim(s.subrange(k + 5, s.len() as int));
        let lv = resized(cur, nc + 1).update(nc as int, 1i64);
        let rv = resized(Seq::empty(), nc + 1).update(nc as int, -1i64);
        lemma_msp_entries(l, lv, nc + 1);
        lemma_msp_columns(l, lv, nc + 1);
        if let Some((r1, a1, n1)) = msp(l, lv, nc + 1) {
            lemma_msp_entries(r, rv, n1);
            lemma_msp_columns(r, rv, n1);
            if let Some((r2, a2, n2)) = msp(r, rv, n1) {
                assert forall|i: int| 0 <= i < (r1 + r2).len() implies (#[trigger] (r1 + r2)[i]).len() <= n2 && forall|j: int|
                    0 <= j < (r1 + r2)[i].len() ==> -1 <= #[trigger] (r1 + r2)[i][j] <= 1 by {
                    if i < r1.len() {
                        assert((r1 + r2)[i] == r1[i]);
                    } else {
                        assert((r1 + r2)[i] == r2[i - r1.len()]);
                    }
                }
            }
        }
    }
}

/// Every row padded with zeros (or cut) to `n` entries.
fn pad_rows(rows: Vec<Vec<i64>>, n: usize) -> (r: Vec<Vec<i64>>)
    ensures
        mat_rows(r@) == Seq::new(rows@.len(), |i: int| resized(rows@[i]@, n as nat)),
{
    let mut out: Vec<Vec<i64>> = Vec::new();
    let mut i: usize = 0;
    while i < rows.len()
        invariant
            i <= rows@.len(),
            out@.len() == i,
            forall|t: int| 0 <= t < i ==> (#[trigger] out@[t])@ == resized(rows@[t]@, n as nat),
        decreases rows@.len() - i,
    {
        out.push(resize_row(&rows[i], n));
        i += 1;
    }
    assert(mat_rows(out@) =~= Seq::new(rows@.len(), |i: int| resized(rows@[i]@, n as nat)));
    out
}

impl LSSSShareMatrix {
    /// Lower a boolean formula (`A AND B`, `A OR B`, `(A AND B) OR C`, ...) to a
    /// sharing matrix: an AND gate splits the current row over a fresh column
    /// (`[.., 1]` and `[0, .., -1]`), an OR gate gives both sides the current row.
    pub fn from_boolean_tree(policy_str: &str) -> (r: PabsCrfResult<Self>)
        ensures
            r is Ok <==> boolean_tree_spec(policy_str@) is Some,
            r matches Err(e) ==> e is PolicyError,
            r matches Ok(m) ==> ({
                let (rows, attrs, n) = boolean_tree_spec(policy_str@)->Some_0;
                &&& m.spec_matrix() == rows
                &&& m.spec_attrs() == attrs
                &&& m.spec_rows() == rows.len()
                &&& m.spec_cols() == if rows.len() > 0 { n } else { 0 }
                &&& m.spec_repr() == Some(strip_parens(policy_str@))
                &&& m.wf()
                &&& m.entries_below(2)
            }),
    {
        let cs = chars_of(policy_str);
        let policy = strip_outer_parens(&cs);
        if policy.len() == 0 {
            return Err(PabsCrfError::PolicyError("Empty policy".to_string()));
        }
        if has_not_word_exec(&policy) {
            return Err(PabsCrfError::PolicyError("NOT is not supported by the monotone LSSS builder".to_string()));
        }
        if policy.len() == usize::MAX {
            return Err(PabsCrfError::PolicyError("Policy too long".to_string()));
        }
        let mut rows: Vec<Vec<i64>> = Vec::new();
        let mut row_to_attr: Vec<String> = Vec::new();
        let mut next_col: usize = 1;
        let start = vec![1i64];
        assert(start@ =~= seq![1i64]);
        proof {
            lemma_msp_columns(policy@, seq![1i64], 1);
            lemma_msp_entries(policy@, seq![1i64], 1);
        }
        match build_msp(&policy, start, &mut next_col, &mut rows, &mut row_to_attr) {
            Err(e) => {
                return Err(e);
            },
            Ok(_) => {},
        }
        assert(mat_rows(rows@) =~= mat_rows(Seq::<Vec<i64>>::empty()) + msp(policy@, seq![1i64], 1)->Some_0.0);
        assert(str_seqs(row_to_attr@) =~= str_seqs(Seq::<String>::empty()) + msp(policy@, seq![1i64], 1)->Some_0.1);
        let ghost raw_rows = rows@;
        let padded = pad_rows(rows, next_col);
        proof {
            let (rs, ats, n) = msp(policy@, seq![1i64], 1)->Some_0;
            assert(mat_rows(padded@) =~= Seq::new(rs.len(), |i: int| resized(rs[i], n)));
            assert forall|i: int| 0 <= i < rs.len() implies (#[trigger] mat_rows(padded@)[i]).len() == n by {}
            assert forall|i: int, j: int| 0 <= i < mat_rows(padded@).len() && 0 <= j < mat_rows(padded@)[i].len()
                implies -2 < #[trigger] mat_rows(padded@)[i][j] < 2 by {
                assert(mat_rows(padded@)[i] == resized(rs[i], n));
            }
        }
        let repr = string_from_chars(policy.as_slice());
        proof {
            if padded@.len() > 0 {
                assert(mat_rows(padded@)[0] == padded@[0]@);
            }
        }
        let m = Self::new_with_policy(padded, row_to_attr, repr);
        proof {
            let (rows, attrs, n) = boolean_tree_spec(policy_str@)->Some_0;
            assert(m.spec_matrix() == rows);
            assert(m.spec_attrs() == attrs);
            assert(m.spec_rows() == rows.len());
            assert(m.spec_cols() == if rows.len() > 0 { n } else { 0 });
            assert(m.wf());
            assert(m.entries_below(2));
        }
        Ok(m)
    }

    /// Whether `attrs` satisfy the policy the matrix was built from.
    pub fn is_satisfied(&self, attrs: &[String]) -> (b: bool)
        requires
            self.spec_repr() is Some,
        ensures
            b == (parse_spec(self.spec_repr()->Some_0) matches Some(rule) && eval_rule(
                rule,
                attr_names(attrs@).to_set(),
            )),
    {
        let repr = match &self.policy_repr {
            Some(p) => p,
            None => {
                return false;
            },
        };
        let mut refs: Vec<&str> = Vec::new();
        let mut i: usize = 0;
        while i < attrs.len()
            invariant
                i <= attrs@.len(),
                refs@.len() == i,
                forall|t: int| 0 <= t < i ==> (#[trigger] refs@[t])@ == attrs@[t]@,
            decreases attrs@.len() - i,
        {
            refs.push(attrs[i].as_str());
            i += 1;
        }
        assert(attr_set(refs@) =~= attr_names(attrs@).to_set()) by {
            assert forall|a: Seq<char>| attr_set(refs@).contains(a) implies attr_names(attrs@).to_set().contains(a) by {
                let t = choose|t: int| 0 <= t < refs@.len() && (#[trigger] refs@[t])@ == a;
                assert(attr_names(attrs@)[t] == a);
            }
            assert forall|a: Seq<char>| attr_names(attrs@).to_set().contains(a) implies attr_set(refs@).contains(a) by {
                let t = choose|t: int| 0 <= t < attr_names(attrs@).len() && attr_names(attrs@)[t] == a;
                assert(refs@[t]@ == a);
            }
        }
        match Policy::parse(repr.as_str()) {
            Ok(parsed) => parsed.satisfies(refs.as_slice()),
            Err(_) => false,
        }
    }
}

/// `omega` are reconstruction constants for the rows `idx` of `m`: one per row,
/// `sum omega_i m[idx_i][0] == 1 (mod q)`, each of norm at most `2^16`.
pub open spec fn reconstruction_ok(omega: Seq<i64>, m: Seq<Seq<i64>>, idx: Seq<int>, q: int) -> bool {
    &&& idx.len() > 0
    &&& omega.len() == idx.len()
    &&& first_column_sum(omega, m, idx, idx.len() as int) % q == 1
    &&& forall|j: int| 1 <= j < m[idx[0]].len() ==> #[trigger] column_sum(omega, m, idx, j, idx.len() as int) % q == 0
    &&& forall|i: int| 0 <= i < omega.len() ==> -MAX_RECONSTRUCTION_COEFF_NORM <= #[trigger] omega[i]
        <= MAX_RECONSTRUCTION_COEFF_NORM
}

/// Column `j` of the weighted selected rows, computed over the selected rows.
pub proof fn lemma_column_sum_rows(omega: Seq<i64>, m: Seq<Seq<i64>>, idx: Seq<int>, j: int, n: int)
    requires
        0 <= n <= idx.len(),
    ensures
        column_sum(omega, m, idx, j, n) == crate::gauss::weighted_column(rows_at(m, idx), omega, j, n),
    decreases n,
{
    if n > 0 {
        lemma_column_sum_rows(omega, m, idx, j, n - 1);
        assert(rows_at(m, idx)[n - 1] == m[idx[n - 1]]);
        assert(omega[n - 1] * m[idx[n - 1]][j] == (omega[n - 1] as int) * m[idx[n - 1]][j]);
    }
}

/// Column 0 of the weighted rows is the first-column sum.
proof fn lemma_first_column(omega: Seq<i64>, m: Seq<Seq<i64>>, idx: Seq<int>, n: int)
    ensures
        column_sum(omega, m, idx, 0, n) == first_column_sum(omega, m, idx, n),
    decreases n,
{
    if n > 0 {
        lemma_first_column(omega, m, idx, n - 1);
    }
}

/// `sum_t omega[t] * rows[t][j] mod q`, in `[0, q)`, for the rows `rows` of
/// `m` selected by `idx`.
fn column_sum_mod(rows: &Vec<Vec<i64>>, omega: &Vec<i64>, j: usize, q: i64, Ghost(m): Ghost<Seq<Seq<i64>>>, Ghost(idx): Ghost<Seq<int>>) -> (r: i64)
    requires
        2 <= q < 0x8000_0000,
        omega@.len() == rows@.len(),
        idx.len() == rows@.len(),
        forall|t: int| 0 <= t < rows@.len() ==> (#[trigger] rows@[t])@ == m[idx[t]],
        forall|t: int| 0 <= t < rows@.len() ==> j < (#[trigger] rows@[t])@.len(),
        forall|t: int| 0 <= t < rows@.len() ==> -0x8000_0000 < (#[trigger] rows@[t])@[j as int] < 0x8000_0000,
        forall|t: int| 0 <= t < omega@.len() ==> -(q as int) / 2 <= #[trigger] omega@[t] <= (q as int) / 2,
    ensures
        0 <= r < q,
        r == column_sum(omega@, m, idx, j as int, idx.len() as int) % (q as int),
{
    let mut acc: i64 = 0;
    let mut i: usize = 0;
    proof {
        vstd::arithmetic::div_mod::lemma_small_mod(0, q as nat);
    }
    while i < rows.len()
        invariant
            2 <= q < 0x8000_0000,
            omega@.len() == rows@.len(),
            idx.len() == rows@.len(),
            forall|t: int| 0 <= t < rows@.len() ==> (#[trigger] rows@[t])@ == m[idx[t]],
            forall|t: int| 0 <= t < rows@.len() ==> j < (#[trigger] rows@[t])@.len(),
            forall|t: int| 0 <= t < rows@.len() ==> -0x8000_0000 < (#[trigger] rows@[t])@[j as int] < 0x8000_0000,
            forall|t: int| 0 <= t < omega@.len() ==> -(q as int) / 2 <= #[trigger] omega@[t] <= (q as int) / 2,
            i <= rows@.len(),
            -q < acc < q,
            (acc - column_sum(omega@, m, idx, j as int, i as int)) % (q as int) == 0,
        decreases rows@.len() - i,
    {
        let w = omega[i];
        let mv = rows[i][j];
        assert(-0x4000_0000_0000_0000 <= w * mv <= 0x4000_0000_0000_0000) by (nonlinear_arith)
            requires -0x8000_0000 <= w <= 0x8000_0000, -0x8000_0000 < mv < 0x8000_0000;
        let next = acc + w * mv;
        proof {
            crate::modarith::lemma_trem(next as int, q as int);
            let prev = column_sum(omega@, m, idx, j as int, i as int);
            assert(m[idx[i as int]][j as int] == mv);
            assert(column_sum(omega@, m, idx, j as int, i + 1) == prev + w * mv);
            crate::modarith::lemma_add_mod(crate::modarith::trem(next as int, q as int) - next, acc - prev, q as int);
            lemma_sub_mod_zero(crate::modarith::trem(next as int, q as int), next as int, q as int);
        }
        acc = next % q;
        i += 1;
    }
    proof {
        crate::modarith::lemma_trem(acc as int, q as int);
        crate::modarith::lemma_add_mod(crate::modarith::trem(acc as int, q as int), q as int, q as int);
        vstd::arithmetic::div_mod::lemma_mod_self_0(q as int);
        lemma_congruent_mod(acc as int, column_sum(omega@, m, idx, j as int, idx.len() as int), q as int);
    }
    (acc % q + q) % q
}

/// The rows `idx` of `m`, in order.
pub open spec fn rows_at(m: Seq<Seq<i64>>, idx: Seq<int>) -> Seq<Seq<i64>> {
    Seq::new(idx.len(), |t: int| m[idx[t]])
}

/// The reconstruction constants for the rows `idx` of `m`: what elimination
/// answers for those rows, kept only when it reconstructs the secret
/// (`reconstruction_ok`).
pub open spec fn reconstruction_constants_spec(m: Seq<Seq<i64>>, idx: Seq<int>, q: int) -> Option<Seq<i64>> {
    match solve_spec(rows_at(m, idx), q) {
        Some(omega) => if reconstruction_ok(omega, m, idx, q) {
            Some(omega)
        } else {
            None
        },
        None => None,
    }
}

/// Every row below `upto` whose attribute is held is selected.
pub proof fn lemma_selected_rows_complete(row_attrs: Seq<Seq<char>>, attrs: Seq<Seq<char>>, upto: int, r: int)
    requires
        0 <= r < upto <= row_attrs.len(),
        attrs.contains(row_attrs[r]),
    ensures
        exists|t: int| 0 <= t < selected_rows(row_attrs, attrs, upto).len() && #[trigger] selected_rows(row_attrs, attrs, upto)[t] == r,
    decreases upto,
{
    let sel = selected_rows(row_attrs, attrs, upto);
    if r == upto - 1 {
        assert(sel[sel.len() - 1] == r);
    } else {
        lemma_selected_rows_complete(row_attrs, attrs, upto - 1, r);
        let prev = selected_rows(row_attrs, attrs, upto - 1);
        let t = choose|t: int| 0 <= t < prev.len() && #[trigger] prev[t] == r;
        assert(sel[t] == r);
    }
}

/// Two attribute lists that agree on which row attributes they hold select the same rows.
pub proof fn lemma_selected_rows_same(row_attrs: Seq<Seq<char>>, a: Seq<Seq<char>>, b: Seq<Seq<char>>, upto: int)
    requires
        upto <= row_attrs.len(),
        forall|r: int| 0 <= r < upto ==> (a.contains(#[trigger] row_attrs[r]) <==> b.contains(row_attrs[r])),
    ensures
        selected_rows(row_attrs, a, upto) == selected_rows(row_attrs, b, upto),
    decreases upto,
{
    if upto > 0 {
        lemma_selected_rows_same(row_attrs, a, b, upto - 1);
    }
}

/// Every selected row carries one of the attributes.
pub proof fn lemma_selected_rows_held(row_attrs: Seq<Seq<char>>, attrs: Seq<Seq<char>>, upto: int)
    requires
        0 <= upto <= row_attrs.len(),
    ensures
        forall|i: int| 0 <= i < selected_rows(row_attrs, attrs, upto).len() ==> attrs.contains(
            row_attrs[#[trigger] selected_rows(row_attrs, attrs, upto)[i]],
        ),
    decreases upto,
{
    if upto > 0 {
        lemma_selected_rows_held(row_attrs, attrs, upto - 1);
        let prev = selected_rows(row_attrs, attrs, upto - 1);
        let sel = selected_rows(row_attrs, attrs, upto);
        assert forall|i: int| 0 <= i < sel.len() implies attrs.contains(row_attrs[#[trigger] sel[i]]) by {
            if i < prev.len() {
                assert(sel[i] == prev[i]);
            }
        }
    }
}

pub proof fn lemma_selected_rows(row_attrs: Seq<Seq<char>>, attrs: Seq<Seq<char>>, upto: int)
    requires
        0 <= upto <= row_attrs.len(),
    ensures
        forall|i: int| 0 <= i < selected_rows(row_attrs, attrs, upto).len() ==> 0 <= #[trigger] selected_rows(
            row_attrs,
            attrs,
            upto,
        )[i] < upto,
        selected_rows(row_attrs, attrs, upto).len() <= upto,
    decreases upto,
{
    if upto > 0 {
        lemma_selected_rows(row_attrs, attrs, upto - 1);
    }
}

fn contains_string(v: &[String], x: &String) -> (b: bool)
    ensures
        b == attr_names(v@).contains(x@),
{
    let mut j: usize = 0;
    while j < v.len()
        invariant
            j <= v@.len(),
            forall|t: int| 0 <= t < j ==> (#[trigger] v@[t])@ != x@,
        decreases v@.len() - j,
    {
        if v[j] == *x {
            assert(attr_names(v@)[j as int] == x@);
            return true;
        }
        j += 1;
    }
    assert forall|t: int| 0 <= t < attr_names(v@).len() implies #[trigger] attr_names(v@)[t] != x@ by {
        assert(v@[t]@ != x@);
    }
    false
}

impl LSSSShareMatrix {
    /// Indices of the rows whose attribute is in `attrs`, in order.
    fn selected_indices(&self, attrs: &[String]) -> (idx: Vec<usize>)
        requires
            self.wf(),
        ensures
            idx@.len() == selected_rows(self.spec_attrs(), attr_names(attrs@), self.spec_rows() as int).len(),
            forall|i: int| 0 <= i < idx@.len() ==> #[trigger] idx@[i] as int == selected_rows(
                self.spec_attrs(),
                attr_names(attrs@),
                self.spec_rows() as int,
            )[i],
    {
        let mut idx: Vec<usize> = Vec::new();
        let mut i: usize = 0;
        while i < self.rows
            invariant
                self.wf(),
                i <= self.rows,
                idx@.len() == selected_rows(self.spec_attrs(), attr_names(attrs@), i as int).len(),
                forall|t: int| 0 <= t < idx@.len() ==> #[trigger] idx@[t] as int == selected_rows(
                    self.spec_attrs(),
                    attr_names(attrs@),
                    i as int,
                )[t],
            decreases self.rows - i,
        {
            assert(self.spec_attrs()[i as int] == self.row_to_attr@[i as int]@);
            if contains_string(attrs, &self.row_to_attr[i]) {
                idx.push(i);
            }
            i += 1;
        }
        idx
    }

    /// Reconstruction constants for the rows whose attribute is in `attrs`:
    /// `None` when no row is selected, the system has no solution, the
    /// weighted rows do not sum to `(1, 0, ..., 0)` modulo `q`, or a constant
    /// exceeds `2^16` in norm.
    pub fn get_reconstruction_constants(&self, attrs: &[String], q: u32) -> (r: Option<Vec<i64>>)
        requires
            self.wf(),
            self.entries_below(0x8000_0000),
            prime(q as int),
            q < 0x8000_0000,
        ensures
            r is Some <==> reconstruction_constants_spec(
                self.spec_matrix(),
                selected_rows(self.spec_attrs(), attr_names(attrs@), self.spec_rows() as int),
                q as int,
            ) is Some,
            r matches Some(omega) ==> reconstruction_constants_spec(
                self.spec_matrix(),
                selected_rows(self.spec_attrs(), attr_names(attrs@), self.spec_rows() as int),
                q as int,
            ) == Some(omega@),
            selected_rows(self.spec_attrs(), attr_names(attrs@), self.spec_rows() as int).len() == 0 ==> r is None,
            r is None ==> ({
                let sel = selected_rows(self.spec_attrs(), attr_names(attrs@), self.spec_rows() as int);
                ||| sel.len() == 0
                ||| self.spec_cols() == 0
                ||| forall|w: Seq<i64>| !#[trigger] crate::gauss::solves_system(rows_at(self.spec_matrix(), sel), w, q as int)
                ||| (solve_spec(rows_at(self.spec_matrix(), sel), q as int) matches Some(w) && exists|i: int|
                    0 <= i < w.len() && !(-MAX_RECONSTRUCTION_COEFF_NORM <= #[trigger] w[i] <= MAX_RECONSTRUCTION_COEFF_NORM))
            }),
            r matches Some(omega) ==> ({
                let sel = selected_rows(self.spec_attrs(), attr_names(attrs@), self.spec_rows() as int);
                forall|j: int| 0 <= j < self.spec_cols() ==> #[trigger] column_sum(omega@, self.spec_matrix(), sel, j, sel.len() as int)
                    % (q as int) == (if j == 0 { 1int } else { 0int })
            }),
            r matches Some(omega) ==> reconstruction_ok(
                omega@,
                self.spec_matrix(),
                selected_rows(self.spec_attrs(), attr_names(attrs@), self.spec_rows() as int),
                q as int,
            ),
    {
        let ghost sel = selected_rows(self.spec_attrs(), attr_names(attrs@), self.spec_rows() as int);
        proof {
            lemma_selected_rows(self.spec_attrs(), attr_names(attrs@), self.spec_rows() as int);
        }
        let indices = self.selected_indices(attrs);
        if indices.len() == 0 {
            return None;
        }
        let mut m_i: Vec<Vec<i64>> = Vec::new();
        let mut k: usize = 0;
        while k < indices.len()
            invariant
                self.wf(),
                k <= indices@.len(),
                m_i@.len() == k,
                indices@.len() == sel.len(),
                forall|i: int| 0 <= i < indices@.len() ==> #[trigger] indices@[i] as int == sel[i],
                forall|i: int| 0 <= i < sel.len() ==> 0 <= #[trigger] sel[i] < self.spec_rows(),
                forall|t: int| 0 <= t < k ==> (#[trigger] m_i@[t])@ == self.spec_matrix()[sel[t]],
            decreases indices@.len() - k,
        {
            assert(self.spec_matrix()[indices@[k as int] as int] == self.matrix@[indices@[k as int] as int]@);
            m_i.push(self.matrix[indices[k]].clone());
            k += 1;
        }
        assert(table_view(m_i@) =~= rows_at(self.spec_matrix(), sel));
        let constants = match solve_linear_system(m_i.as_slice(), q) {
            Some(c) => c,
            None => {
                return None;
            },
        };
        assert(solve_spec(rows_at(self.spec_matrix(), sel), q as int) == Some(constants@));
        let ghost solved = crate::gauss::solves_system(rows_at(self.spec_matrix(), sel), constants@, q as int);
        assert(solved);
        proof {
            assert forall|j: int| 0 <= j < self.spec_matrix()[sel[0]].len() implies #[trigger] column_sum(
                constants@,
                self.spec_matrix(),
                sel,
                j,
                sel.len() as int,
            ) % (q as int) == (if j == 0 { 1int } else { 0int }) by {
                lemma_column_sum_rows(constants@, self.spec_matrix(), sel, j, sel.len() as int);
                assert(rows_at(self.spec_matrix(), sel)[0] == self.spec_matrix()[sel[0]]);
            }
            lemma_first_column(constants@, self.spec_matrix(), sel, sel.len() as int);
        }
        let q_i64 = q as i64;
        let mut first_col_sum: i64 = 0;
        let mut i: usize = 0;
        while i < constants.len()
            invariant
                self.wf(),
                self.entries_below(0x8000_0000),
                q_i64 == q,
                2 <= q < 0x8000_0000,
                constants@.len() == sel.len(),
                m_i@.len() == sel.len(),
                sel.len() > 0,
                m_i@[0]@.len() > 0,
                forall|t: int| 0 <= t < sel.len() ==> 0 <= #[trigger] sel[t] < self.spec_rows(),
                forall|t: int| 0 <= t < sel.len() ==> (#[trigger] m_i@[t])@ == self.spec_matrix()[sel[t]],
                forall|t: int| 0 <= t < constants@.len() ==> -(q as int) / 2 <= #[trigger] constants@[t] <= (q as int) / 2,
                i <= constants@.len(),
                -q_i64 < first_col_sum < q_i64,
                (first_col_sum - first_column_sum(constants@, self.spec_matrix(), sel, i as int)) % (q as int) == 0,
            decreases constants@.len() - i,
        {
            assert(m_i@[i as int]@.len() > 0) by {
                assert(m_i@[0]@.len() > 0);
                assert(self.spec_matrix()[sel[0]].len() == self.spec_cols());
                assert(self.spec_matrix()[sel[i as int]].len() == self.spec_cols());
            }
            let omega = constants[i];
            let mv = m_i[i][0];
            assert(-0x8000_0000 < mv < 0x8000_0000) by {
                assert(mv == self.spec_matrix()[sel[i as int]][0]);
            }
            assert(-0x4000_0000_0000_0000 <= omega * mv <= 0x4000_0000_0000_0000) by (nonlinear_arith)
                requires -0x8000_0000 <= omega <= 0x8000_0000, -0x8000_0000 < mv < 0x8000_0000;
            let next = first_col_sum + omega * mv;
            proof {
                crate::modarith::lemma_trem(next as int, q as int);
                let prev = first_column_sum(constants@, self.spec_matrix(), sel, i as int);
                assert(first_column_sum(constants@, self.spec_matrix(), sel, i + 1) == prev + omega * mv);
                // (next trem q) - (prev + omega*mv) = (next trem q - next) + (first_col_sum - prev)
                crate::modarith::lemma_add_mod(crate::modarith::trem(next as int, q as int) - next, first_col_sum - prev, q as int);
                lemma_sub_mod_zero(crate::modarith::trem(next as int, q as int), next as int, q as int);
            }
            first_col_sum = next % q_i64;
            i += 1;
        }
        let total = (first_col_sum % q_i64 + q_i64) % q_i64;
        proof {
            crate::modarith::lemma_trem(first_col_sum as int, q as int);
            crate::modarith::lemma_add_mod(crate::modarith::trem(first_col_sum as int, q as int), q as int, q as int);
            vstd::arithmetic::div_mod::lemma_mod_self_0(q as int);
            lemma_congruent_mod(first_col_sum as int, first_column_sum(constants@, self.spec_matrix(), sel, sel.len() as int), q as int);
        }
        if total != 1 {
            assert(!reconstruction_ok(constants@, self.spec_matrix(), sel, q as int));
            return None;
        }
        let mut max_norm: i64 = 0;
        let mut t: usize = 0;
        while t < constants.len()
            invariant
                t <= constants@.len(),
                q < 0x8000_0000,
                forall|u: int| 0 <= u < constants@.len() ==> -(q as int) / 2 <= #[trigger] constants@[u] <= (q as int) / 2,
                0 <= max_norm,
                forall|u: int| 0 <= u < t ==> -max_norm <= #[trigger] constants@[u] <= max_norm,
                max_norm == 0 || exists|u: int| 0 <= u < t && (#[trigger] constants@[u] == max_norm || constants@[u] == -max_norm),
            decreases constants@.len() - t,
        {
            let c = constants[t];
            let a = if c < 0 { -c } else { c };
            if a > max_norm {
                max_norm = a;
                assert(constants@[t as int] == max_norm || constants@[t as int] == -max_norm);
            }
            t += 1;
        }
        if max_norm > MAX_RECONSTRUCTION_COEFF_NORM {
            proof {
                let u = choose|u: int| 0 <= u < t && (#[trigger] constants@[u] == max_norm || constants@[u] == -max_norm);
                assert(!(-MAX_RECONSTRUCTION_COEFF_NORM <= constants@[u] <= MAX_RECONSTRUCTION_COEFF_NORM));
            }
            return None;
        }
        let ncols = m_i[0].len();
        assert(ncols == self.spec_matrix()[sel[0]].len());
        let mut j: usize = 1;
        while j < ncols
            invariant
                self.wf(),
                self.entries_below(0x8000_0000),
                q_i64 == q,
                2 <= q < 0x8000_0000,
                constants@.len() == sel.len(),
                m_i@.len() == sel.len(),
                sel.len() > 0,
                ncols == self.spec_matrix()[sel[0]].len(),
                solve_spec(rows_at(self.spec_matrix(), sel), q as int) == Some(constants@),
                sel == selected_rows(self.spec_attrs(), attr_names(attrs@), self.spec_rows() as int),
                forall|t: int| 0 <= t < sel.len() ==> 0 <= #[trigger] sel[t] < self.spec_rows(),
                forall|t: int| 0 <= t < sel.len() ==> (#[trigger] m_i@[t])@ == self.spec_matrix()[sel[t]],
                forall|u: int| 0 <= u < constants@.len() ==> -(q as int) / 2 <= #[trigger] constants@[u] <= (q as int) / 2,
                1 <= j,
                j <= ncols || j == 1,
                forall|jj: int| 1 <= jj < j && jj < ncols ==> #[trigger] column_sum(constants@, self.spec_matrix(), sel, jj, sel.len() as int)
                    % (q as int) == 0,
                forall|jj: int| 0 <= jj < ncols ==> #[trigger] column_sum(constants@, self.spec_matrix(), sel, jj, sel.len() as int)
                    % (q as int) == (if jj == 0 { 1int } else { 0int }),
            decreases ncols - j,
        {
            assert forall|t: int| 0 <= t < m_i@.len() implies j < (#[trigger] m_i@[t])@.len()
                && -0x8000_0000 < m_i@[t]@[j as int] < 0x8000_0000 by {
                assert(self.spec_matrix()[sel[t]].len() == self.spec_cols());
                assert(self.spec_matrix()[sel[0]].len() == self.spec_cols());
            }
            let cs = column_sum_mod(&m_i, &constants, j, q_i64, Ghost(self.spec_matrix()), Ghost(sel));
            if cs != 0 {
                assert(column_sum(constants@, self.spec_matrix(), sel, j as int, sel.len() as int) % (q as int) != 0);
                assert(1 <= j < self.spec_matrix()[sel[0]].len());
                assert(!reconstruction_ok(constants@, self.spec_matrix(), sel, q as int));
                return None;
            }
            j += 1;
        }
        proof {
            lemma_first_column(constants@, self.spec_matrix(), sel, sel.len() as int);
            assert(self.spec_matrix()[sel[0]].len() == self.spec_cols());
        }
        Some(constants)
    }
}

proof fn lemma_sub_mod_zero(a: int, b: int, q: int)
    requires
        q > 0,
        a % q == b % q,
    ensures
        (a - b) % q == 0,
{
    vstd::arithmetic::div_mod::lemma_sub_mod_noop(a, b, q);
    vstd::arithmetic::div_mod::lemma_mod_self_0(q);
    vstd::arithmetic::div_mod::lemma_small_mod(0, q as nat);
}

proof fn lemma_congruent_mod(a: int, b: int, q: int)
    requires
        q > 0,
        (a - b) % q == 0,
    ensures
        a % q == b % q,
{
    vstd::arithmetic::div_mod::lemma_fundamental_div_mod(a - b, q);
    vstd::arithmetic::div_mod::lemma_mod_multiples_vanish((a - b) / q, b, q);
    assert(a == b + q * ((a - b) / q));
}

/// `sum_i omega[i] * shares[i].1` over the first `n` shares.
pub open spec fn weighted_sum(omega: Seq<i64>, shares: Seq<(usize, i64)>, n: int) -> int
    decreases n,
{
    if n <= 0 {
        0
    } else {
        weighted_sum(omega, shares, n - 1) + omega[n - 1] * shares[n - 1].1
    }
}

/// The attributes of the rows the shares belong to.
pub open spec fn share_attrs(row_attrs: Seq<Seq<char>>, shares: Seq<(usize, i64)>) -> Seq<Seq<char>> {
    Seq::new(shares.len(), |i: int| row_attrs[shares[i].0 as int])
}

/// `sum_{t < n} omega[t] * m[idx[t]][j]`: column `j` of the weighted rows.
pub open spec fn column_sum(omega: Seq<i64>, m: Seq<Seq<i64>>, idx: Seq<int>, j: int, n: int) -> int
    decreases n,
{
    if n <= 0 {
        0
    } else {
        column_sum(omega, m, idx, j, n - 1) + omega[n - 1] * m[idx[n - 1]][j]
    }
}

/// `sum_{j < c} v[j] * column_sum(omega, m, idx, j, n)`.
pub open spec fn columns_dot(omega: Seq<i64>, m: Seq<Seq<i64>>, idx: Seq<int>, v: Seq<i64>, c: int, n: int) -> int
    decreases c,
{
    if c <= 0 {
        0
    } else {
        columns_dot(omega, m, idx, v, c - 1, n) + v[c - 1] * column_sum(omega, m, idx, c - 1, n)
    }
}

/// `sum_{t < n} omega[t] * (m[idx[t]] . v)`, the shares weighted before reduction.
pub open spec fn rows_dot(omega: Seq<i64>, m: Seq<Seq<i64>>, idx: Seq<int>, v: Seq<i64>, c: int, n: int) -> int
    decreases n,
{
    if n <= 0 {
        0
    } else {
        rows_dot(omega, m, idx, v, c, n - 1) + omega[n - 1] * dot(m[idx[n - 1]], v, c)
    }
}

proof fn lemma_columns_dot_step(omega: Seq<i64>, m: Seq<Seq<i64>>, idx: Seq<int>, v: Seq<i64>, c: int, n: int)
    requires
        n >= 1,
    ensures
        columns_dot(omega, m, idx, v, c, n) == columns_dot(omega, m, idx, v, c, n - 1) + omega[n - 1] * dot(
            m[idx[n - 1]],
            v,
            c,
        ),
    decreases c,
{
    if c > 0 {
        lemma_columns_dot_step(omega, m, idx, v, c - 1, n);
        let a = column_sum(omega, m, idx, c - 1, n - 1);
        let w = omega[n - 1] as int;
        let r = m[idx[n - 1]][c - 1] as int;
        let x = v[c - 1] as int;
        assert(x * (a + w * r) == x * a + w * (r * x)) by (nonlinear_arith);
        assert(w * (dot(m[idx[n - 1]], v, c - 1) + r * x) == w * dot(m[idx[n - 1]], v, c - 1) + w * (r * x))
            by (nonlinear_arith);
    }
}

proof fn lemma_columns_dot_empty(omega: Seq<i64>, m: Seq<Seq<i64>>, idx: Seq<int>, v: Seq<i64>, c: int)
    ensures
        columns_dot(omega, m, idx, v, c, 0) == 0,
    decreases c,
{
    if c > 0 {
        lemma_columns_dot_empty(omega, m, idx, v, c - 1);
    }
}

/// Weighting the row products and weighting the columns give the same sum.
proof fn lemma_rows_columns(omega: Seq<i64>, m: Seq<Seq<i64>>, idx: Seq<int>, v: Seq<i64>, c: int, n: int)
    requires
        n >= 0,
    ensures
        rows_dot(omega, m, idx, v, c, n) == columns_dot(omega, m, idx, v, c, n),
    decreases n,
{
    if n <= 0 {
        lemma_columns_dot_empty(omega, m, idx, v, c);
    } else {
        lemma_rows_columns(omega, m, idx, v, c, n - 1);
        lemma_columns_dot_step(omega, m, idx, v, c, n);
    }
}

/// Weighting the reduced shares agrees, modulo `q`, with weighting the unreduced ones.
proof fn lemma_weighted_reduced(
    omega: Seq<i64>,
    m: Seq<Seq<i64>>,
    idx: Seq<int>,
    v: Seq<i64>,
    pairs: Seq<(usize, i64)>,
    q: int,
    n: int,
)
    requires
        q > 1,
        0 <= n <= pairs.len(),
        forall|t: int| 0 <= t < pairs.len() ==> #[trigger] pairs[t].1 == dot(m[idx[t]], v, v.len() as int) % q,
    ensures
        (weighted_sum(omega, pairs, n) - rows_dot(omega, m, idx, v, v.len() as int, n)) % q == 0,
    decreases n,
{
    if n == 0 {
        vstd::arithmetic::div_mod::lemma_small_mod(0, q as nat);
    } else {
        lemma_weighted_reduced(omega, m, idx, v, pairs, q, n - 1);
        let d = dot(m[idx[n - 1]], v, v.len() as int);
        let w = omega[n - 1] as int;
        let prev = weighted_sum(omega, pairs, n - 1) - rows_dot(omega, m, idx, v, v.len() as int, n - 1);
        lemma_fundamental_div_mod(d, q);
        lemma_fundamental_div_mod(prev, q);
        assert(pairs[n - 1].1 == d % q);
        assert(w * (d % q) - w * d == q * (-(w * (d / q)))) by (nonlinear_arith)
            requires d == q * (d / q) + d % q;
        assert(weighted_sum(omega, pairs, n) - rows_dot(omega, m, idx, v, v.len() as int, n) == prev + w * (d % q) - w * d);
        assert(prev == q * (prev / q));
        assert(prev + w * (d % q) - w * d == q * (prev / q - w * (d / q))) by (nonlinear_arith)
            requires prev == q * (prev / q), w * (d % q) - w * d == q * (-(w * (d / q)));
        vstd::arithmetic::div_mod::lemma_mod_multiples_basic(prev / q - w * (d / q), q);
        assert(q * (prev / q - w * (d / q)) == (prev / q - w * (d / q)) * q) by (nonlinear_arith);
    }
}

/// When the weights solve the sharing system modulo `q`, the weighted columns
/// give `v[0]` modulo `q`.
proof fn lemma_columns_to_first(omega: Seq<i64>, m: Seq<Seq<i64>>, idx: Seq<int>, v: Seq<i64>, q: int, n: int, c: int)
    requires
        q > 1,
        1 <= c <= v.len(),
        forall|j: int| 0 <= j < v.len() ==> #[trigger] column_sum(omega, m, idx, j, n) % q == (if j == 0 { 1int } else { 0int }),
    ensures
        (columns_dot(omega, m, idx, v, c, n) - v[0]) % q == 0,
    decreases c,
{
    let cs = column_sum(omega, m, idx, c - 1, n);
    let x = v[c - 1] as int;
    lemma_fundamental_div_mod(cs, q);
    assert(cs % q == (if c - 1 == 0 { 1int } else { 0int }));
    if c == 1 {
        assert(columns_dot(omega, m, idx, v, 0, n) == 0);
        assert(columns_dot(omega, m, idx, v, 1, n) - v[0] == q * (x * (cs / q))) by (nonlinear_arith)
            requires columns_dot(omega, m, idx, v, 1, n) == 0 + x * cs, cs == q * (cs / q) + 1, x == v[0];
        vstd::arithmetic::div_mod::lemma_mod_multiples_basic(x * (cs / q), q);
        assert(q * (x * (cs / q)) == (x * (cs / q)) * q) by (nonlinear_arith);
    } else {
        lemma_columns_to_first(omega, m, idx, v, q, n, c - 1);
        let prev = columns_dot(omega, m, idx, v, c - 1, n) - v[0];
        lemma_fundamental_div_mod(prev, q);
        assert(columns_dot(omega, m, idx, v, c, n) - v[0] == q * (prev / q + x * (cs / q))) by (nonlinear_arith)
            requires
                columns_dot(omega, m, idx, v, c, n) == columns_dot(omega, m, idx, v, c - 1, n) + x * cs,
                prev == columns_dot(omega, m, idx, v, c - 1, n) - v[0],
                prev == q * (prev / q) + 0,
                cs == q * (cs / q) + 0;
        vstd::arithmetic::div_mod::lemma_mod_multiples_basic(prev / q + x * (cs / q), q);
        assert(q * (prev / q + x * (cs / q)) == (prev / q + x * (cs / q)) * q) by (nonlinear_arith);
    }
}

/// `pairs` carry, in order, the shares `M_i . v mod q` of the rows `idx` of
/// `m`, for a share vector `v` with `v[0]` in `[0, q)` and one entry per column.
pub open spec fn shares_of_rows(m: Seq<Seq<i64>>, v: Seq<i64>, pairs: Seq<(usize, i64)>, idx: Seq<int>, q: int) -> bool {
    &&& pairs.len() == idx.len()
    &&& idx.len() > 0
    &&& v.len() == m[idx[0]].len()
    &&& v.len() > 0
    &&& 0 <= v[0] < q
    &&& forall|t: int| 0 <= t < pairs.len() ==> #[trigger] pairs[t].1 == dot(m[idx[t]], v, v.len() as int) % q
}

/// The share vector of `share`: one entry per column, in `[0, q)`, the first
/// being `secret mod q`, and the share of row `i` is `M_i . v mod q`.
pub open spec fn share_vector_of(m: Seq<Seq<i64>>, cols: int, shares: Seq<i64>, secret: int, q: int, v: Seq<i64>) -> bool {
    &&& v.len() == cols
    &&& v[0] == secret % q
    &&& forall|j: int| 0 <= j < v.len() ==> 0 <= #[trigger] v[j] < q
    &&& forall|i: int| 0 <= i < shares.len() ==> #[trigger] shares[i] == dot(m[i], v, v.len() as int) % q
}

/// Shares of `secret` made with the share vector `v`, taken in order for the
/// rows `idx` (with their row indices), are `shares_of_rows` of `v`; so when
/// `reconstruct` succeeds on them it returns `secret mod q`.
pub proof fn lemma_share_pairs(
    m: Seq<Seq<i64>>,
    cols: int,
    shares: Seq<i64>,
    secret: int,
    q: int,
    v: Seq<i64>,
    idx: Seq<int>,
    pairs: Seq<(usize, i64)>,
)
    requires
        q > 0,
        cols > 0,
        share_vector_of(m, cols, shares, secret, q, v),
        idx.len() > 0,
        pairs.len() == idx.len(),
        m[idx[0]].len() == cols,
        forall|t: int| 0 <= t < idx.len() ==> 0 <= #[trigger] idx[t] < shares.len(),
        forall|t: int| 0 <= t < pairs.len() ==> #[trigger] pairs[t].1 == shares[idx[t]],
    ensures
        shares_of_rows(m, v, pairs, idx, q),
        v[0] == secret % q,
{
    assert forall|t: int| 0 <= t < pairs.len() implies #[trigger] pairs[t].1 == dot(m[idx[t]], v, v.len() as int) % q by {
        assert(shares[idx[t]] == dot(m[idx[t]], v, v.len() as int) % q);
    }
}

/// Reconstruction recovers the secret: weights that solve the sharing system
/// (column 0 sums to 1 and every other column to 0, modulo `q`), applied to the
/// shares `M_i . v mod q` of the selected rows, give back the secret `v[0]`
/// modulo `q`.
pub proof fn lemma_reconstruct_recovers_secret(
    m: Seq<Seq<i64>>,
    v: Seq<i64>,
    secret: int,
    q: int,
    idx: Seq<int>,
    pairs: Seq<(usize, i64)>,
    omega: Seq<i64>,
)
    requires
        q > 1,
        v.len() > 0,
        v[0] == secret % q,
        pairs.len() == idx.len(),
        omega.len() == idx.len(),
        forall|t: int| 0 <= t < pairs.len() ==> #[trigger] pairs[t].1 == dot(m[idx[t]], v, v.len() as int) % q,
        forall|j: int| 0 <= j < v.len() ==> #[trigger] column_sum(omega, m, idx, j, idx.len() as int) % q == (if j == 0 {
            1int
        } else {
            0int
        }),
    ensures
        weighted_sum(omega, pairs, pairs.len() as int) % q == secret % q,
{
    let n = idx.len() as int;
    let c = v.len() as int;
    lemma_weighted_reduced(omega, m, idx, v, pairs, q, n);
    lemma_rows_columns(omega, m, idx, v, c, n);
    lemma_columns_to_first(omega, m, idx, v, q, n, c);
    let ws = weighted_sum(omega, pairs, n);
    let cd = columns_dot(omega, m, idx, v, c, n);
    assert((ws - cd) % q == 0);
    assert((cd - v[0]) % q == 0);
    vstd::arithmetic::div_mod::lemma_add_mod_noop(ws - cd, cd - v[0], q);
    vstd::arithmetic::div_mod::lemma_small_mod(0, q as nat);
    assert((ws - v[0]) % q == 0);
    lemma_congruent_mod(ws, v[0] as int, q);
    vstd::arithmetic::div_mod::lemma_mod_bound(secret, q);
    vstd::arithmetic::div_mod::lemma_small_mod(v[0] as nat, q as nat);
}

impl LSSSShareMatrix {
    /// Shares of `secret`: `lambda_i = M_i . v mod q` for `v = (secret mod q, r_2, ..., r_n)`
    /// with random `r_j` in `[0, q)` (none for an empty matrix).
    pub fn share(&self, secret: i64, q: u32) -> (shares: Vec<i64>)
        requires
            self.wf(),
            self.entries_below(0x8000_0000),
            1 <= q < 0x8000_0000,
        ensures
            (self.spec_rows() == 0 || self.spec_cols() == 0) ==> shares@.len() == 0,
            (self.spec_rows() > 0 && self.spec_cols() > 0) ==> shares@.len() == self.spec_rows() && exists|v: Seq<i64>|
                #[trigger] share_vector_of(self.spec_matrix(), self.spec_cols() as int, shares@, secret as int, q as int, v),
    {
        if self.rows == 0 || self.cols == 0 {
            return Vec::new();
        }
        let qi = q as i64;
        let mut rng = thread_rng();
        let mut v: Vec<i64> = Vec::new();
        proof {
            crate::modarith::lemma_trem(secret as int, q as int);
            crate::modarith::lemma_add_mod(crate::modarith::trem(secret as int, q as int), q as int, q as int);
            vstd::arithmetic::div_mod::lemma_mod_self_0(q as int);
        }
        v.push(((secret % qi) + qi) % qi);
        let mut i: usize = 1;
        while i < self.cols
            invariant
                1 <= q < 0x8000_0000,
                qi == q,
                1 <= i <= self.cols,
                v@.len() == i,
                v@[0] == (secret as int) % (q as int),
                forall|j: int| 0 <= j < i ==> 0 <= #[trigger] v@[j] < q,
            decreases self.cols - i,
        {
            v.push(gen_range_i64(&mut rng, 0, qi));
            i += 1;
        }
        let mut shares: Vec<i64> = Vec::new();
        let mut r: usize = 0;
        while r < self.rows
            invariant
                self.wf(),
                self.entries_below(0x8000_0000),
                1 <= q < 0x8000_0000,
                qi == q,
                v@.len() == self.cols,
                forall|j: int| 0 <= j < v@.len() ==> 0 <= #[trigger] v@[j] < q,
                r <= self.rows,
                shares@.len() == r,
                forall|t: int| 0 <= t < r ==> #[trigger] shares@[t] == dot(self.spec_matrix()[t], v@, v@.len() as int) % (
                q as int),
            decreases self.rows - r,
        {
            let ghost row = self.spec_matrix()[r as int];
            assert(row == self.matrix@[r as int]@);
            let mut share: i64 = 0;
            let mut j: usize = 0;
            proof {
                vstd::arithmetic::div_mod::lemma_small_mod(0, q as nat);
            }
            while j < self.cols
                invariant
                    self.wf(),
                    self.entries_below(0x8000_0000),
                    1 <= q < 0x8000_0000,
                    qi == q,
                    r < self.rows,
                    row == self.spec_matrix()[r as int],
                    row.len() == self.cols,
                    v@.len() == self.cols,
                    forall|u: int| 0 <= u < v@.len() ==> 0 <= #[trigger] v@[u] < q,
                    j <= self.cols,
                    -qi < share < qi,
                    (share - dot(row, v@, j as int)) % (q as int) == 0,
                decreases self.cols - j,
            {
                let mv = self.matrix[r][j];
                let vv = v[j];
                assert(-0x8000_0000 < mv < 0x8000_0000) by {
                    assert(mv == row[j as int]);
                }
                assert(-0x4000_0000_0000_0000 <= mv * vv <= 0x4000_0000_0000_0000) by (nonlinear_arith)
                    requires -0x8000_0000 < mv < 0x8000_0000, 0 <= vv < 0x8000_0000;
                let next = share + mv * vv;
                proof {
                    crate::modarith::lemma_trem(next as int, q as int);
                    let prev = dot(row, v@, j as int);
                    assert(dot(row, v@, j + 1) == prev + mv * vv);
                    crate::modarith::lemma_add_mod(crate::modarith::trem(next as int, q as int) - next, share - prev, q as int);
                    lemma_sub_mod_zero(crate::modarith::trem(next as int, q as int), next as int, q as int);
                }
                share = next % qi;
                j += 1;
            }
            proof {
                crate::modarith::lemma_trem(share as int, q as int);
                crate::modarith::lemma_add_mod(crate::modarith::trem(share as int, q as int), q as int, q as int);
                vstd::arithmetic::div_mod::lemma_mod_self_0(q as int);
                lemma_congruent_mod(share as int, dot(row, v@, v@.len() as int), q as int);
            }
            let share_mod = (share % qi + qi) % qi;
            shares.push(share_mod);
            r += 1;
        }
        assert(share_vector_of(self.spec_matrix(), self.spec_cols() as int, shares@, secret as int, q as int, v@));
        shares
    }

    /// Reconstruct the secret from `(row, share)` pairs: `sum omega_i lambda_i mod q`
    /// with the reconstruction constants of the rows' attributes.
    pub fn reconstruct(&self, shares: &[(usize, i64)], q: u32) -> (r: PabsCrfResult<i64>)
        requires
            self.wf(),
            self.entries_below(0x8000_0000),
            prime(q as int),
            q < 0x8000_0000,
            shares@.len() < 0x4000,
            forall|i: int| 0 <= i < shares@.len() ==> (#[trigger] shares@[i]).0 < self.spec_rows(),
            forall|i: int| 0 <= i < shares@.len() ==> -0x1_0000_0000 < (#[trigger] shares@[i]).1 < 0x1_0000_0000,
            selected_rows(self.spec_attrs(), share_attrs(self.spec_attrs(), shares@), self.spec_rows() as int).len()
                >= shares@.len(),
        ensures
            r is Ok <==> shares@.len() > 0 && reconstruction_constants_spec(
                self.spec_matrix(),
                selected_rows(self.spec_attrs(), share_attrs(self.spec_attrs(), shares@), self.spec_rows() as int),
                q as int,
            ) is Some,
            r matches Ok(s) ==> forall|v: Seq<i64>| #[trigger] shares_of_rows(
                self.spec_matrix(),
                v,
                shares@,
                selected_rows(self.spec_attrs(), share_attrs(self.spec_attrs(), shares@), self.spec_rows() as int),
                q as int,
            ) ==> s == v[0],
            r matches Ok(s) ==> s == weighted_sum(
                reconstruction_constants_spec(
                    self.spec_matrix(),
                    selected_rows(self.spec_attrs(), share_attrs(self.spec_attrs(), shares@), self.spec_rows() as int),
                    q as int,
                )->Some_0,
                shares@,
                shares@.len() as int,
            ) % (q as int),
            shares@.len() == 0 ==> r is Err,
            r matches Err(e) ==> e is PolynomialError,
            r matches Ok(s) ==> 0 <= s < q && exists|omega: Seq<i64>|
                {
                    &&& reconstruction_ok(
                        omega,
                        self.spec_matrix(),
                        selected_rows(self.spec_attrs(), share_attrs(self.spec_attrs(), shares@), self.spec_rows() as int),
                        q as int,
                    )
                    &&& s == weighted_sum(omega, shares@, shares@.len() as int) % (q as int)
                },
    {
        if shares.len() == 0 {
            return Err(PabsCrfError::PolynomialError("No shares provided".to_string()));
        }
        let mut attrs: Vec<String> = Vec::new();
        let mut i: usize = 0;
        while i < shares.len()
            invariant
                self.wf(),
                i <= shares@.len(),
                attrs@.len() == i,
                forall|i: int| 0 <= i < shares@.len() ==> (#[trigger] shares@[i]).0 < self.spec_rows(),
                forall|t: int| 0 <= t < i ==> (#[trigger] attrs@[t])@ == self.spec_attrs()[shares@[t].0 as int],
            decreases shares@.len() - i,
        {
            let (idx, _) = shares[i];
            assert(self.spec_attrs()[idx as int] == self.row_to_attr@[idx as int]@);
            attrs.push(self.row_to_attr[idx].clone());
            i += 1;
        }
        assert(attr_names(attrs@) =~= share_attrs(self.spec_attrs(), shares@));
        let omega = match self.get_reconstruction_constants(attrs.as_slice(), q) {
            Some(c) => c,
            None => {
                return Err(
                    PabsCrfError::PolynomialError("Cannot reconstruct: attributes don't satisfy access structure".to_string()),
                );
            },
        };
        let qi = q as i64;
        let mut secret: i64 = 0;
        let mut k: usize = 0;
        while k < shares.len()
            invariant
                k <= shares@.len(),
                shares@.len() < 0x4000,
                omega@.len() >= shares@.len(),
                forall|t: int| 0 <= t < omega@.len() ==> -MAX_RECONSTRUCTION_COEFF_NORM <= #[trigger] omega@[t]
                    <= MAX_RECONSTRUCTION_COEFF_NORM,
                forall|i: int| 0 <= i < shares@.len() ==> -0x1_0000_0000 < (#[trigger] shares@[i]).1 < 0x1_0000_0000,
                secret == weighted_sum(omega@, shares@, k as int),
                -k * 0x1_0000_0000_0000 <= secret <= k * 0x1_0000_0000_0000,
            decreases shares@.len() - k,
        {
            let (_, sh) = shares[k];
            let w = omega[k];
            assert(-0x1_0000_0000_0000 <= w * sh <= 0x1_0000_0000_0000) by (nonlinear_arith)
                requires -0x10000 <= w <= 0x10000, -0x1_0000_0000 < sh < 0x1_0000_0000;
            secret = secret + w * sh;
            k += 1;
        }
        proof {
            crate::modarith::lemma_trem(secret as int, q as int);
            crate::modarith::lemma_add_mod(crate::modarith::trem(secret as int, q as int), q as int, q as int);
            vstd::arithmetic::div_mod::lemma_mod_self_0(q as int);
        }
        let secret_mod = ((secret % qi) + qi) % qi;
        proof {
            let sel = selected_rows(self.spec_attrs(), share_attrs(self.spec_attrs(), shares@), self.spec_rows() as int);
            assert forall|v: Seq<i64>| #[trigger] shares_of_rows(self.spec_matrix(), v, shares@, sel, q as int)
                implies secret_mod == v[0] by {
                let m = self.spec_matrix();
                assert forall|j: int| 0 <= j < v.len() implies #[trigger] column_sum(omega@, m, sel, j, sel.len() as int) % (q as int)
                    == (if j == 0 { 1int } else { 0int }) by {
                    if j == 0 {
                        lemma_first_column(omega@, m, sel, sel.len() as int);
                    }
                }
                vstd::arithmetic::div_mod::lemma_small_mod(v[0] as nat, q as nat);
                lemma_reconstruct_recovers_secret(m, v, v[0] as int, q as int, sel, shares@, omega@);
            }
        }
        Ok(secret_mod)
    }

    /// Whether the rows `indices` admit a solution of the reconstruction system.
    fn can_reconstruct(&self, indices: &[usize], q: u32) -> (b: bool)
        requires
            self.wf(),
            prime(q as int),
            q < 0x8000_0000,
            forall|i: int| 0 <= i < indices@.len() ==> #[trigger] indices@[i] < self.spec_rows(),
        ensures
            b == solve_spec(Seq::new(indices@.len(), |t: int| self.spec_matrix()[indices@[t] as int]), q as int) is Some,
            indices@.len() == 0 ==> !b,
    {
        if indices.len() == 0 {
            return false;
        }
        let mut m_i: Vec<Vec<i64>> = Vec::new();
        let mut k: usize = 0;
        while k < indices.len()
            invariant
                self.wf(),
                k <= indices@.len(),
                m_i@.len() == k,
                forall|i: int| 0 <= i < indices@.len() ==> #[trigger] indices@[i] < self.spec_rows(),
                forall|t: int| 0 <= t < k ==> (#[trigger] m_i@[t])@.len() == self.spec_cols(),
                forall|t: int| 0 <= t < k ==> (#[trigger] m_i@[t])@ == self.spec_matrix()[indices@[t] as int],
            decreases indices@.len() - k,
        {
            assert(self.spec_matrix()[indices@[k as int] as int] == self.matrix@[indices@[k as int] as int]@);
            m_i.push(self.matrix[indices[k]].clone());
            k += 1;
        }
        assert(table_view(m_i@) =~= Seq::new(indices@.len(), |t: int| self.spec_matrix()[indices@[t] as int]));
        solve_linear_system(m_i.as_slice(), q).is_some()
    }
}

/// The sharing matrix (rows, row attributes, column count) of a policy.
pub open spec fn policy_lsss(p: Option<crate::policy::Rule>) -> Option<(Seq<Seq<i64>>, Seq<Seq<char>>, nat)> {
    boolean_tree_spec(crate::policy::policy_str(p))
}

impl Policy {
    /// The sharing matrix of this policy (lowered from its canonical text).
    pub fn to_lsss(&self) -> (r: PabsCrfResult<LSSSShareMatrix>)
        ensures
            r is Ok <==> boolean_tree_spec(crate::policy::policy_str(self@)) is Some,
            r matches Err(e) ==> e is PolicyError,
            r matches Ok(m) ==> m.wf() && m.entries_below(2) && m.spec_repr() == Some(strip_parens(
                crate::policy::policy_str(self@),
            )) && m.spec_matrix() == policy_lsss(self@)->Some_0.0 && m.spec_attrs() == policy_lsss(self@)->Some_0.1,
    {
        let policy_str = self.to_string();
        LSSSShareMatrix::from_boolean_tree(policy_str.as_str())
    }
}

/// The sharing matrix of a parsed policy.
pub fn lsss_from_policy_cached(policy: &Policy) -> (r: PabsCrfResult<LSSSShareMatrix>)
    ensures
        r is Ok <==> boolean_tree_spec(crate::policy::policy_str(policy@)) is Some,
        r matches Err(e) ==> e is PolicyError,
        r matches Ok(m) ==> m.wf() && m.entries_below(2) && m.spec_repr() == Some(strip_parens(
            crate::policy::policy_str(policy@),
        )) && m.spec_matrix() == policy_lsss(policy@)->Some_0.0 && m.spec_attrs() == policy_lsss(policy@)->Some_0.1,
{
    policy.to_lsss()
}

/// The reconstruction constants of the attribute names `names` under
/// `policy`: `None` when the policy has no sharing matrix or the selected rows
/// admit none.
pub open spec fn constants_for_names(policy: Option<crate::policy::Rule>, names: Seq<Seq<char>>, q: int) -> Option<Seq<i64>> {
    match policy_lsss(policy) {
        Some(l) => reconstruction_constants_spec(l.0, selected_rows(l.1, names, l.1.len() as int), q),
        None => None,
    }
}

/// The policy target of the attribute names `names` for the user `gid`, when
/// reconstruction constants exist.
pub open spec fn target_for_names(
    policy: Option<crate::policy::Rule>,
    names: Seq<Seq<char>>,
    gid: Seq<u8>,
    params: crate::mlwe::MLWEParameters,
) -> Option<Seq<Seq<i32>>> {
    match constants_for_names(policy, names, params.q as int) {
        Some(omega) => {
            let attrs = policy_lsss(policy)->Some_0.1;
            let sel = selected_rows(attrs, names, attrs.len() as int);
            Some(policy_target_spec(omega, selected_attrs(attrs, sel), gid, params))
        },
        None => None,
    }
}

/// The reconstruction constants of `attributes` under `policy`.
pub open spec fn policy_constants(policy: Option<crate::policy::Rule>, attributes: Seq<String>, q: int) -> Option<Seq<i64>> {
    constants_for_names(policy, attr_names(attributes), q)
}

/// Reconstruction constants exist only for a policy with a sharing matrix.
pub proof fn lemma_constants_need_matrix(policy: Option<crate::policy::Rule>, attributes: Seq<String>, q: int)
    ensures
        policy_constants(policy, attributes, q) is Some ==> policy_lsss(policy) is Some,
{
}

/// The policy target of `attributes` for the user `gid`, when reconstruction
/// constants exist.
pub open spec fn policy_target_of_attrs(
    policy: Option<crate::policy::Rule>,
    attributes: Seq<String>,
    gid: Seq<u8>,
    params: crate::mlwe::MLWEParameters,
) -> Option<Seq<Seq<i32>>> {
    target_for_names(policy, attr_names(attributes), gid, params)
}

/// The sharing matrix of `policy`, the reconstruction constants for
/// `attributes`, and the rows they apply to.
pub fn reconstruction_data_cached(policy: &Policy, attributes: &[String], q: u32) -> (r: PabsCrfResult<
    (LSSSShareMatrix, Vec<i64>, Vec<usize>),
>)
    requires
        prime(q as int),
        q < 0x8000_0000,
    ensures
        r is Ok <==> policy_constants(policy@, attributes@, q as int) is Some,
        r matches Ok(res) ==> policy_constants(policy@, attributes@, q as int) == Some(res.1@),
        r matches Err(e) ==> e is PolicyError,
        r matches Ok(res) ==> ({
            let (m, omega, idx) = res;
            let sel = selected_rows(m.spec_attrs(), attr_names(attributes@), m.spec_rows() as int);
            &&& m.wf()
            &&& m.entries_below(2)
            &&& m.spec_repr() == Some(strip_parens(crate::policy::policy_str(policy@)))
            &&& policy_lsss(policy@) is Some
            &&& m.spec_matrix() == policy_lsss(policy@)->Some_0.0
            &&& m.spec_attrs() == policy_lsss(policy@)->Some_0.1
            &&& reconstruction_ok(omega@, m.spec_matrix(), sel, q as int)
            &&& idx@.len() == sel.len()
            &&& forall|i: int| 0 <= i < idx@.len() ==> #[trigger] idx@[i] as int == sel[i]
        }),
{
    let lsss = match lsss_from_policy_cached(policy) {
        Ok(m) => m,
        Err(e) => {
            return Err(e);
        },
    };
    let constants = match lsss.get_reconstruction_constants(attributes, q) {
        Some(c) => c,
        None => {
            return Err(PabsCrfError::PolicyError("Attributes do not satisfy policy for reconstruction".to_string()));
        },
    };
    let indices = lsss.selected_indices(attributes);
    Ok((lsss, constants, indices))
}

// ---------------------------------------------------------------------------
// Policy target vectors
// ---------------------------------------------------------------------------

/// The attributes of the selected rows, in order.
pub open spec fn selected_attrs(attrs: Seq<Seq<char>>, sel: Seq<int>) -> Seq<Seq<char>> {
    Seq::new(sel.len(), |i: int| attrs[sel[i]])
}

/// The target vector of an attribute bound to a GID.
pub open spec fn attr_target(a: Seq<char>, gid: Seq<u8>, params: crate::mlwe::MLWEParameters) -> Seq<Seq<i32>> {
    crate::utils::target_vector_spec(vstd::utf8::encode_utf8(a), gid, params.k as nat, params.n as nat, params.q)
}

/// `sum_{i < upto} omega[i] * target(attrs[i])[j][l]`.
pub open spec fn target_sum(
    omega: Seq<i64>,
    attrs: Seq<Seq<char>>,
    gid: Seq<u8>,
    params: crate::mlwe::MLWEParameters,
    j: int,
    l: int,
    upto: int,
) -> int
    decreases upto,
{
    if upto <= 0 {
        0
    } else {
        target_sum(omega, attrs, gid, params, j, l, upto - 1) + omega[upto - 1] * attr_target(attrs[upto - 1], gid, params)[j][l]
    }
}

/// The policy target `u = sum_i omega_i * target(attr_i) mod q`.
pub open spec fn policy_target_spec(
    omega: Seq<i64>,
    attrs: Seq<Seq<char>>,
    gid: Seq<u8>,
    params: crate::mlwe::MLWEParameters,
) -> Seq<Seq<i32>> {
    Seq::new(
        params.k as nat,
        |j: int| Seq::new(
            params.n as nat,
            |l: int| (target_sum(omega, attrs, gid, params, j, l, omega.len() as int) % (params.q as int)) as i32,
        ),
    )
}

/// Parameters for which the policy target can be derived.
pub open spec fn target_params_ok(params: crate::mlwe::MLWEParameters) -> bool {
    &&& prime(params.q as int)
    &&& params.q < 0x4000_0000
    &&& params.k * params.n <= usize::MAX
}

/// The policy target vector for the satisfying `attributes` of a user `gid`:
/// the reconstruction constants of the selected rows applied to the rows'
/// attribute target vectors.
pub fn derive_policy_target_cached(
    policy: &Policy,
    attributes: &[String],
    gid: &[u8; 32],
    params: &crate::mlwe::MLWEParameters,
) -> (r: PabsCrfResult<crate::mlwe::PolynomialVector>)
    requires
        target_params_ok(*params),
    ensures
        r is Ok <==> policy_constants(policy@, attributes@, params.q as int) is Some,
        r matches Ok(t) ==> policy_target_of_attrs(policy@, attributes@, gid@, *params) == Some(t@),
        r matches Err(e) ==> e is PolicyError,
        r matches Ok(t) ==> ({
            let (mat, attrs, _) = policy_lsss(policy@)->Some_0;
            let sel = selected_rows(attrs, attr_names(attributes@), attrs.len() as int);
            exists|omega: Seq<i64>| #[trigger] reconstruction_ok(omega, mat, sel, params.q as int)
                && t@ == policy_target_spec(omega, selected_attrs(attrs, sel), gid@, *params)
        }),
{
    let q = params.q;
    let k = params.k;
    let n = params.n;
    let (lsss, constants, indices) = match reconstruction_data_cached(policy, attributes, q) {
        Ok(d) => d,
        Err(e) => {
            return Err(e);
        },
    };
    let t = target_from_constants(&lsss, &constants, &indices, attributes, gid, params);
    Ok(t)
}

/// `sum_i omega_i * target(attr of row indices_i) mod q` for reconstruction constants `omega`.
fn target_from_constants(
    lsss: &LSSSShareMatrix,
    constants: &Vec<i64>,
    indices: &Vec<usize>,
    attributes: &[String],
    gid: &[u8; 32],
    params: &crate::mlwe::MLWEParameters,
) -> (t: crate::mlwe::PolynomialVector)
    requires
        target_params_ok(*params),
        lsss.wf(),
        reconstruction_ok(
            constants@,
            lsss.spec_matrix(),
            selected_rows(lsss.spec_attrs(), attr_names(attributes@), lsss.spec_rows() as int),
            params.q as int,
        ),
        indices@.len() == selected_rows(lsss.spec_attrs(), attr_names(attributes@), lsss.spec_rows() as int).len(),
        forall|i: int| 0 <= i < indices@.len() ==> #[trigger] indices@[i] as int == selected_rows(
            lsss.spec_attrs(),
            attr_names(attributes@),
            lsss.spec_rows() as int,
        )[i],
    ensures
        t@ == policy_target_spec(
            constants@,
            selected_attrs(
                lsss.spec_attrs(),
                selected_rows(lsss.spec_attrs(), attr_names(attributes@), lsss.spec_rows() as int),
            ),
            gid@,
            *params,
        ),
{
    let q = params.q;
    let k = params.k;
    let n = params.n;
    let ghost attrs = lsss.spec_attrs();
    let ghost sel = selected_rows(attrs, attr_names(attributes@), lsss.spec_rows() as int);
    let ghost sattrs = selected_attrs(attrs, sel);
    let ghost omega = constants@;
    let mut elements: Vec<crate::mlwe::Polynomial> = Vec::with_capacity(k);
    let mut j: usize = 0;
    while j < k
        invariant
            j <= k,
            elements@.len() == j,
            forall|a: int| 0 <= a < j ==> (#[trigger] elements@[a])@ == Seq::new(n as nat, |l: int| 0i32),
        decreases k - j,
    {
        elements.push(crate::mlwe::Polynomial::new(n));
        j += 1;
    }
    let names = lsss.row_to_attr();
    proof {
        lemma_selected_rows(attrs, attr_names(attributes@), lsss.spec_rows() as int);
        assert forall|a: int, l: int| 0 <= a < k && 0 <= l < n implies #[trigger] elements@[a]@[l]
            == target_sum(omega, sattrs, gid@, *params, a, l, 0) % (q as int) by {
            vstd::arithmetic::div_mod::lemma_small_mod(0, q as nat);
        }
    }
    let mut i: usize = 0;
    while i < constants.len()
        invariant
            target_params_ok(*params),
            q == params.q,
            k == params.k,
            n == params.n,
            lsss.wf(),
            str_seqs(names@) == attrs,
            attrs == lsss.spec_attrs(),
            omega == constants@,
            reconstruction_ok(omega, lsss.spec_matrix(), sel, q as int),
            indices@.len() == sel.len(),
            forall|t: int| 0 <= t < indices@.len() ==> #[trigger] indices@[t] as int == sel[t],
            forall|t: int| 0 <= t < sel.len() ==> 0 <= #[trigger] sel[t] < lsss.spec_rows(),
            sattrs == selected_attrs(attrs, sel),
            i <= constants@.len(),
            elements@.len() == k,
            forall|a: int| 0 <= a < k ==> (#[trigger] elements@[a])@.len() == n,
            forall|a: int, l: int| 0 <= a < k && 0 <= l < n ==> #[trigger] elements@[a]@[l]
                == target_sum(omega, sattrs, gid@, *params, a, l, i as int) % (q as int),
        decreases constants@.len() - i,
    {
        let coeff = constants[i];
        let name = &names[indices[i]];
        assert(name@ == sattrs[i as int]);
        let u_i = crate::utils::hash_to_target_vector_with_gid(name.as_str(), gid, params);
        assert(u_i@ == attr_target(sattrs[i as int], gid@, *params));
        let mut a: usize = 0;
        while a < k
            invariant
                target_params_ok(*params),
                q == params.q,
                k == params.k,
                n == params.n,
                omega == constants@,
                reconstruction_ok(omega, lsss.spec_matrix(), sel, q as int),
                i < constants@.len(),
                coeff == omega[i as int],
                u_i@ == attr_target(sattrs[i as int], gid@, *params),
                u_i@.len() == k,
                crate::mlwe::vec_uniform(u_i@, n as int),
                a <= k,
                elements@.len() == k,
                forall|b: int| 0 <= b < k ==> (#[trigger] elements@[b])@.len() == n,
                forall|b: int, l: int| 0 <= b < a && 0 <= l < n ==> #[trigger] elements@[b]@[l]
                    == target_sum(omega, sattrs, gid@, *params, b, l, i + 1) % (q as int),
                forall|b: int, l: int| a <= b < k && 0 <= l < n ==> #[trigger] elements@[b]@[l]
                    == target_sum(omega, sattrs, gid@, *params, b, l, i as int) % (q as int),
            decreases k - a,
        {
            let old_poly = &elements[a];
            let ui = &u_i.elements[a];
            assert(ui@ == u_i@[a as int]);
            let mut coeffs: Vec<i32> = Vec::with_capacity(n);
            let mut l: usize = 0;
            while l < n
                invariant
                    target_params_ok(*params),
                    q == params.q,
                    n == params.n,
                    i < constants@.len(),
                    coeff == omega[i as int],
                    -0x1_0000 <= coeff <= 0x1_0000,
                    old_poly@.len() == n,
                    ui@.len() == n,
                    ui@ == attr_target(sattrs[i as int], gid@, *params)[a as int],
                    forall|l: int| 0 <= l < n ==> #[trigger] old_poly@[l]
                        == target_sum(omega, sattrs, gid@, *params, a as int, l, i as int) % (q as int),
                    l <= n,
                    coeffs@.len() == l,
                    forall|t: int| 0 <= t < l ==> #[trigger] coeffs@[t]
                        == target_sum(omega, sattrs, gid@, *params, a as int, t, i + 1) % (q as int),
                decreases n - l,
            {
                let q64 = q as i64;
                let prev = old_poly.coeffs[l] as i64;
                let h = ui.coeffs[l] as i64;
                proof {
                    vstd::arithmetic::div_mod::lemma_mod_bound(
                        target_sum(omega, sattrs, gid@, *params, a as int, l as int, i as int),
                        q as int,
                    );
                    assert(-0x1_0000 * 0x8000_0000 <= coeff * h <= 0x1_0000 * 0x8000_0000) by (nonlinear_arith)
                        requires -0x1_0000 <= coeff <= 0x1_0000, -0x8000_0000 <= h <= 0x8000_0000;
                    crate::modarith::lemma_trem((coeff * h) as int, q as int);
                }
                let prod = coeff * h;
                let t = ((prod % q64) + q64) % q64;
                let v = (prev + t) % q64;
                proof {
                    let s = target_sum(omega, sattrs, gid@, *params, a as int, l as int, i as int);
                    vstd::arithmetic::div_mod::lemma_add_mod_noop(s, coeff * h, q as int);
                    vstd::arithmetic::div_mod::lemma_mod_twice(s, q as int);
                    vstd::arithmetic::div_mod::lemma_mod_bound(prev + t, q as int);
                    vstd::arithmetic::div_mod::lemma_mod_twice(coeff * h, q as int);
                }
                coeffs.push(v as i32);
                l += 1;
            }
            let np = crate::mlwe::Polynomial { coeffs };
            elements.set(a, np);
            a += 1;
        }
        i += 1;
    }
    let t = crate::mlwe::PolynomialVector { elements };
    assert(t@ =~= policy_target_spec(omega, sattrs, gid@, *params)) by {
        assert forall|a: int| 0 <= a < k implies #[trigger] t@[a] =~= policy_target_spec(omega, sattrs, gid@, *params)[a] by {
            assert(t@[a] == t.elements@[a]@);
        }
    }
    t
}

/// The zero vector of `k` polynomials of `n` coefficients.
pub open spec fn zero_target(params: crate::mlwe::MLWEParameters) -> Seq<Seq<i32>> {
    Seq::new(params.k as nat, |j: int| Seq::new(params.n as nat, |l: int| 0i32))
}

impl LSSSShareMatrix {
    /// The policy target of `attributes` for the user `gid`: the
    /// reconstruction constants applied to the rows' target vectors, or the
    /// zero vector when no reconstruction constants are found.
    pub fn derive_policy_target(
        &self,
        attributes: &[String],
        gid: &[u8; 32],
        params: &crate::mlwe::MLWEParameters,
    ) -> (t: crate::mlwe::PolynomialVector)
        requires
            self.wf(),
            self.entries_below(0x8000_0000),
            target_params_ok(*params),
        ensures
            ({
                let sel = selected_rows(self.spec_attrs(), attr_names(attributes@), self.spec_rows() as int);
                ||| t@ == zero_target(*params)
                ||| exists|omega: Seq<i64>| #[trigger] reconstruction_ok(omega, self.spec_matrix(), sel, params.q as int)
                    && t@ == policy_target_spec(omega, selected_attrs(self.spec_attrs(), sel), gid@, *params)
            }),
            selected_rows(self.spec_attrs(), attr_names(attributes@), self.spec_rows() as int).len() == 0 ==> t@
                == zero_target(*params),
    {
        match self.get_reconstruction_constants(attributes, params.q) {
            Some(constants) => {
                let indices = self.selected_indices(attributes);
                target_from_constants(self, &constants, &indices, attributes, gid, params)
            },
            None => {
                let t = crate::mlwe::PolynomialVector::new(params.k, params.n);
                assert(t@ =~= zero_target(*params)) by {
                    assert forall|j: int| 0 <= j < params.k implies #[trigger] t@[j] =~= zero_target(*params)[j] by {}
                }
                t
            },
        }
    }
}

} // verus!
