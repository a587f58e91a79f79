//! Soundness of the sharing matrices lowered from AND / OR formulas: a set of
//! attributes that does not satisfy the formula holds no rows from which the
//! secret can be reconstructed.
//!
//! The argument is the usual one for monotone span programs. For an
//! unsatisfying set there is a vector `w` with `w[0] = 1` that is orthogonal to
//! every row the set holds; weighting those rows to `(1, 0, ..., 0)` would give
//! `1 = w . (1, 0, ..., 0) = sum omega_i (M_i . w) = 0`.
use vstd::prelude::*;
use crate::lsss::{
    and_token, boolean_tree_spec, column_sum, find_op_from, first_column_sum, lemma_find_op, lemma_msp_columns,
    lemma_msp_entries, lemma_selected_rows, lemma_selected_rows_held, lemma_strip_parens_len, msp, or_token,
    reconstruction_constants_spec, reconstruction_ok, resized, rows_at, selected_rows, strip_parens,
};
use crate::gauss::{solves_system, weighted_column};
use crate::text::{lemma_trim_len, trim};

verus! {

/// Whether the attributes `attrs` satisfy the formula `p`, read as
/// `from_boolean_tree` reads it: split at the first top-level ` OR `, else at
/// the first top-level ` AND `, else an attribute name, after trimming and
/// removing enclosing parentheses.
pub open spec fn formula_holds(p: Seq<char>, attrs: Set<Seq<char>>) -> bool
    decreases p.len(),
{
    let s = strip_parens(p);
    proof {
        lemma_strip_parens_len(p);
    }
    if find_op_from(s, or_token(), 0) is Some {
        let k = find_op_from(s, or_token(), 0)->Some_0;
        proof {
            lemma_find_op(s, or_token(), 0);
            lemma_trim_len(s.subrange(0, k));
            lemma_trim_len(s.subrange(k + 4, s.len() as int));
        }
        formula_holds(trim(s.subrange(0, k)), attrs) || formula_holds(trim(s.subrange(k + 4, s.len() as int)), attrs)
    } else if find_op_from(s, and_token(), 0) is Some {
        let k = find_op_from(s, and_token(), 0)->Some_0;
        proof {
            lemma_find_op(s, and_token(), 0);
            lemma_trim_len(s.subrange(0, k));
            lemma_trim_len(s.subrange(k + 5, s.len() as int));
        }
        formula_holds(trim(s.subrange(0, k)), attrs) && formula_holds(trim(s.subrange(k + 5, s.len() as int)), attrs)
    } else {
        attrs.contains(s)
    }
}

/// Entry `j` of a row, zero beyond its end.
pub open spec fn entry(r: Seq<i64>, j: int) -> int {
    if 0 <= j < r.len() {
        r[j] as int
    } else {
        0
    }
}

/// `sum_{j < n} entry(r, j) * w(j)`.
pub open spec fn dot_w(r: Seq<i64>, w: spec_fn(int) -> int, n: int) -> int
    decreases n,
{
    if n <= 0 {
        0
    } else {
        dot_w(r, w, n - 1) + entry(r, n - 1) * w(n - 1)
    }
}

/// The first `k` entries of `r` are those of `v`.
pub open spec fn prefix_of(r: Seq<i64>, v: Seq<i64>, k: int) -> bool {
    forall|j: int| 0 <= j < k ==> #[trigger] entry(r, j) == entry(v, j)
}

/// The first `k` entries of `r` are zero.
pub open spec fn prefix_zero(r: Seq<i64>, k: int) -> bool {
    forall|j: int| 0 <= j < k ==> #[trigger] entry(r, j) == 0
}

/// Equal terms give equal sums.
proof fn lemma_dot_pointwise(a: Seq<i64>, wa: spec_fn(int) -> int, b: Seq<i64>, wb: spec_fn(int) -> int, n: int)
    requires
        forall|j: int| 0 <= j < n ==> #[trigger] entry(a, j) * wa(j) == entry(b, j) * wb(j),
    ensures
        dot_w(a, wa, n) == dot_w(b, wb, n),
    decreases n,
{
    if n > 0 {
        lemma_dot_pointwise(a, wa, b, wb, n - 1);
        assert(entry(a, n - 1) * wa(n - 1) == entry(b, n - 1) * wb(n - 1));
    }
}

/// Zero terms give a zero sum.
proof fn lemma_dot_zero(a: Seq<i64>, w: spec_fn(int) -> int, n: int)
    requires
        forall|j: int| 0 <= j < n ==> #[trigger] entry(a, j) * w(j) == 0,
    ensures
        dot_w(a, w, n) == 0,
    decreases n,
{
    if n > 0 {
        lemma_dot_zero(a, w, n - 1);
        assert(entry(a, n - 1) * w(n - 1) == 0);
    }
}

/// Past the end of a row the sum does not change.
proof fn lemma_dot_extend(a: Seq<i64>, w: spec_fn(int) -> int, m: int, n: int)
    requires
        a.len() <= m <= n,
    ensures
        dot_w(a, w, n) == dot_w(a, w, m),
    decreases n - m,
{
    if n > m {
        lemma_dot_extend(a, w, m, n - 1);
        assert(entry(a, n - 1) == 0);
    }
}

/// A row lowered from a formula with row vector `cur` at free column `nc`
/// starts either with `cur` or with zeros, over the first `nc` columns.
proof fn lemma_msp_prefix(p: Seq<char>, cur: Seq<i64>, nc: nat)
    requires
        cur.len() <= nc,
    ensures
        msp(p, cur, nc) matches Some((rows, attrs, n)) ==> forall|i: int|
            0 <= i < rows.len() ==> prefix_of(#[trigger] rows[i], cur, nc as int) || prefix_zero(rows[i], nc as int),
    decreases p.len(),
{
    let s = strip_parens(p);
    lemma_strip_parens_len(p);
    if find_op_from(s, or_token(), 0) is Some {
        let k = find_op_from(s, or_token(), 0)->Some_0;
        lemma_find_op(s, or_token(), 0);
        lemma_trim_len(s.subrange(0, k));
        lemma_trim_len(s.subrange(k + 4, s.len() as int));
        let l = trim(s.subrange(0, k));
        let r = trim(s.subrange(k + 4, s.len() as int));
        lemma_msp_prefix(l, cur, nc);
        lemma_msp_columns(l, cur, nc);
        if let Some((r1, a1, n1)) = msp(l, cur, nc) {
            lemma_msp_prefix(r, cur, n1);
            if let Some((r2, a2, n2)) = msp(r, cur, n1) {
                assert forall|i: int| 0 <= i < (r1 + r2).len() implies prefix_of(#[trigger] (r1 + r2)[i], cur, nc as int)
                    || prefix_zero((r1 + r2)[i], nc as int) by {
                    if i < r1.len() {
                        assert((r1 + r2)[i] == r1[i]);
                    } else {
                        let row = r2[i - r1.len()];
                        assert((r1 + r2)[i] == row);
                        if prefix_of(row, cur, n1 as int) {
                            assert forall|j: int| 0 <= j < nc implies #[trigger] entry(row, j) == entry(cur, j) by {
                                assert(entry(row, j) == entry(cur, j));
                            }
                        } else {
                            assert forall|j: int| 0 <= j < nc implies #[trigger] entry(row, j) == 0 by {
                                assert(entry(row, j) == 0);
                            }
                        }
                    }
                }
            }
        }
    } else if find_op_from(s, and_token(), 0) is Some {
        let k = find_op_from(s, and_token(), 0)->Some_0;
        lemma_find_op(s, and_token(), 0);
        lemma_trim_len(s.subrange(0, k));
        lemma_trim_len(s.subrange(k + 5, s.len() as int));
        let l = trim(s.subrange(0, k));
        let r = trim(s.subrange(k + 5, s.len() as int));
        let lv = resized(cur, nc + 1).update(nc as int, 1i64);
        let rv = resized(Seq::empty(), nc + 1).update(nc as int, -1i64);
        lemma_msp_prefix(l, lv, nc + 1);
        lemma_msp_columns(l, lv, nc + 1);
        if let Some((r1, a1, n1)) = msp(l, lv, nc + 1) {
            lemma_msp_prefix(r, rv, n1);
            if let Some((r2, a2, n2)) = msp(r, rv, n1) {
                assert forall|i: int| 0 <= i < (r1 + r2).len() implies prefix_of(#[trigger] (r1 + r2)[i], cur, nc as int)
                    || prefix_zero((r1 + r2)[i], nc as int) by {
                    if i < r1.len() {
                        let row = r1[i];
                        assert((r1 + r2)[i] == row);
                        if prefix_of(row, lv, nc + 1int) {
                            assert forall|j: int| 0 <= j < nc implies #[trigger] entry(row, j) == entry(cur, j) by {
                                assert(entry(row, j) == entry(lv, j));
                            }
                        } else {
                            assert forall|j: int| 0 <= j < nc implies #[trigger] entry(row, j) == 0 by {
                                assert(entry(row, j) == 0);
                            }
                        }
                    } else {
                        let row = r2[i - r1.len()];
                        assert((r1 + r2)[i] == row);
                        assert forall|j: int| 0 <= j < nc implies #[trigger] entry(row, j) == 0 by {
                            if prefix_of(row, rv, n1 as int) {
                                assert(entry(row, j) == entry(rv, j));
                            } else {
                                assert(entry(row, j) == 0);
                            }
                        }
                    }
                }
            }
        }
    } else if s.len() > 0 {
        assert(seq![cur][0] == cur);
        assert(prefix_of(cur, cur, nc as int));
    }
}

/// Row vectors below the free column with entries in `{-1, 0, 1}`.
pub open spec fn small_row(cur: Seq<i64>, nc: nat) -> bool {
    &&& cur.len() <= nc
    &&& forall|j: int| 0 <= j < cur.len() ==> -1 <= #[trigger] cur[j] <= 1
}

/// For a formula the attributes do not satisfy, any values `w` of the columns
/// before `nc` extend to values `w2` of all columns under which every row the
/// attributes hold sums to zero.
#[verifier::spinoff_prover]
proof fn lemma_msp_certificate(
    p: Seq<char>,
    cur: Seq<i64>,
    nc: nat,
    attrs: Set<Seq<char>>,
    w: spec_fn(int) -> int,
) -> (w2: spec_fn(int) -> int)
    requires
        small_row(cur, nc),
        msp(p, cur, nc) is Some,
        !formula_holds(p, attrs),
    ensures
        forall|j: int| 0 <= j < nc ==> #[trigger] w2(j) == w(j),
        ({
            let (rows, ats, n) = msp(p, cur, nc)->Some_0;
            forall|i: int| 0 <= i < rows.len() && attrs.contains(ats[i]) ==> dot_w(#[trigger] rows[i], w2, n as int) == 0
        }),
    decreases p.len(),
{
    let s = strip_parens(p);
    lemma_strip_parens_len(p);
    lemma_msp_columns(p, cur, nc);
    lemma_msp_entries(p, cur, nc);
    if find_op_from(s, or_token(), 0) is Some {
        let k = find_op_from(s, or_token(), 0)->Some_0;
        lemma_find_op(s, or_token(), 0);
        lemma_trim_len(s.subrange(0, k));
        lemma_trim_len(s.subrange(k + 4, s.len() as int));
        let l = trim(s.subrange(0, k));
        let r = trim(s.subrange(k + 4, s.len() as int));
        let (r1, a1, n1) = msp(l, cur, nc)->Some_0;
        lemma_msp_columns(l, cur, nc);
        lemma_msp_entries(l, cur, nc);
        let (r2, a2, n2) = msp(r, cur, n1)->Some_0;
        lemma_msp_columns(r, cur, n1);
        let w1 = lemma_msp_certificate(l, cur, nc, attrs, w);
        let w2 = lemma_msp_certificate(r, cur, n1, attrs, w1);
        assert forall|i: int| 0 <= i < (r1 + r2).len() && attrs.contains((a1 + a2)[i]) implies dot_w(
            #[trigger] (r1 + r2)[i],
            w2,
            n2 as int,
        ) == 0 by {
            if i < r1.len() {
                let row = r1[i];
                assert((r1 + r2)[i] == row);
                assert((a1 + a2)[i] == a1[i]);
                assert forall|j: int| 0 <= j < n1 implies #[trigger] entry(row, j) * w2(j) == entry(row, j) * w1(j) by {
                    assert(w2(j) == w1(j));
                }
                lemma_dot_pointwise(row, w2, row, w1, n1 as int);
                lemma_dot_extend(row, w2, n1 as int, n2 as int);
            } else {
                assert((r1 + r2)[i] == r2[i - r1.len()]);
                assert((a1 + a2)[i] == a2[i - r1.len()]);
            }
        }
        w2
    } else if find_op_from(s, and_token(), 0) is Some {
        let k = find_op_from(s, and_token(), 0)->Some_0;
        lemma_find_op(s, and_token(), 0);
        lemma_trim_len(s.subrange(0, k));
        lemma_trim_len(s.subrange(k + 5, s.len() as int));
        let l = trim(s.subrange(0, k));
        let r = trim(s.subrange(k + 5, s.len() as int));
        let lv = resized(cur, nc + 1).update(nc as int, 1i64);
        let rv = resized(Seq::empty(), nc + 1).update(nc as int, -1i64);
        let c = nc as int;
        let (r1, a1, n1) = msp(l, lv, nc + 1)->Some_0;
        lemma_msp_columns(l, lv, nc + 1);
        lemma_msp_entries(l, lv, nc + 1);
        lemma_msp_prefix(l, lv, nc + 1);
        let (r2, a2, n2) = msp(r, rv, n1)->Some_0;
        lemma_msp_columns(r, rv, n1);
        lemma_msp_entries(r, rv, n1);
        lemma_msp_prefix(r, rv, n1);
        if !formula_holds(l, attrs) {
            let wz: spec_fn(int) -> int = |j: int| if j == c { 0 } else { w(j) };
            let w1 = lemma_msp_certificate(l, lv, nc + 1, attrs, wz);
            let w2: spec_fn(int) -> int = |j: int| if n1 <= j { 0 } else { w1(j) };
            assert forall|i: int| 0 <= i < (r1 + r2).len() && attrs.contains((a1 + a2)[i]) implies dot_w(
                #[trigger] (r1 + r2)[i],
                w2,
                n2 as int,
            ) == 0 by {
                if i < r1.len() {
                    let row = r1[i];
                    assert((r1 + r2)[i] == row);
                    assert((a1 + a2)[i] == a1[i]);
                    assert forall|j: int| 0 <= j < n1 implies #[trigger] entry(row, j) * w2(j) == entry(row, j) * w1(j)
                        by {}
                    lemma_dot_pointwise(row, w2, row, w1, n1 as int);
                    lemma_dot_extend(row, w2, n1 as int, n2 as int);
                } else {
                    let row = r2[i - r1.len()];
                    assert((r1 + r2)[i] == row);
                    assert forall|j: int| 0 <= j < n2 implies #[trigger] entry(row, j) * w2(j) == 0 by {
                        if j < n1 {
                            if prefix_of(row, rv, n1 as int) {
                                assert(entry(row, j) == entry(rv, j));
                                if j == c {
                                    assert(w2(j) == w1(j));
                                    assert(w1(j) == wz(j));
                                    assert(wz(j) == 0);
                                    assert(w2(j) == 0);
                                } else {
                                    assert(entry(rv, j) == 0);
                                    assert(entry(row, j) == 0);
                                }
                            } else {
                                assert(entry(row, j) == 0);
                            }
                        } else {
                            assert(w2(j) == 0);
                        }
                        assert(entry(row, j) == 0 || w2(j) == 0);
                    }
                    lemma_dot_zero(row, w2, n2 as int);
                }
            }
            assert forall|j: int| 0 <= j < nc implies #[trigger] w2(j) == w(j) by {
                assert(w1(j) == wz(j));
            }
            w2
        } else {
            let x = dot_w(cur, w, c);
            let wz: spec_fn(int) -> int = |j: int| if j == c { -x } else if c < j && j < n1 { 0 } else { w(j) };
            let w2 = lemma_msp_certificate(r, rv, n1, attrs, wz);
            assert forall|i: int| 0 <= i < (r1 + r2).len() && attrs.contains((a1 + a2)[i]) implies dot_w(
                #[trigger] (r1 + r2)[i],
                w2,
                n2 as int,
            ) == 0 by {
                if i < r1.len() {
                    let row = r1[i];
                    assert((r1 + r2)[i] == row);
                    assert forall|j: int| 0 <= j < n1 implies #[trigger] entry(row, j) * w2(j) == entry(row, j) * wz(j)
                        by {
                        assert(w2(j) == wz(j));
                    }
                    lemma_dot_pointwise(row, w2, row, wz, n1 as int);
                    lemma_dot_extend(row, w2, n1 as int, n2 as int);
                    if prefix_of(row, lv, c + 1) {
                        assert forall|j: int| 0 <= j < n1 implies #[trigger] entry(row, j) * wz(j) == entry(lv, j) * wz(
                            j,
                        ) by {
                            if j <= c {
                                assert(entry(row, j) == entry(lv, j));
                            }
                        }
                        lemma_dot_pointwise(row, wz, lv, wz, n1 as int);
                        lemma_dot_extend(lv, wz, c + 1, n1 as int);
                        assert forall|j: int| 0 <= j < c implies #[trigger] entry(lv, j) * wz(j) == entry(cur, j) * w(j)
                            by {}
                        lemma_dot_pointwise(lv, wz, cur, w, c);
                        assert(entry(lv, c) == 1);
                    } else {
                        assert forall|j: int| 0 <= j < n1 implies #[trigger] entry(row, j) * wz(j) == 0 by {
                            if j <= c {
                                assert(entry(row, j) == 0);
                            }
                        }
                        lemma_dot_zero(row, wz, n1 as int);
                    }
                } else {
                    assert((r1 + r2)[i] == r2[i - r1.len()]);
                    assert((a1 + a2)[i] == a2[i - r1.len()]);
                }
            }
            assert forall|j: int| 0 <= j < nc implies #[trigger] w2(j) == w(j) by {
                assert(w2(j) == wz(j));
            }
            w2
        }
    } else {
        w
    }
}

/// `sum_{t < k} omega[t] * (m[idx[t]] . w)` over the first `c` columns.
pub open spec fn rows_weighted(
    omega: Seq<i64>,
    m: Seq<Seq<i64>>,
    idx: Seq<int>,
    w: spec_fn(int) -> int,
    c: int,
    k: int,
) -> int
    decreases k,
{
    if k <= 0 {
        0
    } else {
        rows_weighted(omega, m, idx, w, c, k - 1) + omega[k - 1] * dot_w(m[idx[k - 1]], w, c)
    }
}

/// `sum_{j < c} w(j) * column_sum(omega, m, idx, j, k)`.
pub open spec fn cols_weighted(
    omega: Seq<i64>,
    m: Seq<Seq<i64>>,
    idx: Seq<int>,
    w: spec_fn(int) -> int,
    c: int,
    k: int,
) -> int
    decreases c,
{
    if c <= 0 {
        0
    } else {
        cols_weighted(omega, m, idx, w, c - 1, k) + w(c - 1) * column_sum(omega, m, idx, c - 1, k)
    }
}

proof fn lemma_cols_weighted_step(
    omega: Seq<i64>,
    m: Seq<Seq<i64>>,
    idx: Seq<int>,
    w: spec_fn(int) -> int,
    c: int,
    k: int,
)
    requires
        k >= 1,
        c <= m[idx[k - 1]].len(),
    ensures
        cols_weighted(omega, m, idx, w, c, k) == cols_weighted(omega, m, idx, w, c, k - 1) + omega[k - 1] * dot_w(
            m[idx[k - 1]],
            w,
            c,
        ),
    decreases c,
{
    if c > 0 {
        lemma_cols_weighted_step(omega, m, idx, w, c - 1, k);
        let a = column_sum(omega, m, idx, c - 1, k - 1);
        let o = omega[k - 1] as int;
        let r = m[idx[k - 1]][c - 1] as int;
        let x = w(c - 1);
        assert(entry(m[idx[k - 1]], c - 1) == r);
        assert(x * (a + o * r) == x * a + o * (r * x)) by (nonlinear_arith);
        assert(o * (dot_w(m[idx[k - 1]], w, c - 1) + r * x) == o * dot_w(m[idx[k - 1]], w, c - 1) + o * (r * x))
            by (nonlinear_arith);
    }
}

proof fn lemma_cols_weighted_empty(omega: Seq<i64>, m: Seq<Seq<i64>>, idx: Seq<int>, w: spec_fn(int) -> int, c: int)
    ensures
        cols_weighted(omega, m, idx, w, c, 0) == 0,
    decreases c,
{
    if c > 0 {
        lemma_cols_weighted_empty(omega, m, idx, w, c - 1);
    }
}

/// Weighting the row products and weighting the columns give the same sum.
proof fn lemma_rows_cols_weighted(
    omega: Seq<i64>,
    m: Seq<Seq<i64>>,
    idx: Seq<int>,
    w: spec_fn(int) -> int,
    c: int,
    k: int,
)
    requires
        0 <= k <= idx.len(),
        forall|t: int| 0 <= t < k ==> c <= (#[trigger] m[idx[t]]).len(),
    ensures
        rows_weighted(omega, m, idx, w, c, k) == cols_weighted(omega, m, idx, w, c, k),
    decreases k,
{
    if k == 0 {
        lemma_cols_weighted_empty(omega, m, idx, w, c);
    } else {
        lemma_rows_cols_weighted(omega, m, idx, w, c, k - 1);
        assert(c <= m[idx[k - 1]].len());
        lemma_cols_weighted_step(omega, m, idx, w, c, k);
    }
}

/// Rows each orthogonal to `w` weigh to zero.
proof fn lemma_rows_weighted_zero(
    omega: Seq<i64>,
    m: Seq<Seq<i64>>,
    idx: Seq<int>,
    w: spec_fn(int) -> int,
    c: int,
    k: int,
)
    requires
        forall|t: int| 0 <= t < k ==> dot_w(#[trigger] m[idx[t]], w, c) == 0,
    ensures
        rows_weighted(omega, m, idx, w, c, k) == 0,
    decreases k,
{
    if k > 0 {
        lemma_rows_weighted_zero(omega, m, idx, w, c, k - 1);
        assert(dot_w(m[idx[k - 1]], w, c) == 0);
    }
}

/// When the weighted columns are `(1, 0, ..., 0)` modulo `q`, weighting them
/// with `w` gives `w(0)` modulo `q`.
proof fn lemma_cols_weighted_first(
    omega: Seq<i64>,
    m: Seq<Seq<i64>>,
    idx: Seq<int>,
    w: spec_fn(int) -> int,
    q: int,
    c: int,
    k: int,
)
    requires
        q > 1,
        c >= 1,
        forall|j: int| 0 <= j < c ==> #[trigger] column_sum(omega, m, idx, j, k) % q == (if j == 0 { 1int } else { 0int }),
    ensures
        (cols_weighted(omega, m, idx, w, c, k) - w(0)) % q == 0,
    decreases c,
{
    let cs = column_sum(omega, m, idx, c - 1, k);
    let x = w(c - 1);
    vstd::arithmetic::div_mod::lemma_fundamental_div_mod(cs, q);
    assert(cs % q == (if c - 1 == 0 { 1int } else { 0int }));
    if c == 1 {
        assert(cols_weighted(omega, m, idx, w, 0, k) == 0);
        assert(cols_weighted(omega, m, idx, w, 1, k) - w(0) == q * (x * (cs / q))) by (nonlinear_arith)
            requires
                cols_weighted(omega, m, idx, w, 1, k) == 0 + x * cs,
                cs == q * (cs / q) + 1,
                x == w(0),
        ;
        vstd::arithmetic::div_mod::lemma_mod_multiples_basic(x * (cs / q), q);
        assert(q * (x * (cs / q)) == (x * (cs / q)) * q) by (nonlinear_arith);
    } else {
        lemma_cols_weighted_first(omega, m, idx, w, q, c - 1, k);
        let prev = cols_weighted(omega, m, idx, w, c - 1, k) - w(0);
        vstd::arithmetic::div_mod::lemma_fundamental_div_mod(prev, q);
        assert(cols_weighted(omega, m, idx, w, c, k) - w(0) == q * (prev / q + x * (cs / q))) by (nonlinear_arith)
            requires
                cols_weighted(omega, m, idx, w, c, k) == cols_weighted(omega, m, idx, w, c - 1, k) + x * cs,
                prev == cols_weighted(omega, m, idx, w, c - 1, k) - w(0),
                prev == q * (prev / q) + 0,
                cs == q * (cs / q) + 0,
        ;
        vstd::arithmetic::div_mod::lemma_mod_multiples_basic(prev / q + x * (cs / q), q);
        assert(q * (prev / q + x * (cs / q)) == (prev / q + x * (cs / q)) * q) by (nonlinear_arith);
    }
}

proof fn lemma_first_column_sum(omega: Seq<i64>, m: Seq<Seq<i64>>, idx: Seq<int>, k: int)
    ensures
        column_sum(omega, m, idx, 0, k) == first_column_sum(omega, m, idx, k),
    decreases k,
{
    if k > 0 {
        lemma_first_column_sum(omega, m, idx, k - 1);
    }
}

/// For a formula the attributes do not satisfy, no constants weight the rows
/// of the lowered matrix that the attributes hold to `(1, 0, ..., 0)`.
proof fn lemma_no_reconstruction_weights(s: Seq<char>, attrs: Seq<Seq<char>>, q: int, omega: Seq<i64>)
    requires
        boolean_tree_spec(s) is Some,
        !formula_holds(strip_parens(s), attrs.to_set()),
        q > 1,
    ensures
        ({
            let (rows, ats, n) = boolean_tree_spec(s)->Some_0;
            !reconstruction_ok(omega, rows, selected_rows(ats, attrs, rows.len() as int), q)
        }),
{
    let p = strip_parens(s);
    let one = seq![1i64];
    let (rs, ats, n) = msp(p, one, 1)->Some_0;
    let rows = Seq::new(rs.len(), |i: int| resized(rs[i], n));
    assert(boolean_tree_spec(s)->Some_0 == (rows, ats, n));
    lemma_msp_columns(p, one, 1);
    lemma_msp_entries(p, one, 1);
    let set = attrs.to_set();
    let w0: spec_fn(int) -> int = |j: int| if j == 0 { 1 } else { 0 };
    let w = lemma_msp_certificate(p, one, 1, set, w0);
    assert(w(0) == 1);
    let sel = selected_rows(ats, attrs, rows.len() as int);
    lemma_selected_rows(ats, attrs, rows.len() as int);
    lemma_selected_rows_held(ats, attrs, rows.len() as int);
    if reconstruction_ok(omega, rows, sel, q) {
        let k = sel.len() as int;
        assert forall|t: int| 0 <= t < k implies dot_w(#[trigger] rows[sel[t]], w, n as int) == 0 by {
            let i = sel[t];
            assert(attrs.contains(ats[i]));
            assert(set.contains(ats[i]));
            assert forall|j: int| 0 <= j < n implies #[trigger] entry(rows[i], j) * w(j) == entry(rs[i], j) * w(j) by {}
            lemma_dot_pointwise(rows[i], w, rs[i], w, n as int);
        }
        assert forall|t: int| 0 <= t < k implies n <= (#[trigger] rows[sel[t]]).len() by {}
        lemma_rows_weighted_zero(omega, rows, sel, w, n as int, k);
        lemma_rows_cols_weighted(omega, rows, sel, w, n as int, k);
        lemma_first_column_sum(omega, rows, sel, k);
        assert(rows[sel[0]].len() == n);
        assert forall|j: int| 0 <= j < n implies #[trigger] column_sum(omega, rows, sel, j, k) % q == (if j == 0 {
            1int
        } else {
            0int
        }) by {}
        lemma_cols_weighted_first(omega, rows, sel, w, q, n as int, k);
        let d = (0 - 1) / q;
        vstd::arithmetic::div_mod::lemma_fundamental_div_mod(0 - 1, q);
        assert(false) by (nonlinear_arith)
            requires
                q > 1,
                -1 == q * d,
        ;
    }
}

/// An unauthorized set never reconstructs. For the sharing matrix
/// `from_boolean_tree` builds from `s`, when the attributes `attrs` do not
/// satisfy the formula, no constants weight the rows those attributes hold to
/// `(1, 0, ..., 0)` modulo `q`: `get_reconstruction_constants` answers `None`
/// for them, and no shares of those rows give back the secret.
pub proof fn lemma_unauthorized_cannot_reconstruct(s: Seq<char>, attrs: Seq<Seq<char>>, q: int)
    requires
        boolean_tree_spec(s) is Some,
        !formula_holds(strip_parens(s), attrs.to_set()),
        q > 1,
    ensures
        ({
            let (rows, ats, n) = boolean_tree_spec(s)->Some_0;
            let sel = selected_rows(ats, attrs, rows.len() as int);
            &&& forall|omega: Seq<i64>| !#[trigger] reconstruction_ok(omega, rows, sel, q)
            &&& reconstruction_constants_spec(rows, sel, q) is None
        }),
{
    let (rows, ats, n) = boolean_tree_spec(s)->Some_0;
    let sel = selected_rows(ats, attrs, rows.len() as int);
    assert forall|omega: Seq<i64>| !#[trigger] reconstruction_ok(omega, rows, sel, q) by {
        lemma_no_reconstruction_weights(s, attrs, q, omega);
    }
}

/// `sum_{i < k, chosen(i)} entry(rows[i], col)`.
pub open spec fn chosen_sum(rows: Seq<Seq<i64>>, chosen: spec_fn(int) -> bool, col: int, k: int) -> int
    decreases k,
{
    if k <= 0 {
        0
    } else {
        chosen_sum(rows, chosen, col, k - 1) + if chosen(k - 1) {
            entry(rows[k - 1], col)
        } else {
            0
        }
    }
}

/// The choice over `r1 + r2` that is `c1` on `r1` and `c2` on `r2`.
pub open spec fn joined(c1: spec_fn(int) -> bool, c2: spec_fn(int) -> bool, n1: int) -> spec_fn(int) -> bool {
    |i: int| if i < n1 { c1(i) } else { c2(i - n1) }
}

proof fn lemma_chosen_sum_left(
    r1: Seq<Seq<i64>>,
    r2: Seq<Seq<i64>>,
    c1: spec_fn(int) -> bool,
    c2: spec_fn(int) -> bool,
    col: int,
    k: int,
)
    requires
        0 <= k <= r1.len(),
    ensures
        chosen_sum(r1 + r2, joined(c1, c2, r1.len() as int), col, k) == chosen_sum(r1, c1, col, k),
    decreases k,
{
    if k > 0 {
        lemma_chosen_sum_left(r1, r2, c1, c2, col, k - 1);
        assert((r1 + r2)[k - 1] == r1[k - 1]);
    }
}

proof fn lemma_chosen_sum_right(
    r1: Seq<Seq<i64>>,
    r2: Seq<Seq<i64>>,
    c1: spec_fn(int) -> bool,
    c2: spec_fn(int) -> bool,
    col: int,
    k: int,
)
    requires
        0 <= k <= r2.len(),
    ensures
        chosen_sum(r1 + r2, joined(c1, c2, r1.len() as int), col, r1.len() + k) == chosen_sum(r1, c1, col, r1.len() as int)
            + chosen_sum(r2, c2, col, k),
    decreases k,
{
    if k == 0 {
        lemma_chosen_sum_left(r1, r2, c1, c2, col, r1.len() as int);
    } else {
        lemma_chosen_sum_right(r1, r2, c1, c2, col, k - 1);
        assert((r1 + r2)[r1.len() + k - 1] == r2[k - 1]);
    }
}

proof fn lemma_chosen_sum_concat(r1: Seq<Seq<i64>>, r2: Seq<Seq<i64>>, c1: spec_fn(int) -> bool, c2: spec_fn(int) -> bool, col: int)
    ensures
        chosen_sum(r1 + r2, joined(c1, c2, r1.len() as int), col, (r1 + r2).len() as int) == chosen_sum(r1, c1, col, r1.len() as int)
            + chosen_sum(r2, c2, col, r2.len() as int),
{
    lemma_chosen_sum_right(r1, r2, c1, c2, col, r2.len() as int);
}

proof fn lemma_chosen_sum_none(rows: Seq<Seq<i64>>, col: int, k: int)
    ensures
        chosen_sum(rows, |i: int| false, col, k) == 0,
    decreases k,
{
    if k > 0 {
        lemma_chosen_sum_none(rows, col, k - 1);
    }
}

/// For a formula the attributes satisfy, some of the rows they hold add up
/// to the row vector the formula was lowered with.
proof fn lemma_msp_complete(p: Seq<char>, cur: Seq<i64>, nc: nat, attrs: Set<Seq<char>>) -> (chosen: spec_fn(int) -> bool)
    requires
        small_row(cur, nc),
        msp(p, cur, nc) is Some,
        formula_holds(p, attrs),
    ensures
        ({
            let (rows, ats, n) = msp(p, cur, nc)->Some_0;
            &&& forall|i: int| 0 <= i < rows.len() && #[trigger] chosen(i) ==> attrs.contains(ats[i])
            &&& forall|col: int| #[trigger] chosen_sum(rows, chosen, col, rows.len() as int) == entry(cur, col)
        }),
    decreases p.len(),
{
    let s = strip_parens(p);
    lemma_strip_parens_len(p);
    lemma_msp_columns(p, cur, nc);
    let none: spec_fn(int) -> bool = |i: int| false;
    if find_op_from(s, or_token(), 0) is Some {
        let k = find_op_from(s, or_token(), 0)->Some_0;
        lemma_find_op(s, or_token(), 0);
        lemma_trim_len(s.subrange(0, k));
        lemma_trim_len(s.subrange(k + 4, s.len() as int));
        let l = trim(s.subrange(0, k));
        let r = trim(s.subrange(k + 4, s.len() as int));
        let (r1, a1, n1) = msp(l, cur, nc)->Some_0;
        lemma_msp_columns(l, cur, nc);
        let (r2, a2, n2) = msp(r, cur, n1)->Some_0;
        lemma_msp_columns(r, cur, n1);
        let (c1, c2) = if formula_holds(l, attrs) {
            (lemma_msp_complete(l, cur, nc, attrs), none)
        } else {
            (none, lemma_msp_complete(r, cur, n1, attrs))
        };
        let c = joined(c1, c2, r1.len() as int);
        assert forall|col: int| #[trigger] chosen_sum(r1 + r2, c, col, (r1 + r2).len() as int) == entry(cur, col) by {
            lemma_chosen_sum_concat(r1, r2, c1, c2, col);
            lemma_chosen_sum_none(r1, col, r1.len() as int);
            lemma_chosen_sum_none(r2, col, r2.len() as int);
            assert(chosen_sum(r1, c1, col, r1.len() as int) + chosen_sum(r2, c2, col, r2.len() as int) == entry(cur, col));
        }
        assert forall|i: int| 0 <= i < (r1 + r2).len() && #[trigger] c(i) implies attrs.contains((a1 + a2)[i]) by {
            if i < r1.len() {
                assert((a1 + a2)[i] == a1[i]);
            } else {
                assert((a1 + a2)[i] == a2[i - r1.len()]);
            }
        }
        c
    } else if find_op_from(s, and_token(), 0) is Some {
        let k = find_op_from(s, and_token(), 0)->Some_0;
        lemma_find_op(s, and_token(), 0);
        lemma_trim_len(s.subrange(0, k));
        lemma_trim_len(s.subrange(k + 5, s.len() as int));
        let l = trim(s.subrange(0, k));
        let r = trim(s.subrange(k + 5, s.len() as int));
        let lv = resized(cur, nc + 1).update(nc as int, 1i64);
        let rv = resized(Seq::empty(), nc + 1).update(nc as int, -1i64);
        let (r1, a1, n1) = msp(l, lv, nc + 1)->Some_0;
        lemma_msp_columns(l, lv, nc + 1);
        let (r2, a2, n2) = msp(r, rv, n1)->Some_0;
        lemma_msp_columns(r, rv, n1);
        let c1 = lemma_msp_complete(l, lv, nc + 1, attrs);
        let c2 = lemma_msp_complete(r, rv, n1, attrs);
        let c = joined(c1, c2, r1.len() as int);
        assert forall|col: int| #[trigger] chosen_sum(r1 + r2, c, col, (r1 + r2).len() as int) == entry(cur, col) by {
            lemma_chosen_sum_concat(r1, r2, c1, c2, col);
            assert(chosen_sum(r1, c1, col, r1.len() as int) == entry(lv, col));
            assert(chosen_sum(r2, c2, col, r2.len() as int) == entry(rv, col));
            if col == nc {
                assert(entry(lv, col) == 1);
                assert(entry(rv, col) == -1);
            } else if 0 <= col < nc {
                assert(entry(lv, col) == entry(cur, col));
                assert(entry(rv, col) == 0);
            } else {
                assert(entry(lv, col) == 0);
                assert(entry(rv, col) == 0);
            }
        }
        assert forall|i: int| 0 <= i < (r1 + r2).len() && #[trigger] c(i) implies attrs.contains((a1 + a2)[i]) by {
            if i < r1.len() {
                assert((a1 + a2)[i] == a1[i]);
            } else {
                assert((a1 + a2)[i] == a2[i - r1.len()]);
            }
        }
        c
    } else {
        let c: spec_fn(int) -> bool = |i: int| i == 0;
        assert forall|col: int| #[trigger] chosen_sum(seq![cur], c, col, 1) == entry(cur, col) by {
            assert(chosen_sum(seq![cur], c, col, 0) == 0);
        }
        c
    }
}

/// The rows selected below `k` are the first ones selected below `big`.
proof fn lemma_selected_prefix(ats: Seq<Seq<char>>, attrs: Seq<Seq<char>>, k: int, big: int)
    requires
        0 <= k <= big,
    ensures
        selected_rows(ats, attrs, k).len() <= selected_rows(ats, attrs, big).len(),
        forall|t: int| 0 <= t < selected_rows(ats, attrs, k).len() ==> #[trigger] selected_rows(ats, attrs, big)[t]
            == selected_rows(ats, attrs, k)[t],
    decreases big - k,
{
    if k < big {
        lemma_selected_prefix(ats, attrs, k, big - 1);
    }
}

/// Weighting the selected rows by whether they are chosen sums the chosen rows.
proof fn lemma_selected_weights(
    rows: Seq<Seq<i64>>,
    ats: Seq<Seq<char>>,
    attrs: Seq<Seq<char>>,
    chosen: spec_fn(int) -> bool,
    n: int,
    col: int,
    k: int,
)
    requires
        rows.len() == ats.len(),
        0 <= k <= rows.len(),
        0 <= col < n,
        forall|i: int| 0 <= i < rows.len() ==> (#[trigger] rows[i]).len() == n,
        forall|i: int| 0 <= i < rows.len() && #[trigger] chosen(i) ==> attrs.to_set().contains(ats[i]),
    ensures
        ({
            let sel = selected_rows(ats, attrs, rows.len() as int);
            let w = Seq::new(sel.len(), |t: int| if chosen(sel[t]) { 1i64 } else { 0i64 });
            weighted_column(rows_at(rows, sel), w, col, selected_rows(ats, attrs, k).len() as int) == chosen_sum(
                rows,
                chosen,
                col,
                k,
            )
        }),
    decreases k,
{
    let sel = selected_rows(ats, attrs, rows.len() as int);
    let w = Seq::new(sel.len(), |t: int| if chosen(sel[t]) { 1i64 } else { 0i64 });
    if k > 0 {
        lemma_selected_weights(rows, ats, attrs, chosen, n, col, k - 1);
        lemma_selected_prefix(ats, attrs, k, rows.len() as int);
        let prev = selected_rows(ats, attrs, k - 1);
        let cur = selected_rows(ats, attrs, k);
        let m = rows_at(rows, sel);
        let before = weighted_column(m, w, col, prev.len() as int);
        assert(before == chosen_sum(rows, chosen, col, k - 1));
        if attrs.contains(ats[k - 1]) {
            let t = prev.len() as int;
            assert(cur == prev.push(k - 1));
            assert(cur.len() == t + 1);
            assert(cur[t] == k - 1);
            assert(sel[t] == k - 1);
            assert(m[t] == rows[k - 1]);
            assert(entry(rows[k - 1], col) == rows[k - 1][col]);
            assert(weighted_column(m, w, col, t + 1) == before + w[t] * m[t][col]);
            if chosen(k - 1) {
                assert(w[t] == 1);
                assert(w[t] * m[t][col] == rows[k - 1][col]);
            } else {
                assert(w[t] == 0);
                assert(w[t] * m[t][col] == 0);
            }
        } else {
            assert(cur == prev);
            assert(!attrs.to_set().contains(ats[k - 1]));
            assert(!chosen(k - 1));
        }
    }
}

/// Choosing for the padded rows is choosing for the rows.
proof fn lemma_chosen_sum_resized(rs: Seq<Seq<i64>>, n: nat, chosen: spec_fn(int) -> bool, col: int, k: int)
    requires
        0 <= col < n,
        0 <= k <= rs.len(),
    ensures
        chosen_sum(Seq::new(rs.len(), |i: int| resized(rs[i], n)), chosen, col, k) == chosen_sum(rs, chosen, col, k),
    decreases k,
{
    if k > 0 {
        lemma_chosen_sum_resized(rs, n, chosen, col, k - 1);
        let rows = Seq::new(rs.len(), |i: int| resized(rs[i], n));
        assert(entry(rows[k - 1], col) == entry(rs[k - 1], col));
    }
}

/// An authorized set can always reconstruct. For the sharing matrix
/// `from_boolean_tree` builds from `s`, when the attributes `attrs` satisfy
/// the formula, they hold at least one row, and weights of 0 or 1 on the rows
/// they hold sum those rows to `(1, 0, ..., 0)`: the system
/// `get_reconstruction_constants` solves has a solution modulo every `q > 1`.
pub proof fn lemma_authorized_can_reconstruct(s: Seq<char>, attrs: Seq<Seq<char>>, q: int)
    requires
        boolean_tree_spec(s) is Some,
        formula_holds(strip_parens(s), attrs.to_set()),
        q > 1,
    ensures
        ({
            let (rows, ats, n) = boolean_tree_spec(s)->Some_0;
            let sel = selected_rows(ats, attrs, rows.len() as int);
            &&& sel.len() > 0
            &&& exists|w: Seq<i64>| #[trigger] solves_system(rows_at(rows, sel), w, q) && forall|t: int|
                0 <= t < w.len() ==> 0 <= #[trigger] w[t] <= 1
        }),
{
    let p = strip_parens(s);
    let one = seq![1i64];
    let (rs, ats, n) = msp(p, one, 1)->Some_0;
    let rows = Seq::new(rs.len(), |i: int| resized(rs[i], n));
    assert(boolean_tree_spec(s)->Some_0 == (rows, ats, n));
    lemma_msp_columns(p, one, 1);
    let set = attrs.to_set();
    let chosen = lemma_msp_complete(p, one, 1, set);
    let sel = selected_rows(ats, attrs, rows.len() as int);
    let w = Seq::new(sel.len(), |t: int| if chosen(sel[t]) { 1i64 } else { 0i64 });
    lemma_selected_rows(ats, attrs, rows.len() as int);
    assert forall|col: int| 0 <= col < n implies #[trigger] weighted_column(rows_at(rows, sel), w, col, sel.len() as int)
        == entry(one, col) by {
        lemma_selected_weights(rows, ats, attrs, chosen, n as int, col, rows.len() as int);
        lemma_chosen_sum_resized(rs, n, chosen, col, rs.len() as int);
        assert(chosen_sum(rs, chosen, col, rs.len() as int) == entry(one, col));
    }
    assert(weighted_column(rows_at(rows, sel), w, 0, sel.len() as int) == 1);
    assert(sel.len() > 0);
    assert(rows_at(rows, sel)[0] == rows[sel[0]]);
    assert forall|i: int| 0 <= i < rows_at(rows, sel)[0].len() implies #[trigger] weighted_column(
        rows_at(rows, sel),
        w,
        i,
        rows_at(rows, sel).len() as int,
    ) % q == (if i == 0 { 1int } else { 0int }) by {
        assert(weighted_column(rows_at(rows, sel), w, i, sel.len() as int) == entry(one, i));
        if i == 0 {
            vstd::arithmetic::div_mod::lemma_small_mod(1, q as nat);
        } else {
            vstd::arithmetic::div_mod::lemma_small_mod(0, q as nat);
        }
    }
    assert(solves_system(rows_at(rows, sel), w, q));
    assert(forall|t: int| 0 <= t < w.len() ==> 0 <= #[trigger] w[t] <= 1);
}

} // verus!
