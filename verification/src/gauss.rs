//! Correctness of Gauss-Jordan elimination over `Z_q`: each elimination step
//! keeps the solutions of the augmented system, and the reduced system's
//! read-out is a solution exactly when one exists.
use vstd::prelude::*;
use vstd::arithmetic::div_mod::{lemma_fundamental_div_mod, lemma_mod_multiples_basic, lemma_small_mod};
use crate::lsss::{augmented_system, centred, cleared_column, inverse_mod, is_inverse_mod, normalised_pivot, pivot_search, placed_solution, reduced_row, scaled_row, swapped_rows};

verus! {

/// `sum_{j < n} row[j] * w[j]`.
pub open spec fn row_eval(row: Seq<i64>, w: Seq<i64>, n: int) -> int
    decreases n,
{
    if n <= 0 {
        0
    } else {
        row_eval(row, w, n - 1) + row[n - 1] * w[n - 1]
    }
}

/// `w` satisfies the equation `sum_j row[j] w[j] = row[nr] (mod q)`.
pub open spec fn eq_holds(row: Seq<i64>, w: Seq<i64>, nr: int, q: int) -> bool {
    (row_eval(row, w, nr) - row[nr]) % q == 0
}

/// `w` satisfies every equation of the table.
pub open spec fn solves_table(t: Seq<Seq<i64>>, w: Seq<i64>, nr: int, q: int) -> bool {
    forall|r: int| 0 <= r < t.len() ==> #[trigger] eq_holds(t[r], w, nr, q)
}

/// Every row of `t` has `nr` coefficients and a target, all in `[0, q)`.
pub open spec fn table_ok(t: Seq<Seq<i64>>, nr: int, q: int) -> bool {
    forall|r: int| 0 <= r < t.len() ==> (#[trigger] t[r]).len() == nr + 1 && forall|j: int| 0 <= j <= nr ==> 0 <= #[trigger] t[r][j] < q
}

/// `sum_{j < n} w[j] * m[j][i]`: column `i` of the rows `m` weighted by `w`.
pub open spec fn weighted_column(m: Seq<Seq<i64>>, w: Seq<i64>, i: int, n: int) -> int
    decreases n,
{
    if n <= 0 {
        0
    } else {
        weighted_column(m, w, i, n - 1) + w[n - 1] * m[n - 1][i]
    }
}

/// `w` solves `M^T w = (1, 0, ..., 0) (mod q)` for the rows `m` of `M`: one
/// weight per row, and the weighted rows sum to 1 in column 0 and to 0 in
/// every other column.
pub open spec fn solves_system(m: Seq<Seq<i64>>, w: Seq<i64>, q: int) -> bool {
    &&& w.len() == m.len()
    &&& forall|i: int| 0 <= i < m[0].len() ==> #[trigger] weighted_column(m, w, i, m.len() as int) % q == (if i == 0 {
        1int
    } else {
        0int
    })
}

/// `x` is a multiple of `q`.
pub open spec fn mult_of(x: int, q: int) -> bool {
    x % q == 0
}

proof fn lemma_mult_intro(x: int, k: int, q: int)
    requires
        q > 0,
        x == q * k,
    ensures
        x % q == 0,
{
    lemma_mod_multiples_basic(k, q);
    assert(q * k == k * q) by (nonlinear_arith);
}

proof fn lemma_mult_elim(x: int, q: int)
    requires
        q > 0,
        x % q == 0,
    ensures
        x == q * (x / q),
{
    lemma_fundamental_div_mod(x, q);
}

/// Multiples of `q` are closed under sums and under products with anything.
proof fn lemma_mult_add(x: int, y: int, q: int)
    requires
        q > 0,
        x % q == 0,
        y % q == 0,
    ensures
        (x + y) % q == 0,
        (x - y) % q == 0,
{
    lemma_mult_elim(x, q);
    lemma_mult_elim(y, q);
    assert(x + y == q * (x / q + y / q)) by (nonlinear_arith)
        requires x == q * (x / q), y == q * (y / q);
    assert(x - y == q * (x / q - y / q)) by (nonlinear_arith)
        requires x == q * (x / q), y == q * (y / q);
    lemma_mult_intro(x + y, x / q + y / q, q);
    lemma_mult_intro(x - y, x / q - y / q, q);
}

proof fn lemma_mult_mul(x: int, c: int, q: int)
    requires
        q > 0,
        x % q == 0,
    ensures
        (x * c) % q == 0,
{
    lemma_mult_elim(x, q);
    assert(x * c == q * ((x / q) * c)) by (nonlinear_arith)
        requires x == q * (x / q);
    lemma_mult_intro(x * c, (x / q) * c, q);
}

/// `x mod q` differs from `x` by a multiple of `q`.
proof fn lemma_mod_diff(x: int, q: int)
    requires
        q > 0,
    ensures
        (x % q - x) % q == 0,
{
    lemma_fundamental_div_mod(x, q);
    assert(x % q - x == q * (-(x / q))) by (nonlinear_arith)
        requires x == q * (x / q) + x % q;
    lemma_mult_intro(x % q - x, -(x / q), q);
}

/// Scaling a row by `c` modulo `q` scales its value by `c`, modulo `q`.
proof fn lemma_row_eval_scaled(row: Seq<i64>, w: Seq<i64>, c: int, q: int, n: int)
    requires
        1 < q < 0x8000_0000,
        0 <= n <= row.len(),
    ensures
        (row_eval(scaled_row(row, c, q), w, n) - c * row_eval(row, w, n)) % q == 0,
    decreases n,
{
    if n == 0 {
        lemma_small_mod(0, q as nat);
    } else {
        lemma_row_eval_scaled(row, w, c, q, n - 1);
        let x = (row[n - 1] as int) * c;
        let y = w[n - 1] as int;
        lemma_mod_diff(x, q);
        vstd::arithmetic::div_mod::lemma_mod_bound(x, q);
        assert(scaled_row(row, c, q)[n - 1] == x % q);
        lemma_mult_mul(x % q - x, y, q);
        let prev = row_eval(scaled_row(row, c, q), w, n - 1) - c * row_eval(row, w, n - 1);
        assert(row_eval(scaled_row(row, c, q), w, n) - c * row_eval(row, w, n) == prev + (x % q - x) * y) by (nonlinear_arith)
            requires
                row_eval(scaled_row(row, c, q), w, n) == row_eval(scaled_row(row, c, q), w, n - 1) + (x % q) * y,
                row_eval(row, w, n) == row_eval(row, w, n - 1) + (row[n - 1] as int) * y,
                x == (row[n - 1] as int) * c,
                prev == row_eval(scaled_row(row, c, q), w, n - 1) - c * row_eval(row, w, n - 1);
        lemma_mult_add(prev, (x % q - x) * y, q);
    }
}

/// Subtracting `f` times a pivot row modulo `q` subtracts `f` times its value, modulo `q`.
proof fn lemma_row_eval_reduced(row: Seq<i64>, piv: Seq<i64>, w: Seq<i64>, f: int, q: int, n: int)
    requires
        1 < q < 0x8000_0000,
        0 <= n <= row.len(),
        n <= piv.len(),
    ensures
        (row_eval(reduced_row(row, piv, f, q), w, n) - (row_eval(row, w, n) - f * row_eval(piv, w, n))) % q == 0,
    decreases n,
{
    if n == 0 {
        lemma_small_mod(0, q as nat);
    } else {
        lemma_row_eval_reduced(row, piv, w, f, q, n - 1);
        let x = (row[n - 1] as int) - f * piv[n - 1];
        let y = w[n - 1] as int;
        lemma_mod_diff(x, q);
        vstd::arithmetic::div_mod::lemma_mod_bound(x, q);
        assert(reduced_row(row, piv, f, q)[n - 1] == x % q);
        lemma_mult_mul(x % q - x, y, q);
        let prev = row_eval(reduced_row(row, piv, f, q), w, n - 1) - (row_eval(row, w, n - 1) - f * row_eval(piv, w, n - 1));
        assert(row_eval(reduced_row(row, piv, f, q), w, n) - (row_eval(row, w, n) - f * row_eval(piv, w, n)) == prev + (x
            % q - x) * y) by (nonlinear_arith)
            requires
                row_eval(reduced_row(row, piv, f, q), w, n) == row_eval(reduced_row(row, piv, f, q), w, n - 1) + (x % q) * y,
                row_eval(row, w, n) == row_eval(row, w, n - 1) + (row[n - 1] as int) * y,
                row_eval(piv, w, n) == row_eval(piv, w, n - 1) + (piv[n - 1] as int) * y,
                x == (row[n - 1] as int) - f * piv[n - 1],
                prev == row_eval(reduced_row(row, piv, f, q), w, n - 1) - (row_eval(row, w, n - 1) - f * row_eval(piv, w, n - 1));
        lemma_mult_add(prev, (x % q - x) * y, q);
    }
}

/// Exchanging two rows keeps the solutions.
pub proof fn lemma_swap_solutions(t: Seq<Seq<i64>>, a: int, b: int, w: Seq<i64>, nr: int, q: int)
    requires
        0 <= a < t.len(),
        0 <= b < t.len(),
    ensures
        solves_table(swapped_rows(t, a, b), w, nr, q) <==> solves_table(t, w, nr, q),
{
    let s = swapped_rows(t, a, b);
    if solves_table(t, w, nr, q) {
        assert forall|r: int| 0 <= r < s.len() implies #[trigger] eq_holds(s[r], w, nr, q) by {
            if a != b && r == a {
                assert(eq_holds(t[b], w, nr, q));
            } else if a != b && r == b {
                assert(eq_holds(t[a], w, nr, q));
            } else {
                assert(eq_holds(t[r], w, nr, q));
            }
        }
    }
    if solves_table(s, w, nr, q) {
        assert forall|r: int| 0 <= r < t.len() implies #[trigger] eq_holds(t[r], w, nr, q) by {
            if a != b && r == a {
                assert(eq_holds(s[b], w, nr, q));
            } else if a != b && r == b {
                assert(eq_holds(s[a], w, nr, q));
            } else {
                assert(eq_holds(s[r], w, nr, q));
            }
        }
    }
}

/// Scaling one equation by an invertible `c` keeps the solutions.
pub proof fn lemma_scale_solutions(t: Seq<Seq<i64>>, pr: int, c: int, a: int, w: Seq<i64>, nr: int, q: int)
    requires
        1 < q < 0x8000_0000,
        0 <= pr < t.len(),
        nr >= 0,
        t[pr].len() == nr + 1,
        (a * c) % q == 1,
    ensures
        solves_table(t.update(pr, scaled_row(t[pr], c, q)), w, nr, q) <==> solves_table(t, w, nr, q),
{
    let s = t.update(pr, scaled_row(t[pr], c, q));
    let row = t[pr];
    let e = row_eval(row, w, nr) - row[nr];
    let e2 = row_eval(scaled_row(row, c, q), w, nr) - scaled_row(row, c, q)[nr];
    lemma_row_eval_scaled(row, w, c, q, nr);
    lemma_mod_diff((row[nr] as int) * c, q);
    vstd::arithmetic::div_mod::lemma_mod_bound((row[nr] as int) * c, q);
    assert(scaled_row(row, c, q)[nr] == ((row[nr] as int) * c) % q);
    // e2 - c * e is a multiple of q
    let d1 = row_eval(scaled_row(row, c, q), w, nr) - c * row_eval(row, w, nr);
    let d2 = ((row[nr] as int) * c) % q - (row[nr] as int) * c;
    assert(e2 - c * e == d1 - d2) by (nonlinear_arith)
        requires
            e2 == row_eval(scaled_row(row, c, q), w, nr) - ((row[nr] as int) * c) % q,
            e == row_eval(row, w, nr) - row[nr],
            d1 == row_eval(scaled_row(row, c, q), w, nr) - c * row_eval(row, w, nr),
            d2 == ((row[nr] as int) * c) % q - (row[nr] as int) * c;
    lemma_mult_add(d1, d2, q);
    if eq_holds(row, w, nr, q) {
        lemma_mult_mul(e, c, q);
        assert(c * e == e * c) by (nonlinear_arith);
        lemma_mult_add(e2 - c * e, c * e, q);
        assert(eq_holds(s[pr], w, nr, q));
    }
    if eq_holds(s[pr], w, nr, q) {
        assert(s[pr] == scaled_row(row, c, q));
        lemma_mult_add(e2, e2 - c * e, q);
        assert(e2 - (e2 - c * e) == c * e);
        lemma_mult_mul(c * e, a, q);
        // e - a*c*e = e * (1 - a*c) is a multiple of q
        lemma_fundamental_div_mod(a * c, q);
        assert(1 - a * c == q * (-((a * c) / q))) by (nonlinear_arith)
            requires a * c == q * ((a * c) / q) + 1;
        lemma_mult_intro(1 - a * c, -((a * c) / q), q);
        lemma_mult_mul(1 - a * c, e, q);
        assert((1 - a * c) * e + (c * e) * a == e) by (nonlinear_arith);
        lemma_mult_add((1 - a * c) * e, (c * e) * a, q);
    }
    if solves_table(t, w, nr, q) {
        assert(eq_holds(t[pr], w, nr, q));
        assert forall|r: int| 0 <= r < s.len() implies #[trigger] eq_holds(s[r], w, nr, q) by {
            if r != pr {
                assert(eq_holds(t[r], w, nr, q));
            }
        }
    }
    if solves_table(s, w, nr, q) {
        assert(eq_holds(s[pr], w, nr, q));
        assert forall|r: int| 0 <= r < t.len() implies #[trigger] eq_holds(t[r], w, nr, q) by {
            if r != pr {
                assert(eq_holds(s[r], w, nr, q));
            }
        }
    }
}

/// Clearing a column with the pivot row keeps the solutions.
pub proof fn lemma_clear_solutions(t: Seq<Seq<i64>>, pr: int, col: int, w: Seq<i64>, nr: int, q: int)
    requires
        1 < q < 0x8000_0000,
        0 <= pr < t.len(),
        nr >= 0,
        table_ok(t, nr, q),
    ensures
        solves_table(cleared_column(t, pr, col, q), w, nr, q) <==> solves_table(t, w, nr, q),
{
    let s = cleared_column(t, pr, col, q);
    let p = t[pr];
    let ep = row_eval(p, w, nr) - p[nr];
    assert(s[pr] == p);
    assert forall|r: int| 0 <= r < t.len() && r != pr && t[r][col] != 0 implies ({
        let f = t[r][col] as int;
        let e = row_eval(t[r], w, nr) - t[r][nr];
        let e2 = row_eval(s[r], w, nr) - s[r][nr];
        (e2 - (e - f * ep)) % q == 0
    }) by {
        let f = t[r][col] as int;
        let row = t[r];
        lemma_row_eval_reduced(row, p, w, f, q, nr);
        let x = (row[nr] as int) - f * p[nr];
        lemma_mod_diff(x, q);
        vstd::arithmetic::div_mod::lemma_mod_bound(x, q);
        assert(s[r] == reduced_row(row, p, f, q));
        assert(s[r][nr] == x % q);
        let d1 = row_eval(s[r], w, nr) - (row_eval(row, w, nr) - f * row_eval(p, w, nr));
        let d2 = x % q - x;
        assert((row_eval(s[r], w, nr) - s[r][nr]) - ((row_eval(row, w, nr) - row[nr]) - f * ep) == d1 - d2) by (nonlinear_arith)
            requires
                d1 == row_eval(s[r], w, nr) - (row_eval(row, w, nr) - f * row_eval(p, w, nr)),
                d2 == x % q - x,
                s[r][nr] == x % q,
                x == (row[nr] as int) - f * p[nr],
                ep == row_eval(p, w, nr) - p[nr];
        lemma_mult_add(d1, d2, q);
    }
    if solves_table(t, w, nr, q) {
        assert(eq_holds(p, w, nr, q));
        lemma_mult_mul(ep, -1, q);
        assert forall|r: int| 0 <= r < s.len() implies #[trigger] eq_holds(s[r], w, nr, q) by {
            assert(eq_holds(t[r], w, nr, q));
            if r != pr && t[r][col] != 0 {
                let f = t[r][col] as int;
                let e = row_eval(t[r], w, nr) - t[r][nr];
                let e2 = row_eval(s[r], w, nr) - s[r][nr];
                lemma_mult_mul(ep, f, q);
                assert(ep * f == f * ep) by (nonlinear_arith);
                lemma_mult_add(e, f * ep, q);
                lemma_mult_add(e2 - (e - f * ep), e - f * ep, q);
            }
        }
    }
    if solves_table(s, w, nr, q) {
        assert(eq_holds(s[pr], w, nr, q));
        assert forall|r: int| 0 <= r < t.len() implies #[trigger] eq_holds(t[r], w, nr, q) by {
            assert(eq_holds(s[r], w, nr, q));
            if r != pr && t[r][col] != 0 {
                let f = t[r][col] as int;
                let e = row_eval(t[r], w, nr) - t[r][nr];
                let e2 = row_eval(s[r], w, nr) - s[r][nr];
                lemma_mult_mul(ep, f, q);
                assert(ep * f == f * ep) by (nonlinear_arith);
                lemma_mult_add(e2, e2 - (e - f * ep), q);
                assert(e2 - (e2 - (e - f * ep)) == e - f * ep);
                lemma_mult_add(e - f * ep, f * ep, q);
                assert((e - f * ep) + f * ep == e);
            }
        }
    }
}

/// Reduced row-echelon shape after the first `c` columns, with the pivot
/// columns `piv` in rows `0 .. piv.len()`: each pivot entry is 1, every other
/// row is 0 in a pivot column, and the rows below the pivots are 0 in every
/// column processed so far.
pub open spec fn reduced_form(t: Seq<Seq<i64>>, piv: Seq<int>, c: int) -> bool {
    &&& piv.len() <= t.len()
    &&& forall|k: int| 0 <= k < piv.len() ==> 0 <= #[trigger] piv[k] < c
    &&& forall|k1: int, k2: int| 0 <= k1 < k2 < piv.len() ==> #[trigger] piv[k1] < #[trigger] piv[k2]
    &&& forall|k: int| 0 <= k < piv.len() ==> #[trigger] t[k][piv[k]] == 1
    &&& forall|k: int, r: int| 0 <= k < piv.len() && 0 <= r < t.len() && r != k ==> #[trigger] t[r][piv[k]] == 0
    &&& forall|r: int, j: int| piv.len() <= r < t.len() && 0 <= j < c ==> #[trigger] t[r][j] == 0
}

/// What `pivot_search` finds.
pub proof fn lemma_pivot_search(t: Seq<Seq<i64>>, col: int, from: int)
    requires
        0 <= from,
    ensures
        pivot_search(t, col, from) matches Some(p) ==> from <= p < t.len() && t[p][col] != 0,
        pivot_search(t, col, from) is None ==> forall|r: int| from <= r < t.len() ==> #[trigger] t[r][col] == 0,
    decreases t.len() - from,
{
    if from < t.len() && t[from][col] == 0 {
        lemma_pivot_search(t, col, from + 1);
    }
}

/// A column without a pivot below the pivot rows extends the reduced shape.
pub proof fn lemma_form_no_pivot(t: Seq<Seq<i64>>, piv: Seq<int>, c: int)
    requires
        reduced_form(t, piv, c),
        pivot_search(t, c, piv.len() as int) is None,
    ensures
        reduced_form(t, piv, c + 1),
{
    lemma_pivot_search(t, c, piv.len() as int);
    assert forall|r: int, j: int| piv.len() <= r < t.len() && 0 <= j < c + 1 implies #[trigger] t[r][j] == 0 by {
        if j < c {
            assert(t[r][j] == 0);
        }
    }
}

/// A pivot step keeps the entry bounds and extends the reduced shape by column `c`.
pub proof fn lemma_form_pivot(t: Seq<Seq<i64>>, piv: Seq<int>, c: int, p: int, nr: int, q: int)
    requires
        1 < q < 0x8000_0000,
        0 <= c < nr,
        table_ok(t, nr, q),
        reduced_form(t, piv, c),
        pivot_search(t, c, piv.len() as int) == Some(p),
        is_inverse_mod(
            inverse_mod(swapped_rows(t, piv.len() as int, p)[piv.len() as int][c] as int, q),
            swapped_rows(t, piv.len() as int, p)[piv.len() as int][c] as int,
            q,
        ),
    ensures
        table_ok(cleared_column(normalised_pivot(t, piv.len() as int, p, c, q), piv.len() as int, c, q), nr, q),
        reduced_form(cleared_column(normalised_pivot(t, piv.len() as int, p, c, q), piv.len() as int, c, q), piv.push(c), c + 1),
{
    let pr = piv.len() as int;
    lemma_pivot_search(t, c, pr);
    let s = swapped_rows(t, pr, p);
    let a = s[pr][c] as int;
    let inv = inverse_mod(a, q);
    let n1 = normalised_pivot(t, pr, p, c, q);
    let t2 = cleared_column(n1, pr, c, q);
    let piv2 = piv.push(c);
    assert(n1 == s.update(pr, scaled_row(s[pr], inv, q)));
    // swapped table
    assert(table_ok(s, nr, q)) by {
        assert forall|r: int| 0 <= r < s.len() implies (#[trigger] s[r]).len() == nr + 1 && forall|j: int| 0 <= j <= nr
            ==> 0 <= #[trigger] s[r][j] < q by {
            if r == pr { assert(s[r] == t[p]); } else if r == p { assert(s[r] == t[pr]); } else { assert(s[r] == t[r]); }
        }
    }
    assert forall|r: int, j: int| pr <= r < s.len() && 0 <= j < c implies #[trigger] s[r][j] == 0 by {
        if r == pr { assert(s[r] == t[p]); } else if r == p { assert(s[r] == t[pr]); } else { assert(s[r] == t[r]); }
    }
    assert forall|k: int, r: int| 0 <= k < pr && 0 <= r < s.len() && r != k implies #[trigger] s[r][piv[k]] == 0 by {
        if r == pr { assert(s[r] == t[p]); } else if r == p { assert(s[r] == t[pr]); } else { assert(s[r] == t[r]); }
    }
    assert forall|k: int| 0 <= k < pr implies #[trigger] s[k] == t[k] by {}
    // the normalised pivot row
    let prow = scaled_row(s[pr], inv, q);
    assert(prow.len() == nr + 1);
    assert forall|j: int| 0 <= j <= nr implies 0 <= #[trigger] prow[j] < q by {
        vstd::arithmetic::div_mod::lemma_mod_bound((s[pr][j] as int) * inv, q);
    }
    assert forall|j: int| 0 <= j < c implies #[trigger] prow[j] == 0 by {
        assert(s[pr][j] == 0);
        lemma_small_mod(0, q as nat);
    }
    assert(prow[c] == 1) by {
        assert((inv * a) % q == 1);
        assert((a * inv) == (inv * a)) by (nonlinear_arith);
    }
    assert forall|k: int| 0 <= k < pr implies #[trigger] prow[piv[k]] == 0 by {
        assert(s[pr][piv[k]] == 0);
        assert(prow[piv[k]] == ((s[pr][piv[k]] as int) * inv) % q);
        lemma_small_mod(0, q as nat);
    }
    assert(table_ok(n1, nr, q)) by {
        assert forall|r: int| 0 <= r < n1.len() implies (#[trigger] n1[r]).len() == nr + 1 && forall|j: int| 0 <= j <= nr
            ==> 0 <= #[trigger] n1[r][j] < q by {
            if r != pr { assert(n1[r] == s[r]); }
        }
    }
    // clearing column c
    assert(t2[pr] == prow);
    assert forall|r: int| 0 <= r < t2.len() && r != pr && n1[r][c] != 0 implies #[trigger] t2[r] == reduced_row(
        n1[r],
        prow,
        n1[r][c] as int,
        q,
    ) by {}
    assert forall|r: int| 0 <= r < t2.len() && !(r != pr && n1[r][c] != 0) implies #[trigger] t2[r] == n1[r] by {}
    // entries of a cleared row
    assert forall|r: int, j: int| 0 <= r < t2.len() && r != pr && n1[r][c] != 0 && 0 <= j <= nr implies #[trigger] t2[r][j]
        == ((n1[r][j] as int) - (n1[r][c] as int) * prow[j]) % q by {}
    assert(table_ok(t2, nr, q)) by {
        assert forall|r: int| 0 <= r < t2.len() implies (#[trigger] t2[r]).len() == nr + 1 && forall|j: int| 0 <= j <= nr
            ==> 0 <= #[trigger] t2[r][j] < q by {
            if r != pr && n1[r][c] != 0 {
                assert forall|j: int| 0 <= j <= nr implies 0 <= #[trigger] t2[r][j] < q by {
                    vstd::arithmetic::div_mod::lemma_mod_bound((n1[r][j] as int) - (n1[r][c] as int) * prow[j], q);
                }
            }
        }
    }
    // pivot entries and zeros of the old pivot columns survive
    assert forall|k: int, r: int| 0 <= k < pr && 0 <= r < t2.len() implies #[trigger] t2[r][piv[k]] == n1[r][piv[k]] by {
        if r != pr && n1[r][c] != 0 {
            let x = n1[r][piv[k]] as int;
            assert(prow[piv[k]] == 0);
            assert(t2[r][piv[k]] == (x - (n1[r][c] as int) * 0) % q);
            assert(0 <= x < q);
            lemma_small_mod(x as nat, q as nat);
        }
    }
    // column c is cleared
    assert forall|r: int| 0 <= r < t2.len() && r != pr implies #[trigger] t2[r][c] == 0 by {
        if n1[r][c] != 0 {
            let f = n1[r][c] as int;
            assert(t2[r][c] == (f - f * 1) % q);
            lemma_small_mod(0, q as nat);
        }
    }
    // rows below the new pivot row are zero in columns < c
    assert forall|r: int, j: int| pr + 1 <= r < t2.len() && 0 <= j < c implies #[trigger] t2[r][j] == 0 by {
        assert(n1[r] == s[r]);
        assert(s[r][j] == 0);
        if n1[r][c] != 0 {
            assert(prow[j] == 0);
            assert(t2[r][j] == (0 - (n1[r][c] as int) * 0) % q);
            lemma_small_mod(0, q as nat);
        }
    }
    // the new shape
    assert forall|k: int| 0 <= k < piv2.len() implies #[trigger] t2[k][piv2[k]] == 1 by {
        if k < pr {
            assert(piv2[k] == piv[k]);
            assert(t2[k][piv[k]] == n1[k][piv[k]]);
            assert(n1[k] == s[k]);
            assert(s[k] == t[k]);
        } else {
            assert(piv2[k] == c);
        }
    }
    assert forall|k: int, r: int| 0 <= k < piv2.len() && 0 <= r < t2.len() && r != k implies #[trigger] t2[r][piv2[k]] == 0 by {
        if k < pr {
            assert(piv2[k] == piv[k]);
            assert(t2[r][piv[k]] == n1[r][piv[k]]);
            if r == pr {
                assert(n1[r] == prow);
            } else {
                assert(n1[r] == s[r]);
            }
        } else {
            assert(piv2[k] == c);
        }
    }
    assert forall|r: int, j: int| piv2.len() <= r < t2.len() && 0 <= j < c + 1 implies #[trigger] t2[r][j] == 0 by {
        if j < c {
            assert(t2[r][j] == 0);
        } else {
            assert(t2[r][c] == 0);
        }
    }
    assert forall|k1: int, k2: int| 0 <= k1 < k2 < piv2.len() implies #[trigger] piv2[k1] < #[trigger] piv2[k2] by {
        if k2 < pr {
            assert(piv[k1] < piv[k2]);
        } else {
            assert(piv2[k1] == piv[k1]);
        }
    }
    assert forall|k: int| 0 <= k < piv2.len() implies 0 <= #[trigger] piv2[k] < c + 1 by {
        if k < pr {
            assert(piv2[k] == piv[k]);
        }
    }
}

/// `sum_{k < upto} row[piv[k]] * centred(t[k][nr])`.
pub open spec fn pivot_sum(row: Seq<i64>, t: Seq<Seq<i64>>, piv: Seq<int>, nr: int, q: int, upto: int) -> int
    decreases upto,
{
    if upto <= 0 {
        0
    } else {
        pivot_sum(row, t, piv, nr, q, upto - 1) + row[piv[upto - 1]] * centred(t[upto - 1][nr], q)
    }
}

/// Changing entry `i` of `w` changes a row's value by `row[i]` times the change.
proof fn lemma_row_eval_update(row: Seq<i64>, w: Seq<i64>, i: int, v: i64, n: int)
    requires
        0 <= i < w.len(),
        0 <= n <= w.len(),
    ensures
        row_eval(row, w.update(i, v), n) == row_eval(row, w, n) + (if i < n { row[i] * (v - w[i]) } else { 0 }),
    decreases n,
{
    if n > 0 {
        lemma_row_eval_update(row, w, i, v, n - 1);
        if i == n - 1 {
            assert(row[i] * v == row[i] * w[i] + row[i] * (v - w[i])) by (nonlinear_arith);
        }
    }
}

/// The read-out has one entry per unknown, zero off the first `upto` pivot columns.
proof fn lemma_placed_shape(t: Seq<Seq<i64>>, piv: Seq<int>, nr: int, q: int, upto: int)
    requires
        0 <= upto <= piv.len(),
        nr >= 0,
        forall|k: int| 0 <= k < piv.len() ==> 0 <= #[trigger] piv[k] < nr,
    ensures
        placed_solution(t, piv, nr, q, upto).len() == nr,
        forall|j: int| 0 <= j < nr && (forall|k: int| 0 <= k < upto ==> #[trigger] piv[k] != j) ==> #[trigger] placed_solution(
            t,
            piv,
            nr,
            q,
            upto,
        )[j] == 0,
    decreases upto,
{
    if upto > 0 {
        lemma_placed_shape(t, piv, nr, q, upto - 1);
        assert forall|j: int| 0 <= j < nr && (forall|k: int| 0 <= k < upto ==> #[trigger] piv[k] != j) implies #[trigger] placed_solution(
            t,
            piv,
            nr,
            q,
            upto,
        )[j] == 0 by {
            assert(piv[upto - 1] != j);
            assert(forall|k: int| 0 <= k < upto - 1 ==> #[trigger] piv[k] != j);
        }
    }
}

/// A row's value at the read-out is its pivot sum.
proof fn lemma_row_eval_placed(row: Seq<i64>, t: Seq<Seq<i64>>, piv: Seq<int>, nr: int, q: int, upto: int)
    requires
        0 <= upto <= piv.len(),
        nr >= 0,
        forall|k: int| 0 <= k < piv.len() ==> 0 <= #[trigger] piv[k] < nr,
        forall|k1: int, k2: int| 0 <= k1 < k2 < piv.len() ==> #[trigger] piv[k1] < #[trigger] piv[k2],
    ensures
        row_eval(row, placed_solution(t, piv, nr, q, upto), nr) == pivot_sum(row, t, piv, nr, q, upto),
    decreases upto,
{
    if upto == 0 {
        lemma_row_eval_zero(row, nr);
    } else {
        lemma_row_eval_placed(row, t, piv, nr, q, upto - 1);
        lemma_placed_shape(t, piv, nr, q, upto - 1);
        let prev = placed_solution(t, piv, nr, q, upto - 1);
        let i = piv[upto - 1];
        assert forall|k: int| 0 <= k < upto - 1 implies #[trigger] piv[k] != i by {
            assert(piv[k] < piv[upto - 1]);
        }
        assert(prev[i] == 0);
        lemma_row_eval_update(row, prev, i, centred(t[upto - 1][nr], q), nr);
    }
}

proof fn lemma_row_eval_zero(row: Seq<i64>, n: int)
    requires
        n >= 0,
    ensures
        row_eval(row, Seq::new(n as nat, |i: int| 0i64), n) == 0,
{
    let z = Seq::new(n as nat, |i: int| 0i64);
    lemma_row_eval_zero_upto(row, z, n);
}

proof fn lemma_row_eval_zero_upto(row: Seq<i64>, z: Seq<i64>, n: int)
    requires
        0 <= n <= z.len(),
        forall|i: int| 0 <= i < z.len() ==> #[trigger] z[i] == 0,
    ensures
        row_eval(row, z, n) == 0,
    decreases n,
{
    if n > 0 {
        lemma_row_eval_zero_upto(row, z, n - 1);
        assert(row[n - 1] * z[n - 1] == 0) by (nonlinear_arith)
            requires z[n - 1] == 0;
    }
}

/// A pivot sum over a row that is 0 in every pivot column but possibly one.
proof fn lemma_pivot_sum_single(row: Seq<i64>, t: Seq<Seq<i64>>, piv: Seq<int>, nr: int, q: int, upto: int, k0: int)
    requires
        0 <= upto <= piv.len(),
        forall|k: int| 0 <= k < upto && k != k0 ==> #[trigger] row[piv[k]] == 0,
        0 <= k0 < upto ==> row[piv[k0]] == 1,
    ensures
        pivot_sum(row, t, piv, nr, q, upto) == (if 0 <= k0 < upto { centred(t[k0][nr], q) as int } else { 0 }),
    decreases upto,
{
    if upto > 0 {
        lemma_pivot_sum_single(row, t, piv, nr, q, upto - 1, k0);
        if upto - 1 != k0 {
            assert(row[piv[upto - 1]] == 0);
        }
    }
}

/// When every row below the pivots has target 0, the read-out of a reduced
/// table solves it.
pub proof fn lemma_readout_solves(t: Seq<Seq<i64>>, piv: Seq<int>, nr: int, q: int)
    requires
        1 < q < 0x8000_0000,
        nr >= 0,
        table_ok(t, nr, q),
        reduced_form(t, piv, nr),
        forall|r: int| piv.len() <= r < t.len() ==> #[trigger] t[r][nr] == 0,
    ensures
        solves_table(t, placed_solution(t, piv, nr, q, piv.len() as int), nr, q),
{
    let pr = piv.len() as int;
    let w = placed_solution(t, piv, nr, q, pr);
    assert forall|r: int| 0 <= r < t.len() implies #[trigger] eq_holds(t[r], w, nr, q) by {
        lemma_row_eval_placed(t[r], t, piv, nr, q, pr);
        if r < pr {
            assert forall|k: int| 0 <= k < pr && k != r implies #[trigger] t[r][piv[k]] == 0 by {}
            lemma_pivot_sum_single(t[r], t, piv, nr, q, pr, r);
            let v = t[r][nr];
            assert(0 <= v < q);
            if v <= q / 2 {
                lemma_small_mod(0, q as nat);
            } else {
                assert(centred(v, q) - v == -q);
                vstd::arithmetic::div_mod::lemma_mod_self_0(q);
                lemma_mult_intro(-q, -1, q);
            }
        } else {
            assert forall|k: int| 0 <= k < pr && k != -1 implies #[trigger] t[r][piv[k]] == 0 by {}
            lemma_pivot_sum_single(t[r], t, piv, nr, q, pr, -1);
            lemma_small_mod(0, q as nat);
        }
    }
}

/// A row that is 0 in every coefficient but has a nonzero target in `(0, q)`
/// has no solution.
pub proof fn lemma_inconsistent_row(row: Seq<i64>, w: Seq<i64>, nr: int, q: int)
    requires
        1 < q,
        nr >= 0,
        row.len() == nr + 1,
        forall|j: int| 0 <= j < nr ==> #[trigger] row[j] == 0,
        0 < row[nr] < q,
    ensures
        !eq_holds(row, w, nr, q),
{
    lemma_row_eval_zero_coeffs(row, w, nr);
    assert(row_eval(row, w, nr) - row[nr] == -(row[nr] as int));
    vstd::arithmetic::div_mod::lemma_mod_bound(-(row[nr] as int), q);
    lemma_fundamental_div_mod(-(row[nr] as int), q);
    if (-(row[nr] as int)) % q == 0 {
        assert(-(row[nr] as int) == q * ((-(row[nr] as int)) / q));
        assert(false) by (nonlinear_arith)
            requires -(row[nr] as int) == q * ((-(row[nr] as int)) / q), 0 < row[nr] < q;
    }
}

proof fn lemma_row_eval_zero_coeffs(row: Seq<i64>, w: Seq<i64>, n: int)
    requires
        n >= 0,
        forall|j: int| 0 <= j < n ==> #[trigger] row[j] == 0,
    ensures
        row_eval(row, w, n) == 0,
    decreases n,
{
    if n > 0 {
        lemma_row_eval_zero_coeffs(row, w, n - 1);
        assert(row[n - 1] * w[n - 1] == 0) by (nonlinear_arith)
            requires row[n - 1] == 0;
    }
}

/// A row of the augmented system has, modulo `q`, the weighted column's value.
proof fn lemma_augmented_row_eval(m: Seq<Seq<i64>>, w: Seq<i64>, i: int, q: int, n: int)
    requires
        1 < q < 0x8000_0000,
        m.len() >= 1,
        0 <= i < m[0].len(),
        0 <= n <= m.len(),
    ensures
        (row_eval(augmented_system(m, q)[i], w, n) - weighted_column(m, w, i, n)) % q == 0,
    decreases n,
{
    if n == 0 {
        lemma_small_mod(0, q as nat);
    } else {
        lemma_augmented_row_eval(m, w, i, q, n - 1);
        let row = augmented_system(m, q)[i];
        let x = m[n - 1][i] as int;
        let y = w[n - 1] as int;
        vstd::arithmetic::div_mod::lemma_mod_bound(x, q);
        assert(row[n - 1] == x % q);
        lemma_mod_diff(x, q);
        lemma_mult_mul(x % q - x, y, q);
        let prev = row_eval(row, w, n - 1) - weighted_column(m, w, i, n - 1);
        assert(row_eval(row, w, n) - weighted_column(m, w, i, n) == prev + (x % q - x) * y) by (nonlinear_arith)
            requires
                row_eval(row, w, n) == row_eval(row, w, n - 1) + (x % q) * y,
                weighted_column(m, w, i, n) == weighted_column(m, w, i, n - 1) + y * x,
                prev == row_eval(row, w, n - 1) - weighted_column(m, w, i, n - 1);
        lemma_mult_add(prev, (x % q - x) * y, q);
    }
}

/// `a` and `b` differ by a multiple of `q` exactly when `a mod q` is `b`, for `b` in `[0, q)`.
proof fn lemma_cong_residue(a: int, b: int, q: int)
    requires
        q > 0,
        0 <= b < q,
    ensures
        (a - b) % q == 0 <==> a % q == b,
{
    lemma_fundamental_div_mod(a, q);
    vstd::arithmetic::div_mod::lemma_mod_bound(a, q);
    if (a - b) % q == 0 {
        lemma_mult_elim(a - b, q);
        vstd::arithmetic::div_mod::lemma_mod_multiples_vanish((a - b) / q, b, q);
        lemma_small_mod(b as nat, q as nat);
        assert(a == q * ((a - b) / q) + b);
    }
    if a % q == b {
        assert(a - b == q * (a / q));
        lemma_mult_intro(a - b, a / q, q);
    }
}

/// The solutions of the augmented system are those of `M^T w = e_1`.
pub proof fn lemma_augmented_solutions(m: Seq<Seq<i64>>, w: Seq<i64>, q: int)
    requires
        1 < q < 0x8000_0000,
        m.len() >= 1,
        w.len() == m.len(),
    ensures
        solves_table(augmented_system(m, q), w, m.len() as int, q) <==> solves_system(m, w, q),
{
    let nr = m.len() as int;
    let t = augmented_system(m, q);
    assert forall|i: int| 0 <= i < m[0].len() implies (#[trigger] eq_holds(t[i], w, nr, q) <==> weighted_column(
        m,
        w,
        i,
        nr,
    ) % q == (if i == 0 { 1int } else { 0int })) by {
        lemma_augmented_row_eval(m, w, i, q, nr);
        let target: int = if i == 0 { 1int } else { 0int };
        assert(t[i][nr] == target);
        let ev = row_eval(t[i], w, nr);
        let wc = weighted_column(m, w, i, nr);
        lemma_cong_residue(wc, target, q);
        if eq_holds(t[i], w, nr, q) {
            lemma_mult_add(ev - target, ev - wc, q);
            assert((ev - target) - (ev - wc) == wc - target);
        }
        if wc % q == target {
            lemma_mult_add(ev - wc, wc - target, q);
            assert((ev - wc) + (wc - target) == ev - target);
        }
    }
    if solves_table(t, w, nr, q) {
        assert forall|i: int| 0 <= i < m[0].len() implies #[trigger] weighted_column(m, w, i, m.len() as int) % q == (if i
            == 0 { 1int } else { 0int }) by {
            assert(eq_holds(t[i], w, nr, q));
        }
    }
    if solves_system(m, w, q) {
        assert forall|i: int| 0 <= i < t.len() implies #[trigger] eq_holds(t[i], w, nr, q) by {
            assert(weighted_column(m, w, i, m.len() as int) % q == (if i == 0 { 1int } else { 0int }));
        }
    }
}

} // verus!
