//! Integer facts shared by the modular arithmetic of the ring code.
use vstd::prelude::*;
use vstd::arithmetic::div_mod::*;

verus! {

/// Rust's truncating remainder for a positive divisor, as an integer function.
pub open spec fn trem(c: int, q: int) -> int {
    if c >= 0 { c % q } else { -((-c) % q) }
}

/// Reduction to the representative in `[0, q)`.
pub open spec fn modq(c: int, q: int) -> int {
    c % q
}

/// Centered representative in `(-q/2, q/2]`.
pub open spec fn center(c: int, q: int) -> int {
    let r = c % q;
    if r > q / 2 { r - q } else { r }
}

pub proof fn lemma_trem(c: int, q: int)
    requires
        q > 0,
    ensures
        -q < trem(c, q) < q,
        trem(c, q) % q == c % q,
        c >= 0 ==> trem(c, q) >= 0,
        c < 0 ==> trem(c, q) <= 0,
        -q < c < q ==> trem(c, q) == c,
        (trem(c, q) + q) % q == c % q,
        0 <= c % q < q,
{
    lemma_mod_bound(c, q);
    if c >= 0 {
        lemma_mod_twice(c, q);
        lemma_mod_add_multiples_vanish(c % q, q);
        if c < q {
            lemma_small_mod(c as nat, q as nat);
        }
    } else {
        let r = (-c) % q;
        let k = (-c) / q;
        lemma_fundamental_div_mod(-c, q);
        lemma_mod_bound(-c, q);
        assert(c == q * (-k) + (-r)) by (nonlinear_arith)
            requires -c == q * k + r;
        lemma_mod_multiples_vanish(-k, -r, q);
        lemma_mod_add_multiples_vanish(-r, q);
        if -c < q {
            lemma_small_mod((-c) as nat, q as nat);
        }
    }
}

/// Congruence is preserved by addition.
pub proof fn lemma_add_mod(a: int, b: int, q: int)
    requires
        q > 0,
    ensures
        (a + b) % q == ((a % q) + (b % q)) % q,
        (a + b) % q == ((a % q) + b) % q,
{
    lemma_add_mod_noop(a, b, q);
    lemma_add_mod_noop(a % q, b, q);
    lemma_mod_twice(a, q);
}

/// Congruence is preserved by multiplication.
pub proof fn lemma_mul_mod(a: int, b: int, q: int)
    requires
        q > 0,
    ensures
        (a * b) % q == ((a % q) * (b % q)) % q,
{
    lemma_mul_mod_noop(a, b, q);
}

pub proof fn lemma_center(c: int, q: int)
    requires
        q > 0,
    ensures
        center(c, q) % q == c % q,
        -q / 2 <= center(c, q) <= q / 2,
        center(c, q) > -(q / 2) || (q % 2 == 0 && center(c, q) == -(q / 2)) || center(c, q) > -q / 2,
{
    lemma_mod_bound(c, q);
    let r = c % q;
    lemma_mod_twice(c, q);
    if r > q / 2 {
        lemma_mod_sub_multiples_vanish(r, q);
    }
}


/// One accumulation step `acc <- (acc + (term rem q)) rem q` keeps `acc` congruent to the running sum.
pub proof fn lemma_acc_step(acc: int, term: int, sum: int, q: int)
    requires
        q > 0,
        acc % q == sum % q,
        -q < acc < q,
    ensures
        trem(acc + trem(term, q), q) % q == (sum + term) % q,
        -q < trem(acc + trem(term, q), q) < q,
        -2 * q < acc + trem(term, q) < 2 * q,
{
    lemma_trem(term, q);
    lemma_trem(acc + trem(term, q), q);
    lemma_add_mod(acc, trem(term, q), q);
    lemma_add_mod(sum, term, q);
    lemma_add_mod(term, sum, q);
    vstd::arithmetic::div_mod::lemma_add_mod_noop(acc, trem(term, q), q);
    vstd::arithmetic::div_mod::lemma_add_mod_noop(sum, term, q);
}

/// The product of two `i32` values is bounded by `2^62` in absolute value.
pub proof fn lemma_i32_product(a: int, b: int)
    requires
        i32::MIN <= a <= i32::MAX,
        i32::MIN <= b <= i32::MAX,
    ensures
        -0x4000_0000_0000_0000 <= a * b <= 0x4000_0000_0000_0000,
{
    assert(-0x4000_0000_0000_0000 <= a * b <= 0x4000_0000_0000_0000) by (nonlinear_arith)
        requires
            -0x8000_0000 <= a <= 0x8000_0000,
            -0x8000_0000 <= b <= 0x8000_0000;
}

} // verus!
