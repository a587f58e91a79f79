//! Character-level text helpers: strings are handled as sequences of `char`.
use vstd::prelude::*;

verus! {

/// Unicode `White_Space`, the set `char::is_whitespace` tests.
pub open spec fn is_ws(c: char) -> bool {
    let u = c as u32;
    (0x09 <= u <= 0x0d) || u == 0x20 || u == 0x85 || u == 0xa0 || u == 0x1680 || (0x2000 <= u <= 0x200a) || u
        == 0x2028 || u == 0x2029 || u == 0x202f || u == 0x205f || u == 0x3000
}

/// `char::is_whitespace`.
pub fn char_is_ws(c: char) -> (b: bool)
    ensures
        b == is_ws(c),
{
    let u = c as u32;
    (0x09 <= u && u <= 0x0d) || u == 0x20 || u == 0x85 || u == 0xa0 || u == 0x1680 || (0x2000 <= u && u <= 0x200a)
        || u == 0x2028 || u == 0x2029 || u == 0x202f || u == 0x205f || u == 0x3000
}

/// Index of the first non-whitespace character (the length when there is none).
pub open spec fn trim_start_index(s: Seq<char>) -> int
    decreases s.len(),
{
    if s.len() == 0 {
        0
    } else if is_ws(s[0]) {
        1 + trim_start_index(s.drop_first())
    } else {
        0
    }
}

/// One past the last non-whitespace character (0 when there is none).
pub open spec fn trim_end_index(s: Seq<char>) -> int
    decreases s.len(),
{
    if s.len() == 0 {
        0
    } else if is_ws(s.last()) {
        trim_end_index(s.drop_last())
    } else {
        s.len() as int
    }
}

/// `s` without leading and trailing whitespace (`str::trim`).
pub open spec fn trim(s: Seq<char>) -> Seq<char> {
    let a = trim_start_index(s);
    let b = trim_end_index(s);
    if a < b {
        s.subrange(a, b)
    } else {
        Seq::empty()
    }
}

pub proof fn lemma_trim_indices(s: Seq<char>)
    ensures
        0 <= trim_start_index(s) <= s.len(),
        0 <= trim_end_index(s) <= s.len(),
        forall|i: int| 0 <= i < trim_start_index(s) ==> is_ws(#[trigger] s[i]),
        forall|i: int| trim_end_index(s) <= i < s.len() ==> is_ws(#[trigger] s[i]),
        trim_start_index(s) < s.len() ==> !is_ws(s[trim_start_index(s)]),
        trim_end_index(s) > 0 ==> !is_ws(s[trim_end_index(s) - 1]),
        trim_start_index(s) < trim_end_index(s) || trim_start_index(s) == s.len(),
    decreases s.len(),
{
    if s.len() > 0 {
        lemma_trim_indices(s.drop_first());
        lemma_trim_indices(s.drop_last());
        if is_ws(s[0]) {
            assert forall|i: int| 0 <= i < trim_start_index(s) implies is_ws(#[trigger] s[i]) by {
                if i > 0 {
                    assert(s[i] == s.drop_first()[i - 1]);
                }
            }
            if trim_start_index(s) < s.len() {
                assert(s[trim_start_index(s)] == s.drop_first()[trim_start_index(s) - 1]);
            }
        }
        if is_ws(s.last()) {
            assert forall|i: int| trim_end_index(s) <= i < s.len() implies is_ws(#[trigger] s[i]) by {
                if i < s.len() - 1 {
                    assert(s[i] == s.drop_last()[i]);
                }
            }
            if trim_end_index(s) > 0 {
                assert(s[trim_end_index(s) - 1] == s.drop_last()[trim_end_index(s) - 1]);
            }
        }
        // the two ends meet only when everything is whitespace
        if trim_start_index(s) >= trim_end_index(s) && trim_start_index(s) < s.len() {
            let a = trim_start_index(s);
            assert(!is_ws(s[a]));
            assert(a < trim_end_index(s));
        }
    }
}

pub proof fn lemma_trim_len(s: Seq<char>)
    ensures
        trim(s).len() <= s.len(),
        trim(s).len() > 0 ==> !is_ws(trim(s)[0]) && !is_ws(trim(s).last()),
{
    lemma_trim_indices(s);
}

/// Position of the first non-whitespace character of `s[lo..hi]` (`hi` when none).
pub fn trim_start_at(s: &Vec<char>, lo: usize, hi: usize) -> (a: usize)
    requires
        lo <= hi <= s@.len(),
    ensures
        a == lo + trim_start_index(s@.subrange(lo as int, hi as int)),
{
    let ghost t = s@.subrange(lo as int, hi as int);
    let mut a = lo;
    proof {
        lemma_trim_indices(t);
    }
    while a < hi && char_is_ws(s[a])
        invariant
            lo <= a <= hi <= s@.len(),
            t == s@.subrange(lo as int, hi as int),
            trim_start_index(t) == (a - lo) + trim_start_index(s@.subrange(a as int, hi as int)),
        decreases hi - a,
    {
        let ghost u = s@.subrange(a as int, hi as int);
        assert(u.drop_first() =~= s@.subrange(a + 1, hi as int));
        a += 1;
    }
    a
}

/// One past the last non-whitespace character of `s[lo..hi]` (`lo` when none).
pub fn trim_end_at(s: &Vec<char>, lo: usize, hi: usize) -> (b: usize)
    requires
        lo <= hi <= s@.len(),
    ensures
        b == lo + trim_end_index(s@.subrange(lo as int, hi as int)),
{
    let ghost t = s@.subrange(lo as int, hi as int);
    let mut b = hi;
    while b > lo && char_is_ws(s[b - 1])
        invariant
            lo <= b <= hi <= s@.len(),
            t == s@.subrange(lo as int, hi as int),
            trim_end_index(t) == trim_end_index(s@.subrange(lo as int, b as int)),
        decreases b - lo,
    {
        let ghost u = s@.subrange(lo as int, b as int);
        assert(u.drop_last() =~= s@.subrange(lo as int, b - 1));
        b -= 1;
    }
    let ghost u = s@.subrange(lo as int, b as int);
    proof {
        if b > lo {
            assert(u.last() == s@[b - 1]);
        }
    }
    b
}

/// The trimmed characters of `s[lo..hi]`.
pub fn trim_range(s: &Vec<char>, lo: usize, hi: usize) -> (t: Vec<char>)
    requires
        lo <= hi <= s@.len(),
    ensures
        t@ == trim(s@.subrange(lo as int, hi as int)),
{
    let ghost u = s@.subrange(lo as int, hi as int);
    let a = trim_start_at(s, lo, hi);
    let b = trim_end_at(s, lo, hi);
    proof {
        lemma_trim_indices(u);
    }
    let mut t: Vec<char> = Vec::new();
    if a < b {
        let mut i = a;
        while i < b
            invariant
                a <= i <= b <= hi <= s@.len(),
                t@ == s@.subrange(a as int, i as int),
            decreases b - i,
        {
            t.push(s[i]);
            i += 1;
            assert(t@ =~= s@.subrange(a as int, i as int));
        }
        assert(t@ =~= u.subrange(a - lo, b - lo));
    }
    t
}

/// The characters of `s`.
pub fn chars_of(s: &str) -> (v: Vec<char>)
    ensures
        v@ == s@,
{
    let mut v: Vec<char> = Vec::new();
    for c in it: s.chars()
        invariant
            v@ == it.seq().take(it.index() as int),
    {
        v.push(c);
    }
    v
}

/// Collects characters into a `String`.
///
/// Trusted: `Iterator::collect` into a `String` keeps the characters in order.
#[verifier::external_body]
pub(crate) fn string_from_chars(cs: &[char]) -> (s: String)
    ensures
        s@ == cs@,
{
    cs.iter().collect()
}

/// Unicode `Alphabetic` or `Numeric`, the set `char::is_alphanumeric` tests.
pub uninterp spec fn unicode_alphanumeric(c: char) -> bool;

/// `char::is_alphanumeric`.
///
/// Trusted: the result is the Unicode property named by `unicode_alphanumeric`.
#[verifier::external_body]
pub(crate) fn char_is_alphanumeric(c: char) -> (b: bool)
    ensures
        b == unicode_alphanumeric(c),
{
    c.is_alphanumeric()
}

/// Unicode upper-casing of a character sequence (`str::to_uppercase`).
pub uninterp spec fn unicode_uppercase(s: Seq<char>) -> Seq<char>;

/// `str::to_uppercase`.
///
/// Trusted: the result is the Unicode upper-case mapping named by `unicode_uppercase`.
#[verifier::external_body]
pub(crate) fn to_uppercase_chars(s: &Vec<char>) -> (u: Vec<char>)
    ensures
        u@ == unicode_uppercase(s@),
{
    let st: String = s.iter().collect();
    st.to_uppercase().chars().collect()
}

/// ASCII lower-casing of one character (others unchanged).
pub open spec fn ascii_lower(c: char) -> char {
    if 'A' <= c <= 'Z' {
        ((c as u32) + 32) as char
    } else {
        c
    }
}

/// `char::to_ascii_lowercase`.
pub fn to_ascii_lower(c: char) -> (r: char)
    ensures
        r == ascii_lower(c),
{
    if 'A' <= c && c <= 'Z' {
        ((c as u8) + 32) as char
    } else {
        c
    }
}

/// `s` holds `needle` at position `i`.
pub open spec fn occurs_at(s: Seq<char>, needle: Seq<char>, i: int) -> bool {
    0 <= i && i + needle.len() <= s.len() && s.subrange(i, i + needle.len()) == needle
}

/// `s` contains `needle`.
pub open spec fn seq_contains(s: Seq<char>, needle: Seq<char>) -> bool {
    exists|i: int| #[trigger] occurs_at(s, needle, i)
}

/// Whether `needle` occurs in `s` at position `i`.
pub fn matches_at(s: &Vec<char>, needle: &Vec<char>, i: usize) -> (b: bool)
    ensures
        b == occurs_at(s@, needle@, i as int),
{
    if i > s.len() || s.len() - i < needle.len() {
        return false;
    }
    let slen = s.len();
    let mut j: usize = 0;
    while j < needle.len()
        invariant
            slen == s@.len(),
            i + needle@.len() <= s@.len(),
            j <= needle@.len(),
            forall|t: int| 0 <= t < j ==> s@[i + t] == needle@[t],
        decreases needle@.len() - j,
    {
        if s[i + j] != needle[j] {
            assert(s@.subrange(i as int, i + needle@.len())[j as int] != needle@[j as int]);
            return false;
        }
        j += 1;
    }
    assert(s@.subrange(i as int, i + needle@.len()) =~= needle@);
    true
}

/// Whether `needle` occurs anywhere in `s`.
pub fn contains_chars(s: &Vec<char>, needle: &Vec<char>) -> (b: bool)
    ensures
        b == seq_contains(s@, needle@),
{
    if needle.len() > s.len() {
        assert forall|t: int| #[trigger] occurs_at(s@, needle@, t) implies false by {}
        return false;
    }
    let last = s.len() - needle.len();
    let mut i: usize = 0;
    while i < last
        invariant
            i <= last,
            last + needle@.len() == s@.len(),
            forall|t: int| 0 <= t < i ==> !#[trigger] occurs_at(s@, needle@, t),
        decreases last - i,
    {
        if matches_at(s, needle, i) {
            return true;
        }
        i += 1;
    }
    if matches_at(s, needle, last) {
        return true;
    }
    assert forall|t: int| #[trigger] occurs_at(s@, needle@, t) implies false by {
        assert(t <= last);
    }
    false
}

/// The decimal digit `d` (`0 <= d < 10`) as a character.
pub open spec fn digit_char(d: int) -> char {
    if d == 0 { '0' } else if d == 1 { '1' } else if d == 2 { '2' } else if d == 3 { '3' } else if d == 4 { '4' }
    else if d == 5 { '5' } else if d == 6 { '6' } else if d == 7 { '7' } else if d == 8 { '8' } else { '9' }
}

/// The decimal rendering of `n`, most significant digit first, as `u64::to_string` writes it.
pub open spec fn decimal_chars(n: nat) -> Seq<char>
    decreases n,
{
    if n < 10 {
        seq![digit_char(n as int)]
    } else {
        decimal_chars(n / 10).push(digit_char((n % 10) as int))
    }
}

fn digit_to_char(d: u64) -> (c: char)
    requires
        d < 10,
    ensures
        c == digit_char(d as int),
{
    if d == 0 { '0' } else if d == 1 { '1' } else if d == 2 { '2' } else if d == 3 { '3' } else if d == 4 { '4' }
    else if d == 5 { '5' } else if d == 6 { '6' } else if d == 7 { '7' } else if d == 8 { '8' } else { '9' }
}

fn push_decimal(out: &mut Vec<char>, n: u64)
    ensures
        final(out)@ == old(out)@ + decimal_chars(n as nat),
    decreases n,
{
    if n >= 10 {
        push_decimal(out, n / 10);
    }
    out.push(digit_to_char(n % 10));
    assert(final(out)@ =~= old(out)@ + decimal_chars(n as nat));
}

/// `prefix` followed by the decimal rendering of `n`.
pub fn with_decimal(prefix: &str, n: u64) -> (s: String)
    ensures
        s@ == prefix@ + decimal_chars(n as nat),
{
    let mut cs = chars_of(prefix);
    push_decimal(&mut cs, n);
    string_from_chars(cs.as_slice())
}

} // verus!
