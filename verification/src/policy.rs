//! Policy parsing and evaluation.
//!
//! A strict access-policy parser for AND / OR operators (NOT is rejected), with
//! explicit precedence, parenthesis handling, and whitespace compatibility.
use vstd::prelude::*;
use crate::errors::{PabsCrfError, PabsCrfResult};
use crate::text::{
    ascii_lower, char_is_alphanumeric, char_is_ws, chars_of, contains_chars, is_ws, lemma_trim_len, matches_at,
    occurs_at, seq_contains, string_from_chars, to_ascii_lower, to_uppercase_chars, trim, trim_range,
    unicode_alphanumeric, unicode_uppercase,
};

verus! {

/// Policy rule: a node of the syntax tree.
#[derive(Debug, PartialEq, Eq)]
pub enum PolicyRule {
    /// Leaf node: a single attribute
    Attribute(String),
    /// Logical AND: all child rules must be satisfied
    And(Vec<PolicyRule>),
    /// Logical OR: at least one child rule must be satisfied
    Or(Vec<PolicyRule>),
    /// Logical NOT: the child rule must not be satisfied
    Not(Box<PolicyRule>),
}

/// Mathematical form of a policy rule.
pub enum Rule {
    Attr(Seq<char>),
    All(Seq<Rule>),
    Any(Seq<Rule>),
    Neg(Box<Rule>),
}

impl View for PolicyRule {
    type V = Rule;

    open spec fn view(&self) -> Rule
        decreases self,
    {
        match self {
            PolicyRule::Attribute(a) => Rule::Attr(a@),
            PolicyRule::And(rs) => Rule::All(
                Seq::new(rs@.len(), |i: int| if 0 <= i < rs@.len() { rs@[i].view() } else { Rule::All(Seq::empty()) }),
            ),
            PolicyRule::Or(rs) => Rule::Any(
                Seq::new(rs@.len(), |i: int| if 0 <= i < rs@.len() { rs@[i].view() } else { Rule::All(Seq::empty()) }),
            ),
            PolicyRule::Not(r) => Rule::Neg(Box::new((**r).view())),
        }
    }
}

/// Attribute policy.
#[derive(Debug, PartialEq, Eq)]
pub struct Policy {
    root: Option<PolicyRule>,
}

impl View for Policy {
    type V = Option<Rule>;

    closed spec fn view(&self) -> Option<Rule> {
        match self.root {
            Some(r) => Some(r@),
            None => None,
        }
    }
}

// ---------------------------------------------------------------------------
// Evaluation
// ---------------------------------------------------------------------------

/// Whether the attribute set `attrs` satisfies `r`.
pub open spec fn eval_rule(r: Rule, attrs: Set<Seq<char>>) -> bool
    decreases r,
{
    match r {
        Rule::Attr(a) => attrs.contains(a),
        Rule::All(rs) => forall|i: int| 0 <= i < rs.len() ==> eval_rule(#[trigger] rs[i], attrs),
        Rule::Any(rs) => exists|i: int| 0 <= i < rs.len() && eval_rule(#[trigger] rs[i], attrs),
        Rule::Neg(b) => !eval_rule(*b, attrs),
    }
}

/// The set of attribute names given.
pub open spec fn attr_set(attributes: Seq<&str>) -> Set<Seq<char>> {
    Set::new(|a: Seq<char>| exists|i: int| 0 <= i < attributes.len() && (#[trigger] attributes[i])@ == a)
}

/// The set of attribute names in a sequence.
pub open spec fn attr_set_of(names: Seq<Seq<char>>) -> Set<Seq<char>> {
    Set::new(|a: Seq<char>| exists|i: int| 0 <= i < names.len() && #[trigger] names[i] == a)
}

/// A rule without negation.
pub open spec fn monotone(r: Rule) -> bool
    decreases r,
{
    match r {
        Rule::Attr(_) => true,
        Rule::All(rs) => forall|i: int| 0 <= i < rs.len() ==> monotone(#[trigger] rs[i]),
        Rule::Any(rs) => forall|i: int| 0 <= i < rs.len() ==> monotone(#[trigger] rs[i]),
        Rule::Neg(_) => false,
    }
}

// ---------------------------------------------------------------------------
// The policy language
// ---------------------------------------------------------------------------

/// The reserved operator words.
pub open spec fn reserved(s: Seq<char>) -> bool {
    s == seq!['A', 'N', 'D'] || s == seq!['O', 'R'] || s == seq!['N', 'O', 'T'] || s == seq!['a', 'n', 'd'] || s
        == seq!['o', 'r'] || s == seq!['n', 'o', 't']
}

/// Characters allowed in attribute names.
pub open spec fn attr_char(c: char) -> bool {
    unicode_alphanumeric(c) || c == '_' || c == '-' || c == ':' || c == '.' || c == ','
}

/// A valid attribute name: non-empty, no whitespace, not reserved, allowed characters only.
pub open spec fn attribute_name_ok(s: Seq<char>) -> bool {
    &&& s.len() > 0
    &&& forall|i: int| 0 <= i < s.len() ==> !is_ws(#[trigger] s[i])
    &&& !reserved(s)
    &&& forall|i: int| 0 <= i < s.len() ==> attr_char(#[trigger] s[i])
}

/// Parenthesis depth after the first `i` characters.
pub open spec fn depth_at(s: Seq<char>, i: int) -> int
    decreases i,
{
    if i <= 0 {
        0
    } else {
        depth_at(s, i - 1) + if s[i - 1] == '(' {
            1int
        } else if s[i - 1] == ')' {
            -1int
        } else {
            0int
        }
    }
}

/// No prefix closes more parentheses than it opens, and all are closed.
pub open spec fn balanced(s: Seq<char>) -> bool {
    &&& forall|i: int| 0 <= i <= s.len() ==> #[trigger] depth_at(s, i) >= 0
    &&& depth_at(s, s.len() as int) == 0
}

pub open spec fn starts_with(s: Seq<char>, p: Seq<char>) -> bool {
    p.len() <= s.len() && s.subrange(0, p.len() as int) == p
}

pub open spec fn ends_with(s: Seq<char>, p: Seq<char>) -> bool {
    p.len() <= s.len() && s.subrange(s.len() - p.len(), s.len() as int) == p
}

/// The checks every (sub)policy string passes: balanced parentheses, no empty
/// group, no doubled operators, no dangling operator, nesting depth at most 20.
pub open spec fn policy_string_ok(s: Seq<char>) -> bool {
    let u = unicode_uppercase(s);
    &&& balanced(s)
    &&& !seq_contains(s, seq!['(', ')'])
    &&& !seq_contains(u, seq!['A', 'N', 'D', ' ', 'A', 'N', 'D'])
    &&& !seq_contains(u, seq!['O', 'R', ' ', 'O', 'R'])
    &&& !seq_contains(u, seq!['N', 'O', 'T', ' ', 'N', 'O', 'T', ' ', 'N', 'O', 'T'])
    &&& !ends_with(u, seq![' ', 'A', 'N', 'D'])
    &&& !ends_with(u, seq![' ', 'O', 'R'])
    &&& !ends_with(u, seq![' ', 'N', 'O', 'T'])
    &&& !starts_with(u, seq!['A', 'N', 'D', ' '])
    &&& !starts_with(u, seq!['O', 'R', ' '])
    &&& forall|i: int| 0 <= i <= s.len() ==> #[trigger] depth_at(s, i) <= 20
}

/// `s` is one parenthesised group: it opens at the first character and the
/// group closes at the last one.
pub open spec fn paren_group(s: Seq<char>) -> bool {
    &&& s.len() >= 2
    &&& s[0] == '('
    &&& s.last() == ')'
    &&& forall|i: int| 1 <= i < s.len() ==> #[trigger] depth_at(s, i) != 0
    &&& depth_at(s, s.len() as int) == 0
}

/// `p` occurs in `s` at `i` up to ASCII case.
pub open spec fn ci_occurs_at(s: Seq<char>, p: Seq<char>, i: int) -> bool {
    0 <= i && i + p.len() <= s.len() && forall|j: int| 0 <= j < p.len() ==> ascii_lower(#[trigger] s[i + j]) == ascii_lower(p[j])
}

/// First index at or after `j` that is not a space (the length when none).
pub open spec fn skip_spaces(s: Seq<char>, j: int) -> int
    decreases s.len() - j,
{
    if j >= s.len() || j < 0 {
        j
    } else if s[j] == ' ' {
        skip_spaces(s, j + 1)
    } else {
        j
    }
}

/// Left operand when splitting `s` at an operator starting at `i`.
pub open spec fn split_left(s: Seq<char>, i: int) -> Seq<char> {
    trim(s.subrange(0, i))
}

/// Right operand when splitting `s` at operator `op` starting at `i`.
pub open spec fn split_right(s: Seq<char>, op: Seq<char>, i: int) -> Seq<char> {
    trim(s.subrange(skip_spaces(s, i + op.len()), s.len() as int))
}

/// `op` at position `i` is a top-level operator occurrence with two non-empty operands.
pub open spec fn split_candidate(s: Seq<char>, op: Seq<char>, i: int) -> bool {
    &&& ci_occurs_at(s, op, i)
    &&& depth_at(s, i) == 0
    &&& s[i] != '('
    &&& s[i] != ')'
    &&& (i == 0 || s[i - 1] == ' ')
    &&& (i + op.len() >= s.len() || s[i + op.len()] == ' ')
    &&& split_left(s, i).len() > 0
    &&& split_right(s, op, i).len() > 0
}

/// The first top-level split position for `op` at or after `i`, if any.
pub open spec fn split_from(s: Seq<char>, op: Seq<char>, i: int) -> Option<int>
    decreases s.len() - i,
{
    if i < 0 || i >= s.len() {
        None
    } else if split_candidate(s, op, i) {
        Some(i)
    } else {
        split_from(s, op, i + 1)
    }
}

/// The first top-level split position for `op`, if any.
pub open spec fn first_split(s: Seq<char>, op: Seq<char>) -> Option<int> {
    split_from(s, op, 0)
}

/// The operands an OR node takes from a sub-policy (its children when it is itself an OR).
pub open spec fn or_operands(r: Rule) -> Seq<Rule> {
    match r {
        Rule::Any(rs) => rs,
        _ => seq![r],
    }
}

/// The operands an AND node takes from a sub-policy (its children when it is itself an AND).
pub open spec fn and_operands(r: Rule) -> Seq<Rule> {
    match r {
        Rule::All(rs) => rs,
        _ => seq![r],
    }
}

pub open spec fn op_or() -> Seq<char> {
    seq!['o', 'r']
}

pub open spec fn op_and() -> Seq<char> {
    seq!['a', 'n', 'd']
}

pub open spec fn prefix_not() -> Seq<char> {
    seq!['N', 'O', 'T', ' ']
}

/// The rule `Policy::parse` builds from `s`, or `None` when it rejects `s`.
pub open spec fn parse_spec(s: Seq<char>) -> Option<Rule>
    decreases s.len(),
{
    let t = trim(s);
    proof {
        lemma_trim_len(s);
    }
    if t.len() == 0 || !policy_string_ok(t) {
        None
    } else if paren_group(t) {
        parse_spec(t.subrange(1, t.len() - 1))
    } else if ci_occurs_at(t, prefix_not(), 0) {
        None
    } else if first_split(t, op_or()) is Some {
        let i = first_split(t, op_or())->Some_0;
        proof {
            lemma_split_shorter(t, op_or(), i);
        }
        match (parse_spec(split_left(t, i)), parse_spec(split_right(t, op_or(), i))) {
            (Some(a), Some(b)) => if (or_operands(a) + or_operands(b)).len() == 0 {
                None
            } else {
                Some(Rule::Any(or_operands(a) + or_operands(b)))
            },
            _ => None,
        }
    } else if first_split(t, op_and()) is Some {
        let i = first_split(t, op_and())->Some_0;
        proof {
            lemma_split_shorter(t, op_and(), i);
        }
        match (parse_spec(split_left(t, i)), parse_spec(split_right(t, op_and(), i))) {
            (Some(a), Some(b)) => if (and_operands(a) + and_operands(b)).len() == 0 {
                None
            } else {
                Some(Rule::All(and_operands(a) + and_operands(b)))
            },
            _ => None,
        }
    } else if attribute_name_ok(t) {
        Some(Rule::Attr(t))
    } else {
        None
    }
}

pub proof fn lemma_skip_spaces(s: Seq<char>, j: int)
    requires
        0 <= j,
    ensures
        j <= skip_spaces(s, j),
        j <= s.len() ==> skip_spaces(s, j) <= s.len(),
        forall|k: int| j <= k < skip_spaces(s, j) ==> #[trigger] s[k] == ' ',
        skip_spaces(s, j) < s.len() ==> s[skip_spaces(s, j)] != ' ',
    decreases s.len() - j,
{
    if j < s.len() && s[j] == ' ' {
        lemma_skip_spaces(s, j + 1);
    }
}

proof fn lemma_split_from(s: Seq<char>, op: Seq<char>, i: int)
    requires
        0 <= i,
    ensures
        split_from(s, op, i) matches Some(k) ==> i <= k < s.len() && split_candidate(s, op, k),
    decreases s.len() - i,
{
    if i < s.len() && !split_candidate(s, op, i) {
        lemma_split_from(s, op, i + 1);
    }
}

/// Both operands of a split are shorter than the string split.
pub proof fn lemma_split_shorter(s: Seq<char>, op: Seq<char>, i: int)
    requires
        op.len() >= 1,
        first_split(s, op) == Some(i),
    ensures
        split_candidate(s, op, i),
        split_left(s, i).len() < s.len(),
        split_right(s, op, i).len() < s.len(),
{
    lemma_split_from(s, op, 0);
    lemma_trim_len(s.subrange(0, i));
    lemma_skip_spaces(s, i + op.len());
    lemma_trim_len(s.subrange(skip_spaces(s, i + op.len()), s.len() as int));
}

// ---------------------------------------------------------------------------
// Checks
// ---------------------------------------------------------------------------

fn is_reserved(name: &Vec<char>) -> (b: bool)
    ensures
        b == reserved(name@),
{
    let n = name.len();
    if n == 3 {
        let (a, b, c) = (name[0], name[1], name[2]);
        let r = (a == 'A' && b == 'N' && c == 'D') || (a == 'N' && b == 'O' && c == 'T') || (a == 'a' && b == 'n'
            && c == 'd') || (a == 'n' && b == 'o' && c == 't');
        proof {
            if r {
                assert(name@ =~= seq![a, b, c]);
            }
        }
        r
    } else if n == 2 {
        let (a, b) = (name[0], name[1]);
        let r = (a == 'O' && b == 'R') || (a == 'o' && b == 'r');
        proof {
            if r {
                assert(name@ =~= seq![a, b]);
            }
        }
        r
    } else {
        false
    }
}

pub(crate) fn attr_char_exec(c: char) -> (b: bool)
    ensures
        b == attr_char(c),
{
    char_is_alphanumeric(c) || c == '_' || c == '-' || c == ':' || c == '.' || c == ','
}

/// Check an attribute name given as characters.
pub fn validate_attribute_name_chars(name: &Vec<char>) -> (r: PabsCrfResult<()>)
    ensures
        r is Ok <==> attribute_name_ok(name@),
        r matches Err(e) ==> e is PolicyError,
{
    if name.len() == 0 {
        return Err(PabsCrfError::PolicyError("Empty attribute name".to_string()));
    }
    let mut i: usize = 0;
    while i < name.len()
        invariant
            i <= name@.len(),
            forall|t: int| 0 <= t < i ==> !is_ws(#[trigger] name@[t]),
        decreases name@.len() - i,
    {
        if char_is_ws(name[i]) {
            return Err(PabsCrfError::PolicyError("Attribute name contains whitespace".to_string()));
        }
        i += 1;
    }
    if is_reserved(name) {
        return Err(PabsCrfError::PolicyError("Attribute name is a reserved token".to_string()));
    }
    let mut j: usize = 0;
    while j < name.len()
        invariant
            j <= name@.len(),
            forall|t: int| 0 <= t < j ==> attr_char(#[trigger] name@[t]),
        decreases name@.len() - j,
    {
        if !attr_char_exec(name[j]) {
            return Err(PabsCrfError::PolicyError("Attribute name contains invalid characters".to_string()));
        }
        j += 1;
    }
    Ok(())
}

/// Parenthesis depth after `i + 1` characters, from the depth after `i`.
pub proof fn lemma_depth_step(s: Seq<char>, i: int)
    requires
        0 <= i < s.len(),
    ensures
        depth_at(s, i + 1) == depth_at(s, i) + if s[i] == '(' {
            1int
        } else if s[i] == ')' {
            -1int
        } else {
            0int
        },
{
}

/// Whether `p` is a prefix of `s`.
fn starts_with_exec(s: &Vec<char>, p: &Vec<char>) -> (b: bool)
    ensures
        b == starts_with(s@, p@),
{
    matches_at(s, p, 0)
}

/// Whether `p` is a suffix of `s`.
fn ends_with_exec(s: &Vec<char>, p: &Vec<char>) -> (b: bool)
    ensures
        b == ends_with(s@, p@),
{
    if p.len() > s.len() {
        false
    } else {
        matches_at(s, p, s.len() - p.len())
    }
}

/// Validate a policy string for unbalanced or empty parentheses, doubled or
/// dangling operators, and excessive nesting.
pub fn validate_policy_string(s: &Vec<char>) -> (r: PabsCrfResult<()>)
    ensures
        r is Ok <==> policy_string_ok(s@),
        r matches Err(e) ==> e is PolicyError,
{
    // depth = opens - closes
    let mut opens: usize = 0;
    let mut closes: usize = 0;
    let mut i: usize = 0;
    while i < s.len()
        invariant
            i <= s@.len(),
            opens <= i,
            closes <= opens,
            opens - closes == depth_at(s@, i as int),
            forall|t: int| 0 <= t <= i ==> #[trigger] depth_at(s@, t) >= 0,
        decreases s@.len() - i,
    {
        proof {
            lemma_depth_step(s@, i as int);
        }
        if s[i] == '(' {
            opens += 1;
        } else if s[i] == ')' {
            if closes == opens {
                assert(depth_at(s@, i + 1) < 0);
                return Err(PabsCrfError::PolicyError("Unbalanced parentheses in policy string".to_string()));
            }
            closes += 1;
        }
        i += 1;
    }
    if opens != closes {
        return Err(PabsCrfError::PolicyError("Unbalanced parentheses in policy string".to_string()));
    }
    if contains_chars(s, &vec!['(', ')']) {
        return Err(PabsCrfError::PolicyError("Empty parentheses in policy string".to_string()));
    }
    let upper = to_uppercase_chars(s);
    if contains_chars(&upper, &vec!['A', 'N', 'D', ' ', 'A', 'N', 'D']) || contains_chars(
        &upper,
        &vec!['O', 'R', ' ', 'O', 'R'],
    ) || contains_chars(&upper, &vec!['N', 'O', 'T', ' ', 'N', 'O', 'T', ' ', 'N', 'O', 'T']) {
        return Err(PabsCrfError::PolicyError("Consecutive operators in policy string".to_string()));
    }
    if ends_with_exec(&upper, &vec![' ', 'A', 'N', 'D']) || ends_with_exec(&upper, &vec![' ', 'O', 'R'])
        || ends_with_exec(&upper, &vec![' ', 'N', 'O', 'T']) {
        return Err(PabsCrfError::PolicyError("Policy string ends with an operator".to_string()));
    }
    if starts_with_exec(&upper, &vec!['A', 'N', 'D', ' ']) || starts_with_exec(&upper, &vec!['O', 'R', ' ']) {
        return Err(PabsCrfError::PolicyError("Policy string starts with a binary operator".to_string()));
    }
    // deepest nesting
    let mut depth: usize = 0;
    let mut max_depth: usize = 0;
    let mut k: usize = 0;
    assert(depth_at(s@, 0) == 0);
    while k < s.len()
        invariant
            k <= s@.len(),
            balanced(s@),
            depth == depth_at(s@, k as int),
            depth <= k,
            max_depth <= k,
            forall|t: int| 0 <= t <= k ==> #[trigger] depth_at(s@, t) <= max_depth,
            exists|t: int| 0 <= t <= k && #[trigger] depth_at(s@, t) == max_depth,
        decreases s@.len() - k,
    {
        proof {
            lemma_depth_step(s@, k as int);
            assert(depth_at(s@, k + 1) >= 0);
        }
        if s[k] == '(' {
            depth += 1;
            if depth > max_depth {
                max_depth = depth;
            }
        } else if s[k] == ')' {
            depth -= 1;
        }
        k += 1;
    }
    if max_depth > 20 {
        return Err(PabsCrfError::PolicyError("Policy too deeply nested (max depth 20)".to_string()));
    }
    Ok(())
}

/// Whether `s` is a single parenthesised group.
fn is_balanced_paren_group(s: &Vec<char>) -> (b: bool)
    ensures
        b == paren_group(s@),
{
    if s.len() < 2 || s[0] != '(' || s[s.len() - 1] != ')' {
        return false;
    }
    let mut opens: usize = 0;
    let mut closes: usize = 0;
    let mut i: usize = 0;
    while i < s.len()
        invariant
            2 <= s@.len(),
            i <= s@.len(),
            opens <= i,
            closes <= i,
            opens - closes == depth_at(s@, i as int),
            forall|t: int| 1 <= t <= i && t < s@.len() ==> #[trigger] depth_at(s@, t) != 0,
        decreases s@.len() - i,
    {
        proof {
            lemma_depth_step(s@, i as int);
        }
        if s[i] == '(' {
            opens += 1;
        } else if s[i] == ')' {
            closes += 1;
        }
        if opens == closes && i < s.len() - 1 {
            return false;
        }
        i += 1;
    }
    opens == closes
}

/// The rest of `s` after `prefix`, when `s` starts with `prefix` up to ASCII case.
fn strip_prefix_case_insensitive(s: &Vec<char>, prefix: &Vec<char>) -> (r: Option<Vec<char>>)
    ensures
        r is Some <==> ci_occurs_at(s@, prefix@, 0),
        r matches Some(rest) ==> rest@ == s@.subrange(prefix@.len() as int, s@.len() as int),
{
    if s.len() < prefix.len() {
        return None;
    }
    let mut j: usize = 0;
    while j < prefix.len()
        invariant
            prefix@.len() <= s@.len(),
            j <= prefix@.len(),
            forall|t: int| 0 <= t < j ==> ascii_lower(#[trigger] s@[0 + t]) == ascii_lower(prefix@[t]),
        decreases prefix@.len() - j,
    {
        if to_ascii_lower(s[j]) != to_ascii_lower(prefix[j]) {
            assert(ascii_lower(s@[0 + j]) != ascii_lower(prefix@[j as int]));
            return None;
        }
        j += 1;
    }
    let mut rest: Vec<char> = Vec::new();
    let mut k = prefix.len();
    while k < s.len()
        invariant
            prefix@.len() <= k <= s@.len(),
            rest@ == s@.subrange(prefix@.len() as int, k as int),
        decreases s@.len() - k,
    {
        rest.push(s[k]);
        k += 1;
        assert(rest@ =~= s@.subrange(prefix@.len() as int, k as int));
    }
    Some(rest)
}

/// Split `s` at its first top-level occurrence of the operator `op` (matched up
/// to ASCII case, delimited by spaces), giving the trimmed operands.
fn split_top_level_operator(s: &Vec<char>, op: &Vec<char>) -> (r: Option<(Vec<char>, Vec<char>)>)
    requires
        op@.len() >= 1,
    ensures
        r is Some <==> first_split(s@, op@) is Some,
        r matches Some(parts) ==> parts.0@ == split_left(s@, first_split(s@, op@)->Some_0) && parts.1@ == split_right(
            s@,
            op@,
            first_split(s@, op@)->Some_0,
        ),
{
    let len = s.len();
    let op_len = op.len();
    let mut opens: usize = 0;
    let mut closes: usize = 0;
    let mut i: usize = 0;
    while i < len
        invariant
            len == s@.len(),
            op_len == op@.len(),
            op_len >= 1,
            i <= len,
            opens <= i,
            closes <= i,
            opens - closes == depth_at(s@, i as int),
            first_split(s@, op@) == split_from(s@, op@, i as int),
        decreases len - i,
    {
        proof {
            lemma_depth_step(s@, i as int);
        }
        if s[i] == '(' {
            opens += 1;
            i += 1;
        } else if s[i] == ')' {
            closes += 1;
            i += 1;
        } else if opens == closes && op_len <= len - i {
            let mut matched = true;
            let mut j: usize = 0;
            while j < op_len
                invariant
                    len == s@.len(),
                    op_len == op@.len(),
                    i + op_len <= len,
                    j <= op_len,
                    matched == forall|t: int| 0 <= t < j ==> ascii_lower(#[trigger] s@[i + t]) == ascii_lower(op@[t]),
                decreases op_len - j,
            {
                if to_ascii_lower(s[i + j]) != to_ascii_lower(op[j]) {
                    matched = false;
                }
                j += 1;
            }
            if matched {
                let before_ok = i == 0 || s[i - 1] == ' ';
                let after_ok = i + op_len >= len || s[i + op_len] == ' ';
                if before_ok && after_ok {
                    let mut right_idx = i + op_len;
                    proof {
                        lemma_skip_spaces(s@, (i + op_len) as int);
                    }
                    while right_idx < len && s[right_idx] == ' '
                        invariant
                            len == s@.len(),
                            i + op_len <= right_idx <= len,
                            skip_spaces(s@, (i + op_len) as int) == skip_spaces(s@, right_idx as int),
                        decreases len - right_idx,
                    {
                        right_idx += 1;
                    }
                    let left = trim_range(s, 0, i);
                    let right = trim_range(s, right_idx, len);
                    if left.len() > 0 && right.len() > 0 {
                        assert(split_candidate(s@, op@, i as int));
                        return Some((left, right));
                    }
                }
            }
            i += 1;
        } else {
            i += 1;
        }
    }
    None
}

/// Split at the first top-level OR.
fn split_top_level_or(s: &Vec<char>) -> (r: Option<(Vec<char>, Vec<char>)>)
    ensures
        r is Some <==> first_split(s@, op_or()) is Some,
        r matches Some(parts) ==> parts.0@ == split_left(s@, first_split(s@, op_or())->Some_0) && parts.1@
            == split_right(s@, op_or(), first_split(s@, op_or())->Some_0),
{
    let op = vec!['o', 'r'];
    assert(op@ =~= op_or());
    split_top_level_operator(s, &op)
}

/// Split at the first top-level AND.
fn split_top_level_and(s: &Vec<char>) -> (r: Option<(Vec<char>, Vec<char>)>)
    ensures
        r is Some <==> first_split(s@, op_and()) is Some,
        r matches Some(parts) ==> parts.0@ == split_left(s@, first_split(s@, op_and())->Some_0) && parts.1@
            == split_right(s@, op_and(), first_split(s@, op_and())->Some_0),
{
    let op = vec!['a', 'n', 'd'];
    assert(op@ =~= op_and());
    split_top_level_operator(s, &op)
}

// ---------------------------------------------------------------------------
// Parsing
// ---------------------------------------------------------------------------

/// The rules of a vector of rule nodes.
pub open spec fn rules_view(v: Seq<PolicyRule>) -> Seq<Rule> {
    Seq::new(v.len(), |i: int| v[i]@)
}

proof fn lemma_or_view(rs: Vec<PolicyRule>)
    ensures
        PolicyRule::Or(rs)@ == Rule::Any(rules_view(rs@)),
{
    let v = PolicyRule::Or(rs)@;
    assert(v is Any);
    let x = v->Any_0;
    assert(x.len() == rs@.len());
    assert forall|i: int| 0 <= i < x.len() implies x[i] == rules_view(rs@)[i] by {}
    assert(x =~= rules_view(rs@));
}

proof fn lemma_and_view(rs: Vec<PolicyRule>)
    ensures
        PolicyRule::And(rs)@ == Rule::All(rules_view(rs@)),
{
    let v = PolicyRule::And(rs)@;
    assert(v is All);
    let x = v->All_0;
    assert(x.len() == rs@.len());
    assert forall|i: int| 0 <= i < x.len() implies x[i] == rules_view(rs@)[i] by {}
    assert(x =~= rules_view(rs@));
}

/// Append the OR operands of a parsed sub-policy.
fn collect_or_rules(policy: Policy, rules: &mut Vec<PolicyRule>)
    requires
        policy@ is Some,
    ensures
        rules_view(final(rules)@) == rules_view(old(rules)@) + or_operands(policy@->Some_0),
{
    match policy.root {
        Some(PolicyRule::Or(inner)) => {
            let mut inner = inner;
            proof {
                lemma_or_view(inner);
            }
            let ghost old_inner = inner@;
            rules.append(&mut inner);
            assert(rules_view(rules@) =~= rules_view(old(rules)@) + rules_view(old_inner));
        },
        Some(r) => {
            let ghost rv = r@;
            rules.push(r);
            assert(rules_view(rules@) =~= rules_view(old(rules)@) + seq![rv]);
        },
        None => {},
    }
}

/// Append the AND operands of a parsed sub-policy.
fn collect_and_rules(policy: Policy, rules: &mut Vec<PolicyRule>)
    requires
        policy@ is Some,
    ensures
        rules_view(final(rules)@) == rules_view(old(rules)@) + and_operands(policy@->Some_0),
{
    match policy.root {
        Some(PolicyRule::And(inner)) => {
            let mut inner = inner;
            proof {
                lemma_and_view(inner);
            }
            let ghost old_inner = inner@;
            rules.append(&mut inner);
            assert(rules_view(rules@) =~= rules_view(old(rules)@) + rules_view(old_inner));
        },
        Some(r) => {
            let ghost rv = r@;
            rules.push(r);
            assert(rules_view(rules@) =~= rules_view(old(rules)@) + seq![rv]);
        },
        None => {},
    }
}

/// Characters `s[lo..hi]`.
fn sub_chars(s: &Vec<char>, lo: usize, hi: usize) -> (r: Vec<char>)
    requires
        lo <= hi <= s@.len(),
    ensures
        r@ == s@.subrange(lo as int, hi as int),
{
    let mut r: Vec<char> = Vec::new();
    let mut k = lo;
    while k < hi
        invariant
            lo <= k <= hi <= s@.len(),
            r@ == s@.subrange(lo as int, k as int),
        decreases hi - k,
    {
        r.push(s[k]);
        k += 1;
        assert(r@ =~= s@.subrange(lo as int, k as int));
    }
    r
}

impl Policy {
    /// Parse a policy given as characters.
    pub fn parse_chars(s: &Vec<char>) -> (r: PabsCrfResult<Self>)
        ensures
            r is Ok <==> parse_spec(s@) is Some,
            r matches Ok(p) ==> p@ == parse_spec(s@),
            r matches Err(e) ==> e is PolicyError,
        decreases s@.len(),
    {
        let t = trim_range(s, 0, s.len());
        assert(s@.subrange(0, s@.len() as int) =~= s@);
        proof {
            lemma_trim_len(s@);
        }
        if t.len() == 0 {
            return Err(PabsCrfError::PolicyError("Empty policy string".to_string()));
        }
        match validate_policy_string(&t) {
            Err(e) => {
                return Err(e);
            },
            Ok(_) => {},
        }
        if t[0] == '(' && t[t.len() - 1] == ')' {
            if is_balanced_paren_group(&t) {
                let inner = sub_chars(&t, 1, t.len() - 1);
                return Self::parse_chars(&inner);
            }
        }
        assert(!paren_group(t@));
        let not_prefix = vec!['N', 'O', 'T', ' '];
        assert(not_prefix@ =~= prefix_not());
        if strip_prefix_case_insensitive(&t, &not_prefix).is_some() {
            return Err(
                PabsCrfError::PolicyError(
                    "NOT operator is currently not supported in LSSS-based attribute mapping".to_string(),
                ),
            );
        }
        if let Some((l, rr)) = split_top_level_or(&t) {
            proof {
                lemma_split_shorter(t@, op_or(), first_split(t@, op_or())->Some_0);
            }
            let left = match Self::parse_chars(&l) {
                Ok(p) => p,
                Err(e) => {
                    return Err(e);
                },
            };
            let right = match Self::parse_chars(&rr) {
                Ok(p) => p,
                Err(e) => {
                    return Err(e);
                },
            };
            let ghost (a, b) = (left@->Some_0, right@->Some_0);
            let mut or_rules: Vec<PolicyRule> = Vec::new();
            collect_or_rules(left, &mut or_rules);
            collect_or_rules(right, &mut or_rules);
            assert(rules_view(or_rules@) =~= or_operands(a) + or_operands(b));
            if or_rules.len() == 0 {
                return Err(PabsCrfError::PolicyError("OR expression must have at least one operand".to_string()));
            }
            proof {
                lemma_or_view(or_rules);
            }
            return Ok(Policy { root: Some(PolicyRule::Or(or_rules)) });
        }
        if let Some((l, rr)) = split_top_level_and(&t) {
            proof {
                lemma_split_shorter(t@, op_and(), first_split(t@, op_and())->Some_0);
            }
            let left = match Self::parse_chars(&l) {
                Ok(p) => p,
                Err(e) => {
                    return Err(e);
                },
            };
            let right = match Self::parse_chars(&rr) {
                Ok(p) => p,
                Err(e) => {
                    return Err(e);
                },
            };
            let ghost (a, b) = (left@->Some_0, right@->Some_0);
            let mut and_rules: Vec<PolicyRule> = Vec::new();
            collect_and_rules(left, &mut and_rules);
            collect_and_rules(right, &mut and_rules);
            assert(rules_view(and_rules@) =~= and_operands(a) + and_operands(b));
            if and_rules.len() == 0 {
                return Err(PabsCrfError::PolicyError("AND expression must have at least one operand".to_string()));
            }
            proof {
                lemma_and_view(and_rules);
            }
            return Ok(Policy { root: Some(PolicyRule::And(and_rules)) });
        }
        match validate_attribute_name_chars(&t) {
            Err(e) => {
                return Err(e);
            },
            Ok(_) => {},
        }
        Ok(Policy { root: Some(PolicyRule::Attribute(string_from_chars(t.as_slice()))) })
    }

    /// Parse a policy string.
    ///
    /// Supported forms: a single attribute (`admin`), AND / OR chains
    /// (`admin AND finance`), and parenthesised mixes
    /// (`(admin AND finance) OR (user AND manager)`). NOT is rejected, and so is
    /// any invalid policy.
    pub fn parse(policy_str: &str) -> (r: PabsCrfResult<Self>)
        ensures
            r is Ok <==> parse_spec(policy_str@) is Some,
            r matches Ok(p) ==> p@ == parse_spec(policy_str@),
            r matches Err(e) ==> e is PolicyError,
    {
        let cs = chars_of(policy_str);
        Self::parse_chars(&cs)
    }

    /// Validate an attribute name: non-empty, no whitespace, not a reserved
    /// operator word, and only alphanumerics or `_ - : . ,`.
    pub fn validate_attribute_name(name: &str) -> (r: PabsCrfResult<()>)
        ensures
            r is Ok <==> attribute_name_ok(name@),
            r matches Err(e) ==> e is PolicyError,
    {
        let cs = chars_of(name);
        validate_attribute_name_chars(&cs)
    }
}

// ---------------------------------------------------------------------------
// Evaluation, negation check, copies
// ---------------------------------------------------------------------------

/// One unfolding of `eval_rule` and `monotone` at AND / OR nodes.
proof fn lemma_rule_unfold(xs: Seq<Rule>, s: Set<Seq<char>>)
    ensures
        eval_rule(Rule::All(xs), s) == (forall|k: int| 0 <= k < xs.len() ==> eval_rule(#[trigger] xs[k], s)),
        eval_rule(Rule::Any(xs), s) == (exists|k: int| 0 <= k < xs.len() && eval_rule(#[trigger] xs[k], s)),
        monotone(Rule::All(xs)) == (forall|k: int| 0 <= k < xs.len() ==> monotone(#[trigger] xs[k])),
        monotone(Rule::Any(xs)) == (forall|k: int| 0 <= k < xs.len() ==> monotone(#[trigger] xs[k])),
{
    let a = Rule::All(xs);
    assert(a is All);
    assert(a->All_0 == xs);
    let b = Rule::Any(xs);
    assert(b is Any);
    assert(b->Any_0 == xs);
}

/// The names in `v`, as a set.
pub open spec fn names_set(v: Seq<Vec<char>>) -> Set<Seq<char>> {
    Set::new(|a: Seq<char>| exists|i: int| 0 <= i < v.len() && (#[trigger] v[i])@ == a)
}

fn chars_eq(a: &Vec<char>, b: &Vec<char>) -> (r: bool)
    ensures
        r == (a@ == b@),
{
    if a.len() != b.len() {
        return false;
    }
    let r = matches_at(a, b, 0);
    assert(a@.subrange(0, b@.len() as int) =~= a@);
    r
}

fn has_name(attrs: &Vec<Vec<char>>, name: &Vec<char>) -> (r: bool)
    ensures
        r == names_set(attrs@).contains(name@),
{
    let mut i: usize = 0;
    while i < attrs.len()
        invariant
            i <= attrs@.len(),
            forall|t: int| 0 <= t < i ==> (#[trigger] attrs@[t])@ != name@,
        decreases attrs@.len() - i,
    {
        if chars_eq(&attrs[i], name) {
            return true;
        }
        i += 1;
    }
    false
}

fn evaluate_rule(rule: &PolicyRule, attrs: &Vec<Vec<char>>) -> (r: bool)
    ensures
        r == eval_rule(rule@, names_set(attrs@)),
    decreases rule,
{
    match rule {
        PolicyRule::Attribute(attr) => {
            let name = chars_of(attr.as_str());
            has_name(attrs, &name)
        },
        PolicyRule::And(rules) => {
            proof {
                lemma_and_view(*rules);
            }
            let mut i: usize = 0;
            assert forall|t: int| 0 <= t < rules@.len() implies decreases_to!(rule => #[trigger] rules@[t]) by {
                assert(decreases_to!(rule => rules));
            }
            while i < rules.len()
                invariant
                    i <= rules@.len(),
                    forall|t: int| 0 <= t < rules@.len() ==> decreases_to!(rule => #[trigger] rules@[t]),
                    rule@ == Rule::All(rules_view(rules@)),
                    forall|t: int| 0 <= t < i ==> eval_rule(#[trigger] rules_view(rules@)[t], names_set(attrs@)),
                decreases rules@.len() - i,
            {
                if !evaluate_rule(&rules[i], attrs) {
                    let ghost xs = rules_view(rules@);
                    assert(!eval_rule(xs[i as int], names_set(attrs@)));
                    proof {
                        lemma_rule_unfold(xs, names_set(attrs@));
                    }
                    return false;
                }
                i += 1;
            }
            true
        },
        PolicyRule::Or(rules) => {
            proof {
                lemma_or_view(*rules);
            }
            let mut i: usize = 0;
            assert forall|t: int| 0 <= t < rules@.len() implies decreases_to!(rule => #[trigger] rules@[t]) by {
                assert(decreases_to!(rule => rules));
            }
            while i < rules.len()
                invariant
                    i <= rules@.len(),
                    forall|t: int| 0 <= t < rules@.len() ==> decreases_to!(rule => #[trigger] rules@[t]),
                    rule@ == Rule::Any(rules_view(rules@)),
                    forall|t: int| 0 <= t < i ==> !eval_rule(#[trigger] rules_view(rules@)[t], names_set(attrs@)),
                decreases rules@.len() - i,
            {
                if evaluate_rule(&rules[i], attrs) {
                    let ghost xs = rules_view(rules@);
                    assert(eval_rule(xs[i as int], names_set(attrs@)));
                    proof {
                        lemma_rule_unfold(xs, names_set(attrs@));
                    }
                    return true;
                }
                i += 1;
            }
            false
        },
        PolicyRule::Not(inner) => !evaluate_rule(inner, attrs),
    }
}

/// Whether `r` holds no NOT node (NOT cannot be lowered to a monotone sharing matrix).
pub fn reject_not(rule: &PolicyRule) -> (r: Result<(), String>)
    ensures
        r is Ok <==> monotone(rule@),
    decreases rule,
{
    match rule {
        PolicyRule::Not(_) => Err(
            "NOT operator not supported in deserialized Policy (LSSS-based mapping is monotone-only)".to_string(),
        ),
        PolicyRule::And(rules) | PolicyRule::Or(rules) => {
            proof {
                lemma_and_view(*rules);
                lemma_or_view(*rules);
            }
            let mut i: usize = 0;
            assert forall|t: int| 0 <= t < rules@.len() implies decreases_to!(rule => #[trigger] rules@[t]) by {
                assert(decreases_to!(rule => rules));
            }
            while i < rules.len()
                invariant
                    i <= rules@.len(),
                    forall|t: int| 0 <= t < rules@.len() ==> decreases_to!(rule => #[trigger] rules@[t]),
                    rule@ == Rule::All(rules_view(rules@)) || rule@ == Rule::Any(rules_view(rules@)),
                    forall|t: int| 0 <= t < i ==> monotone(#[trigger] rules_view(rules@)[t]),
                decreases rules@.len() - i,
            {
                match reject_not(&rules[i]) {
                    Err(e) => {
                        let ghost xs = rules_view(rules@);
                        assert(!monotone(xs[i as int]));
                        proof {
                            lemma_rule_unfold(xs, Set::empty());
                        }
                        return Err(e);
                    },
                    Ok(_) => {},
                }
                i += 1;
            }
            Ok(())
        },
        PolicyRule::Attribute(_) => Ok(()),
    }
}

/// A copy of `rule`.
pub fn clone_rule(rule: &PolicyRule) -> (c: PolicyRule)
    ensures
        c@ == rule@,
    decreases rule,
{
    match rule {
        PolicyRule::Attribute(a) => PolicyRule::Attribute(a.clone()),
        PolicyRule::And(rules) => {
            let mut out: Vec<PolicyRule> = Vec::new();
            let mut i: usize = 0;
            assert forall|t: int| 0 <= t < rules@.len() implies decreases_to!(rule => #[trigger] rules@[t]) by {
                assert(decreases_to!(rule => rules));
            }
            while i < rules.len()
                invariant
                    i <= rules@.len(),
                    forall|t: int| 0 <= t < rules@.len() ==> decreases_to!(rule => #[trigger] rules@[t]),
                    out@.len() == i,
                    rules_view(out@) == rules_view(rules@).take(i as int),
                decreases rules@.len() - i,
            {
                let c = clone_rule(&rules[i]);
                let ghost old_out = out@;
                out.push(c);
                assert(out@ == old_out.push(c));
                i += 1;
                assert forall|t: int| 0 <= t < i implies #[trigger] rules_view(out@)[t] == rules_view(rules@).take(i as int)[t] by {
                    if t < i - 1 {
                        assert(rules_view(out@)[t] == rules_view(old_out)[t]);
                        assert(rules_view(old_out)[t] == rules_view(rules@).take(i - 1)[t]);
                    }
                }
                assert(rules_view(out@) =~= rules_view(rules@).take(i as int));
            }
            assert(rules_view(rules@).take(i as int) =~= rules_view(rules@));
            proof {
                lemma_and_view(*rules);
                lemma_and_view(out);
            }
            PolicyRule::And(out)
        },
        PolicyRule::Or(rules) => {
            let mut out: Vec<PolicyRule> = Vec::new();
            let mut i: usize = 0;
            assert forall|t: int| 0 <= t < rules@.len() implies decreases_to!(rule => #[trigger] rules@[t]) by {
                assert(decreases_to!(rule => rules));
            }
            while i < rules.len()
                invariant
                    i <= rules@.len(),
                    forall|t: int| 0 <= t < rules@.len() ==> decreases_to!(rule => #[trigger] rules@[t]),
                    out@.len() == i,
                    rules_view(out@) == rules_view(rules@).take(i as int),
                decreases rules@.len() - i,
            {
                let c = clone_rule(&rules[i]);
                let ghost old_out = out@;
                out.push(c);
                assert(out@ == old_out.push(c));
                i += 1;
                assert forall|t: int| 0 <= t < i implies #[trigger] rules_view(out@)[t] == rules_view(rules@).take(i as int)[t] by {
                    if t < i - 1 {
                        assert(rules_view(out@)[t] == rules_view(old_out)[t]);
                        assert(rules_view(old_out)[t] == rules_view(rules@).take(i - 1)[t]);
                    }
                }
                assert(rules_view(out@) =~= rules_view(rules@).take(i as int));
            }
            assert(rules_view(rules@).take(i as int) =~= rules_view(rules@));
            proof {
                lemma_or_view(*rules);
                lemma_or_view(out);
            }
            PolicyRule::Or(out)
        },
        PolicyRule::Not(inner) => PolicyRule::Not(Box::new(clone_rule(inner))),
    }
}

impl Clone for Policy {
    fn clone(&self) -> (c: Self)
        ensures
            c@ == self@,
    {
        match &self.root {
            Some(r) => Policy { root: Some(clone_rule(r)) },
            None => Policy { root: None },
        }
    }
}

impl Policy {
    /// Check whether `attributes` satisfy the policy (an empty policy is satisfied by anyone).
    pub fn satisfies(&self, attributes: &[&str]) -> (b: bool)
        ensures
            b == match self@ {
                Some(r) => eval_rule(r, attr_set(attributes@)),
                None => true,
            },
    {
        let mut attrs: Vec<Vec<char>> = Vec::new();
        let mut i: usize = 0;
        while i < attributes.len()
            invariant
                i <= attributes@.len(),
                attrs@.len() == i,
                forall|t: int| 0 <= t < i ==> (#[trigger] attrs@[t])@ == attributes@[t]@,
            decreases attributes@.len() - i,
        {
            attrs.push(chars_of(attributes[i]));
            i += 1;
        }
        assert(names_set(attrs@) =~= attr_set(attributes@)) by {
            assert forall|a: Seq<char>| names_set(attrs@).contains(a) implies attr_set(attributes@).contains(a) by {
                let t = choose|t: int| 0 <= t < attrs@.len() && (#[trigger] attrs@[t])@ == a;
                assert(attributes@[t]@ == a);
            }
            assert forall|a: Seq<char>| attr_set(attributes@).contains(a) implies names_set(attrs@).contains(a) by {
                let t = choose|t: int| 0 <= t < attributes@.len() && (#[trigger] attributes@[t])@ == a;
                assert(attrs@[t]@ == a);
            }
        }
        match &self.root {
            Some(rule) => evaluate_rule(rule, &attrs),
            None => true,
        }
    }

    /// A policy with the given root, refused when it holds a NOT node.
    pub fn from_root(root: Option<PolicyRule>) -> (r: Result<Self, String>)
        ensures
            r is Ok <==> (root matches Some(rule) ==> monotone(rule@)),
            r matches Ok(p) ==> p@ == match root {
                Some(rule) => Some(rule@),
                None => None::<Rule>,
            },
    {
        if let Some(ref rule) = root {
            match reject_not(rule) {
                Err(e) => {
                    return Err(e);
                },
                Ok(_) => {},
            }
        }
        Ok(Policy { root })
    }

    /// The root rule (`None` for the empty policy).
    pub fn root(&self) -> (r: &Option<PolicyRule>)
        ensures
            self@ == match *r {
                Some(rule) => Some(rule@),
                None => None::<Rule>,
            },
    {
        &self.root
    }
}

// ---------------------------------------------------------------------------
// Canonical string form
// ---------------------------------------------------------------------------

/// The character sequences of a vector of texts.
pub open spec fn texts(v: Seq<Vec<char>>) -> Seq<Seq<char>> {
    v.map_values(|p: Vec<char>| p@)
}

/// Lexicographic order on character sequences by code point (the order of `String`).
pub open spec fn str_le(a: Seq<char>, b: Seq<char>) -> bool
    decreases a.len(),
{
    if a.len() == 0 {
        true
    } else if b.len() == 0 {
        false
    } else if (a[0] as u32) < (b[0] as u32) {
        true
    } else if a[0] == b[0] {
        str_le(a.drop_first(), b.drop_first())
    } else {
        false
    }
}

/// Insert `x` before the first element it does not exceed.
pub open spec fn insert_sorted(x: Seq<char>, s: Seq<Seq<char>>) -> Seq<Seq<char>>
    decreases s.len(),
{
    if s.len() == 0 {
        seq![x]
    } else if str_le(x, s[0]) {
        seq![x] + s
    } else {
        seq![s[0]] + insert_sorted(x, s.drop_first())
    }
}

/// `s` in ascending order.
pub open spec fn sort_strs(s: Seq<Seq<char>>) -> Seq<Seq<char>>
    decreases s.len(),
{
    if s.len() == 0 {
        Seq::empty()
    } else {
        insert_sorted(s.last(), sort_strs(s.drop_last()))
    }
}

/// The parts separated by `sep`.
pub open spec fn join(parts: Seq<Seq<char>>, sep: Seq<char>) -> Seq<char>
    decreases parts.len(),
{
    if parts.len() == 0 {
        Seq::empty()
    } else if parts.len() == 1 {
        parts[0]
    } else {
        join(parts.drop_last(), sep) + sep + parts.last()
    }
}

pub open spec fn and_sep() -> Seq<char> {
    seq![' ', 'A', 'N', 'D', ' ']
}

pub open spec fn or_sep() -> Seq<char> {
    seq![' ', 'O', 'R', ' ']
}

/// Canonical text of a rule: operands sorted, each AND / OR group parenthesised.
pub open spec fn rule_str(r: Rule) -> Seq<char>
    decreases r,
{
    match r {
        Rule::Attr(a) => a,
        Rule::All(rs) => seq!['('] + join(sort_strs(operand_strs(rs)), and_sep()) + seq![')'],
        Rule::Any(rs) => seq!['('] + join(sort_strs(operand_strs(rs)), or_sep()) + seq![')'],
        Rule::Neg(b) => seq!['N', 'O', 'T', ' '] + rule_str(*b),
    }
}

/// The texts of the operands, in order.
pub open spec fn operand_strs(xs: Seq<Rule>) -> Seq<Seq<char>>
    decreases xs,
{
    Seq::new(xs.len(), |i: int| if 0 <= i < xs.len() { rule_str(xs[i]) } else { Seq::empty() })
}

/// Canonical text of a policy (`true` for the empty policy).
pub open spec fn policy_str(p: Option<Rule>) -> Seq<char> {
    match p {
        Some(r) => rule_str(r),
        None => seq!['t', 'r', 'u', 'e'],
    }
}

fn str_le_exec(a: &Vec<char>, b: &Vec<char>) -> (r: bool)
    ensures
        r == str_le(a@, b@),
{
    let mut i: usize = 0;
    assert(a@.skip(0) =~= a@);
    assert(b@.skip(0) =~= b@);
    while i < a.len()
        invariant
            i <= a@.len(),
            i <= b@.len(),
            a@.subrange(0, i as int) == b@.subrange(0, i as int),
            str_le(a@, b@) == str_le(a@.skip(i as int), b@.skip(i as int)),
        decreases a@.len() - i,
    {
        if i >= b.len() {
            return false;
        }
        let ghost (sa, sb) = (a@.skip(i as int), b@.skip(i as int));
        assert(sa[0] == a@[i as int] && sb[0] == b@[i as int]);
        if (a[i] as u32) < (b[i] as u32) {
            return true;
        }
        if a[i] != b[i] {
            return false;
        }
        assert(sa.drop_first() =~= a@.skip(i + 1));
        assert(sb.drop_first() =~= b@.skip(i + 1));
        i += 1;
        assert(a@.subrange(0, i as int) =~= b@.subrange(0, i as int)) by {
            assert(a@.subrange(0, i as int) =~= a@.subrange(0, i - 1).push(a@[i - 1]));
            assert(b@.subrange(0, i as int) =~= b@.subrange(0, i - 1).push(b@[i - 1]));
        }
    }
    assert(a@.skip(i as int).len() == 0);
    true
}

/// `insert_sorted` puts `x` at the first position whose element it does not exceed.
proof fn lemma_insert_sorted(x: Seq<char>, s: Seq<Seq<char>>, j: int)
    requires
        0 <= j <= s.len(),
        forall|t: int| 0 <= t < j ==> !str_le(x, #[trigger] s[t]),
        j < s.len() ==> str_le(x, s[j]),
    ensures
        insert_sorted(x, s) == s.take(j) + seq![x] + s.skip(j),
    decreases s.len(),
{
    if s.len() == 0 {
        assert(s.take(j) + seq![x] + s.skip(j) =~= seq![x]);
    } else if j == 0 {
        assert(s.take(j) + seq![x] + s.skip(j) =~= seq![x] + s);
    } else {
        let r = s.drop_first();
        assert forall|t: int| 0 <= t < j - 1 implies !str_le(x, #[trigger] r[t]) by {
            assert(r[t] == s[t + 1]);
        }
        if j - 1 < r.len() {
            assert(r[j - 1] == s[j]);
        }
        lemma_insert_sorted(x, r, j - 1);
        assert(seq![s[0]] + (r.take(j - 1) + seq![x] + r.skip(j - 1)) =~= s.take(j) + seq![x] + s.skip(j));
    }
}

/// `parts` in ascending order.
fn sort_parts(parts: Vec<Vec<char>>) -> (sorted: Vec<Vec<char>>)
    ensures
        texts(sorted@) == sort_strs(texts(parts@)),
{
    let ghost ps = texts(parts@);
    let mut sorted: Vec<Vec<char>> = Vec::new();
    let mut i: usize = 0;
    assert(ps.take(0) =~= Seq::<Seq<char>>::empty());
    assert(texts(sorted@) =~= sort_strs(ps.take(0)));
    while i < parts.len()
        invariant
            i <= parts@.len(),
            ps == texts(parts@),
            texts(sorted@) == sort_strs(ps.take(i as int)),
        decreases parts@.len() - i,
    {
        let x = parts[i].clone();
        let ghost sv = texts(sorted@);
        let mut j: usize = 0;
        while j < sorted.len() && !str_le_exec(&x, &sorted[j])
            invariant
                j <= sorted@.len(),
                sv == texts(sorted@),
                forall|t: int| 0 <= t < j ==> !str_le(x@, #[trigger] sv[t]),
            decreases sorted@.len() - j,
        {
            j += 1;
        }
        proof {
            if j < sorted@.len() {
                assert(str_le(x@, sv[j as int]));
            }
            lemma_insert_sorted(x@, sv, j as int);
            assert(ps.take(i + 1).drop_last() =~= ps.take(i as int));
            assert(ps.take(i + 1).last() == x@);
        }
        sorted.insert(j, x);
        assert(texts(sorted@) =~= sv.take(j as int) + seq![x@] + sv.skip(j as int));
        i += 1;
    }
    assert(ps.take(i as int) =~= ps);
    sorted
}

/// The parts separated by `sep`.
fn join_parts(parts: &Vec<Vec<char>>, sep: &Vec<char>) -> (out: Vec<char>)
    ensures
        out@ == join(texts(parts@), sep@),
{
    let ghost ps = texts(parts@);
    let mut out: Vec<char> = Vec::new();
    let mut i: usize = 0;
    assert(ps.take(0) =~= Seq::<Seq<char>>::empty());
    while i < parts.len()
        invariant
            i <= parts@.len(),
            ps == texts(parts@),
            out@ == join(ps.take(i as int), sep@),
        decreases parts@.len() - i,
    {
        if i > 0 {
            let mut k: usize = 0;
            let ghost o = out@;
            while k < sep.len()
                invariant
                    k <= sep@.len(),
                    out@ == o + sep@.take(k as int),
                decreases sep@.len() - k,
            {
                out.push(sep[k]);
                k += 1;
                assert(out@ =~= o + sep@.take(k as int));
            }
            assert(sep@.take(k as int) =~= sep@);
        }
        let ghost o2 = out@;
        let mut k: usize = 0;
        while k < parts[i].len()
            invariant
                i < parts@.len(),
                k <= parts@[i as int]@.len(),
                out@ == o2 + parts@[i as int]@.take(k as int),
            decreases parts@[i as int]@.len() - k,
        {
            out.push(parts[i][k]);
            k += 1;
            assert(out@ =~= o2 + parts@[i as int]@.take(k as int));
        }
        assert(parts@[i as int]@.take(k as int) =~= parts@[i as int]@);
        proof {
            assert(ps.take(i + 1).drop_last() =~= ps.take(i as int));
            assert(ps.take(i + 1).last() == parts@[i as int]@);
            if i == 0 {
                assert(out@ =~= ps.take(1)[0]);
            }
        }
        i += 1;
    }
    assert(ps.take(i as int) =~= ps);
    out
}

proof fn lemma_rule_str_unfold(xs: Seq<Rule>)
    ensures
        rule_str(Rule::All(xs)) == seq!['('] + join(sort_strs(operand_strs(xs)), and_sep()) + seq![')'],
        rule_str(Rule::Any(xs)) == seq!['('] + join(sort_strs(operand_strs(xs)), or_sep()) + seq![')'],
        forall|i: int| 0 <= i < xs.len() ==> #[trigger] operand_strs(xs)[i] == rule_str(xs[i]),
        operand_strs(xs).len() == xs.len(),
{
    let a = Rule::All(xs);
    assert(a->All_0 == xs);
    let b = Rule::Any(xs);
    assert(b->Any_0 == xs);
}

fn operand_texts(rules: &Vec<PolicyRule>, Ghost(parent): Ghost<&PolicyRule>) -> (parts: Vec<Vec<char>>)
    requires
        forall|t: int| 0 <= t < rules@.len() ==> decreases_to!(parent => #[trigger] rules@[t]),
    ensures
        texts(parts@) == operand_strs(rules_view(rules@)),
    decreases parent, 0nat,
{
    let mut parts: Vec<Vec<char>> = Vec::new();
    let mut i: usize = 0;
    while i < rules.len()
        invariant
            i <= rules@.len(),
            parts@.len() == i,
            forall|t: int| 0 <= t < rules@.len() ==> decreases_to!(parent => #[trigger] rules@[t]),
            texts(parts@) == operand_strs(rules_view(rules@)).take(i as int),
        decreases rules@.len() - i,
    {
        let p = rule_to_chars(&rules[i]);
        let ghost old_parts = parts@;
        parts.push(p);
        proof {
            let xs = rules_view(rules@);
            lemma_rule_str_unfold(xs);
            assert(operand_strs(xs)[i as int] == rule_str(xs[i as int]));
            assert(xs[i as int] == rules@[i as int]@);
            assert forall|t: int| 0 <= t <= i implies #[trigger] texts(parts@)[t]
                == operand_strs(xs).take(i + 1)[t] by {
                if t < i {
                    assert(parts@[t] == old_parts[t]);
                    assert(texts(old_parts)[t] == operand_strs(xs).take(i as int)[t]);
                }
            }
        }
        i += 1;
        assert(texts(parts@) =~= operand_strs(rules_view(rules@)).take(i as int));
    }
    assert(operand_strs(rules_view(rules@)).take(i as int) =~= operand_strs(rules_view(rules@)));
    parts
}

/// Canonical text of `rule`.
fn rule_to_chars(rule: &PolicyRule) -> (out: Vec<char>)
    ensures
        out@ == rule_str(rule@),
    decreases rule, 1nat,
{
    match rule {
        PolicyRule::Attribute(a) => chars_of(a.as_str()),
        PolicyRule::And(rules) | PolicyRule::Or(rules) => {
            let is_and = match rule {
                PolicyRule::And(_) => true,
                _ => false,
            };
            proof {
                lemma_and_view(*rules);
                lemma_or_view(*rules);
                lemma_rule_str_unfold(rules_view(rules@));
            }
            assert forall|t: int| 0 <= t < rules@.len() implies decreases_to!(rule => #[trigger] rules@[t]) by {
                assert(decreases_to!(rule => rules));
            }
            let parts = operand_texts(rules, Ghost(rule));
            let sorted = sort_parts(parts);
            let sep = if is_and {
                vec![' ', 'A', 'N', 'D', ' ']
            } else {
                vec![' ', 'O', 'R', ' ']
            };
            assert(is_and ==> sep@ =~= and_sep());
            assert(!is_and ==> sep@ =~= or_sep());
            let body = join_parts(&sorted, &sep);
            let mut out: Vec<char> = Vec::new();
            out.push('(');
            let mut k: usize = 0;
            while k < body.len()
                invariant
                    k <= body@.len(),
                    out@ == seq!['('] + body@.take(k as int),
                decreases body@.len() - k,
            {
                out.push(body[k]);
                k += 1;
                assert(out@ =~= seq!['('] + body@.take(k as int));
            }
            out.push(')');
            assert(body@.take(k as int) =~= body@);
            assert(out@ =~= seq!['('] + body@ + seq![')']);
            out
        },
        PolicyRule::Not(inner) => {
            let rest = rule_to_chars(inner);
            let mut out: Vec<char> = vec!['N', 'O', 'T', ' '];
            let ghost o = out@;
            let mut k: usize = 0;
            while k < rest.len()
                invariant
                    k <= rest@.len(),
                    out@ == o + rest@.take(k as int),
                decreases rest@.len() - k,
            {
                out.push(rest[k]);
                k += 1;
                assert(out@ =~= o + rest@.take(k as int));
            }
            assert(rest@.take(k as int) =~= rest@);
            out
        },
    }
}

impl Policy {
    /// Canonical text of the policy: operands sorted, each AND / OR group
    /// parenthesised (`true` for the empty policy).
    pub fn to_string(&self) -> (s: String)
        ensures
            s@ == policy_str(self@),
    {
        match &self.root {
            Some(rule) => {
                let cs = rule_to_chars(rule);
                string_from_chars(cs.as_slice())
            },
            None => {
                let cs = vec!['t', 'r', 'u', 'e'];
                assert(cs@ =~= seq!['t', 'r', 'u', 'e']);
                string_from_chars(cs.as_slice())
            },
        }
    }
}

/// Every policy `parse` accepts is free of NOT, so it can be lowered to a
/// monotone sharing matrix.
pub proof fn lemma_parse_monotone(s: Seq<char>)
    ensures
        parse_spec(s) matches Some(r) ==> monotone(r),
    decreases s.len(),
{
    let t = trim(s);
    lemma_trim_len(s);
    if t.len() == 0 || !policy_string_ok(t) {
    } else if paren_group(t) {
        lemma_parse_monotone(t.subrange(1, t.len() - 1));
    } else if ci_occurs_at(t, prefix_not(), 0) {
    } else if first_split(t, op_or()) is Some {
        let i = first_split(t, op_or())->Some_0;
        lemma_split_shorter(t, op_or(), i);
        lemma_parse_monotone(split_left(t, i));
        lemma_parse_monotone(split_right(t, op_or(), i));
        if let (Some(a), Some(b)) = (parse_spec(split_left(t, i)), parse_spec(split_right(t, op_or(), i))) {
            lemma_operands_monotone(a);
            lemma_operands_monotone(b);
            let xs = or_operands(a) + or_operands(b);
            assert forall|k: int| 0 <= k < xs.len() implies monotone(#[trigger] xs[k]) by {
                if k < or_operands(a).len() {
                    assert(xs[k] == or_operands(a)[k]);
                } else {
                    assert(xs[k] == or_operands(b)[k - or_operands(a).len()]);
                }
            }
            lemma_rule_unfold(xs, Set::empty());
        }
    } else if first_split(t, op_and()) is Some {
        let i = first_split(t, op_and())->Some_0;
        lemma_split_shorter(t, op_and(), i);
        lemma_parse_monotone(split_left(t, i));
        lemma_parse_monotone(split_right(t, op_and(), i));
        if let (Some(a), Some(b)) = (parse_spec(split_left(t, i)), parse_spec(split_right(t, op_and(), i))) {
            lemma_operands_monotone(a);
            lemma_operands_monotone(b);
            let xs = and_operands(a) + and_operands(b);
            assert forall|k: int| 0 <= k < xs.len() implies monotone(#[trigger] xs[k]) by {
                if k < and_operands(a).len() {
                    assert(xs[k] == and_operands(a)[k]);
                } else {
                    assert(xs[k] == and_operands(b)[k - and_operands(a).len()]);
                }
            }
            lemma_rule_unfold(xs, Set::empty());
        }
    }
}

/// Precedence: OR binds looser than AND. When the trimmed text of an accepted
/// policy is no single parenthesised group and has a top-level OR, the policy
/// is split at that OR first: both sides are accepted policies, and a set of
/// attributes satisfies the whole exactly when it satisfies either side, even
/// where a side holds a top-level AND (so `a AND b OR c` means
/// `(a AND b) OR c`).
pub proof fn lemma_parse_or_first(s: Seq<char>, attrs: Set<Seq<char>>)
    requires
        parse_spec(s) is Some,
        !paren_group(trim(s)),
        first_split(trim(s), op_or()) is Some,
    ensures
        ({
            let t = trim(s);
            let i = first_split(t, op_or())->Some_0;
            &&& parse_spec(split_left(t, i)) is Some
            &&& parse_spec(split_right(t, op_or(), i)) is Some
            &&& eval_rule(parse_spec(s)->Some_0, attrs) == (eval_rule(parse_spec(split_left(t, i))->Some_0, attrs)
                || eval_rule(parse_spec(split_right(t, op_or(), i))->Some_0, attrs))
        }),
{
    let t = trim(s);
    let i = first_split(t, op_or())->Some_0;
    let a = parse_spec(split_left(t, i))->Some_0;
    let b = parse_spec(split_right(t, op_or(), i))->Some_0;
    lemma_operands_eval(a, attrs);
    lemma_operands_eval(b, attrs);
    lemma_concat_eval(or_operands(a), or_operands(b), attrs);
}

/// Without a top-level OR, an accepted policy that is no single parenthesised
/// group and has a top-level AND is split at that AND: both sides are accepted
/// policies, and a set of attributes satisfies the whole exactly when it
/// satisfies both sides.
pub proof fn lemma_parse_and_split(s: Seq<char>, attrs: Set<Seq<char>>)
    requires
        parse_spec(s) is Some,
        !paren_group(trim(s)),
        first_split(trim(s), op_or()) is None,
        first_split(trim(s), op_and()) is Some,
    ensures
        ({
            let t = trim(s);
            let i = first_split(t, op_and())->Some_0;
            &&& parse_spec(split_left(t, i)) is Some
            &&& parse_spec(split_right(t, op_and(), i)) is Some
            &&& eval_rule(parse_spec(s)->Some_0, attrs) == (eval_rule(parse_spec(split_left(t, i))->Some_0, attrs)
                && eval_rule(parse_spec(split_right(t, op_and(), i))->Some_0, attrs))
        }),
{
    let t = trim(s);
    let i = first_split(t, op_and())->Some_0;
    let a = parse_spec(split_left(t, i))->Some_0;
    let b = parse_spec(split_right(t, op_and(), i))->Some_0;
    lemma_operands_eval(a, attrs);
    lemma_operands_eval(b, attrs);
    lemma_concat_eval(and_operands(a), and_operands(b), attrs);
}

/// Taking a rule's OR (or AND) operands keeps its meaning.
proof fn lemma_operands_eval(r: Rule, attrs: Set<Seq<char>>)
    ensures
        eval_rule(Rule::Any(or_operands(r)), attrs) == eval_rule(r, attrs),
        eval_rule(Rule::All(and_operands(r)), attrs) == eval_rule(r, attrs),
{
    lemma_rule_unfold(or_operands(r), attrs);
    lemma_rule_unfold(and_operands(r), attrs);
    match r {
        Rule::Any(xs) => {
            lemma_rule_unfold(xs, attrs);
            if eval_rule(r, attrs) {
                let k = choose|k: int| 0 <= k < xs.len() && eval_rule(#[trigger] xs[k], attrs);
                assert(and_operands(r)[0] == r);
            }
        },
        Rule::All(xs) => {
            lemma_rule_unfold(xs, attrs);
            assert(or_operands(r)[0] == r);
        },
        _ => {
            assert(or_operands(r)[0] == r);
            assert(and_operands(r)[0] == r);
        },
    }
}

/// An OR of two operand lists holds when either list has a satisfied operand;
/// an AND of two lists holds when every operand of both is satisfied.
proof fn lemma_concat_eval(xs: Seq<Rule>, ys: Seq<Rule>, attrs: Set<Seq<char>>)
    ensures
        eval_rule(Rule::Any(xs + ys), attrs) == (eval_rule(Rule::Any(xs), attrs) || eval_rule(Rule::Any(ys), attrs)),
        eval_rule(Rule::All(xs + ys), attrs) == (eval_rule(Rule::All(xs), attrs) && eval_rule(Rule::All(ys), attrs)),
{
    let zs = xs + ys;
    let n = xs.len() as int;
    lemma_rule_unfold(xs, attrs);
    lemma_rule_unfold(ys, attrs);
    lemma_rule_unfold(zs, attrs);
    if eval_rule(Rule::Any(zs), attrs) {
        let k = choose|k: int| 0 <= k < zs.len() && eval_rule(#[trigger] zs[k], attrs);
        if k < n {
            assert(zs[k] == xs[k]);
            assert(eval_rule(xs[k], attrs));
        } else {
            assert(zs[k] == ys[k - n]);
            assert(eval_rule(ys[k - n], attrs));
        }
    }
    if eval_rule(Rule::Any(xs), attrs) {
        let k = choose|k: int| 0 <= k < xs.len() && eval_rule(#[trigger] xs[k], attrs);
        assert(zs[k] == xs[k]);
        assert(eval_rule(zs[k], attrs));
    }
    if eval_rule(Rule::Any(ys), attrs) {
        let k = choose|k: int| 0 <= k < ys.len() && eval_rule(#[trigger] ys[k], attrs);
        assert(zs[n + k] == ys[k]);
        assert(eval_rule(zs[n + k], attrs));
    }
    if eval_rule(Rule::All(zs), attrs) {
        assert forall|k: int| 0 <= k < xs.len() implies eval_rule(#[trigger] xs[k], attrs) by {
            assert(zs[k] == xs[k]);
            assert(eval_rule(zs[k], attrs));
        }
        assert forall|k: int| 0 <= k < ys.len() implies eval_rule(#[trigger] ys[k], attrs) by {
            assert(zs[n + k] == ys[k]);
            assert(eval_rule(zs[n + k], attrs));
        }
    }
    if eval_rule(Rule::All(xs), attrs) && eval_rule(Rule::All(ys), attrs) {
        assert forall|k: int| 0 <= k < zs.len() implies eval_rule(#[trigger] zs[k], attrs) by {
            if k < n {
                assert(zs[k] == xs[k]);
                assert(eval_rule(xs[k], attrs));
            } else {
                assert(zs[k] == ys[k - n]);
                assert(eval_rule(ys[k - n], attrs));
            }
        }
    }
}

/// Every leaf of `r` is a valid attribute name, and `r` has no negation.
pub open spec fn leaves_valid(r: Rule) -> bool
    decreases r,
{
    match r {
        Rule::Attr(a) => attribute_name_ok(a),
        Rule::All(rs) => forall|i: int| 0 <= i < rs.len() ==> leaves_valid(#[trigger] rs[i]),
        Rule::Any(rs) => forall|i: int| 0 <= i < rs.len() ==> leaves_valid(#[trigger] rs[i]),
        Rule::Neg(_) => false,
    }
}

/// Every attribute named in a policy `parse` accepts is a valid attribute
/// name: non-empty, without whitespace, not an operator word, and made of the
/// allowed characters.
pub proof fn lemma_parse_leaves_valid(s: Seq<char>)
    ensures
        parse_spec(s) matches Some(r) ==> leaves_valid(r),
    decreases s.len(),
{
    let t = trim(s);
    lemma_trim_len(s);
    if t.len() == 0 || !policy_string_ok(t) {
    } else if paren_group(t) {
        lemma_parse_leaves_valid(t.subrange(1, t.len() - 1));
    } else if ci_occurs_at(t, prefix_not(), 0) {
    } else if first_split(t, op_or()) is Some {
        let i = first_split(t, op_or())->Some_0;
        lemma_split_shorter(t, op_or(), i);
        lemma_parse_leaves_valid(split_left(t, i));
        lemma_parse_leaves_valid(split_right(t, op_or(), i));
        if let (Some(a), Some(b)) = (parse_spec(split_left(t, i)), parse_spec(split_right(t, op_or(), i))) {
            lemma_operands_leaves_valid(a);
            lemma_operands_leaves_valid(b);
            let xs = or_operands(a) + or_operands(b);
            assert forall|k: int| 0 <= k < xs.len() implies leaves_valid(#[trigger] xs[k]) by {
                if k < or_operands(a).len() {
                    assert(xs[k] == or_operands(a)[k]);
                } else {
                    assert(xs[k] == or_operands(b)[k - or_operands(a).len()]);
                }
            }
            lemma_leaves_unfold(xs);
        }
    } else if first_split(t, op_and()) is Some {
        let i = first_split(t, op_and())->Some_0;
        lemma_split_shorter(t, op_and(), i);
        lemma_parse_leaves_valid(split_left(t, i));
        lemma_parse_leaves_valid(split_right(t, op_and(), i));
        if let (Some(a), Some(b)) = (parse_spec(split_left(t, i)), parse_spec(split_right(t, op_and(), i))) {
            lemma_operands_leaves_valid(a);
            lemma_operands_leaves_valid(b);
            let xs = and_operands(a) + and_operands(b);
            assert forall|k: int| 0 <= k < xs.len() implies leaves_valid(#[trigger] xs[k]) by {
                if k < and_operands(a).len() {
                    assert(xs[k] == and_operands(a)[k]);
                } else {
                    assert(xs[k] == and_operands(b)[k - and_operands(a).len()]);
                }
            }
            lemma_leaves_unfold(xs);
        }
    }
}

proof fn lemma_leaves_unfold(xs: Seq<Rule>)
    ensures
        leaves_valid(Rule::All(xs)) == (forall|k: int| 0 <= k < xs.len() ==> leaves_valid(#[trigger] xs[k])),
        leaves_valid(Rule::Any(xs)) == (forall|k: int| 0 <= k < xs.len() ==> leaves_valid(#[trigger] xs[k])),
{
    let a = Rule::All(xs);
    assert(a->All_0 == xs);
    let b = Rule::Any(xs);
    assert(b->Any_0 == xs);
}

proof fn lemma_operands_leaves_valid(r: Rule)
    requires
        leaves_valid(r),
    ensures
        forall|k: int| 0 <= k < or_operands(r).len() ==> leaves_valid(#[trigger] or_operands(r)[k]),
        forall|k: int| 0 <= k < and_operands(r).len() ==> leaves_valid(#[trigger] and_operands(r)[k]),
{
    match r {
        Rule::All(xs) => {
            lemma_leaves_unfold(xs);
        },
        Rule::Any(xs) => {
            lemma_leaves_unfold(xs);
        },
        _ => {},
    }
}

proof fn lemma_operands_monotone(r: Rule)
    requires
        monotone(r),
    ensures
        forall|k: int| 0 <= k < or_operands(r).len() ==> monotone(#[trigger] or_operands(r)[k]),
        forall|k: int| 0 <= k < and_operands(r).len() ==> monotone(#[trigger] and_operands(r)[k]),
{
    match r {
        Rule::All(xs) => {
            lemma_rule_unfold(xs, Set::empty());
        },
        Rule::Any(xs) => {
            lemma_rule_unfold(xs, Set::empty());
        },
        _ => {},
    }
}

// ---------------------------------------------------------------------------
// Structural equality
// ---------------------------------------------------------------------------

fn chars_equal(a: &Vec<char>, b: &Vec<char>) -> (r: bool)
    ensures
        r == (a@ == b@),
{
    if a.len() != b.len() {
        return false;
    }
    let mut i: usize = 0;
    while i < a.len()
        invariant
            a@.len() == b@.len(),
            i <= a@.len(),
            forall|t: int| 0 <= t < i ==> a@[t] == b@[t],
        decreases a@.len() - i,
    {
        if a[i] != b[i] {
            return false;
        }
        i += 1;
    }
    assert(a@ =~= b@);
    true
}

/// Whether two rules are the same tree.
pub fn rules_equal(a: &PolicyRule, b: &PolicyRule) -> (r: bool)
    ensures
        r == (a@ == b@),
    decreases a,
{
    match (a, b) {
        (PolicyRule::Attribute(x), PolicyRule::Attribute(y)) => {
            let cx = chars_of(x.as_str());
            let cy = chars_of(y.as_str());
            chars_equal(&cx, &cy)
        },
        (PolicyRule::And(xs), PolicyRule::And(ys)) => {
            proof {
                lemma_and_view(*xs);
                lemma_and_view(*ys);
            }
            rule_lists_equal(a, xs, ys)
        },
        (PolicyRule::Or(xs), PolicyRule::Or(ys)) => {
            proof {
                lemma_or_view(*xs);
                lemma_or_view(*ys);
            }
            rule_lists_equal(a, xs, ys)
        },
        (PolicyRule::Not(x), PolicyRule::Not(y)) => {
            assert(decreases_to!(a => **x));
            rules_equal(&**x, &**y)
        },
        _ => false,
    }
}

fn rule_lists_equal(parent: &PolicyRule, xs: &Vec<PolicyRule>, ys: &Vec<PolicyRule>) -> (r: bool)
    requires
        (parent matches PolicyRule::And(v) && v == *xs) || (parent matches PolicyRule::Or(v) && v == *xs),
    ensures
        r == (rules_view(xs@) == rules_view(ys@)),
    decreases parent, 0nat,
{
    if xs.len() != ys.len() {
        assert(rules_view(xs@).len() != rules_view(ys@).len());
        return false;
    }
    assert forall|t: int| 0 <= t < xs@.len() implies decreases_to!(parent => #[trigger] xs@[t]) by {
        assert(decreases_to!(parent => *xs));
    }
    let mut i: usize = 0;
    while i < xs.len()
        invariant
            xs@.len() == ys@.len(),
            i <= xs@.len(),
            forall|t: int| 0 <= t < xs@.len() ==> decreases_to!(parent => #[trigger] xs@[t]),
            forall|t: int| 0 <= t < i ==> xs@[t]@ == ys@[t]@,
        decreases xs@.len() - i,
    {
        if !rules_equal(&xs[i], &ys[i]) {
            assert(rules_view(xs@)[i as int] != rules_view(ys@)[i as int]);
            return false;
        }
        i += 1;
    }
    assert(rules_view(xs@) =~= rules_view(ys@));
    true
}

impl Policy {
    /// Whether two policies have the same rule tree.
    pub fn equals(&self, other: &Policy) -> (r: bool)
        ensures
            r == (self@ == other@),
    {
        match (&self.root, &other.root) {
            (Some(a), Some(b)) => rules_equal(a, b),
            (None, None) => true,
            _ => false,
        }
    }
}

} // verus!
