//! Rule tokens and their parsing.
//!
//! A region's constraint arrives as a short textual token: `"="` demands all
//! pips equal, `"x"` leaves the region unconstrained, `">N"` and `"<N"` bound
//! the region's pip sum strictly, and a bare number demands an exact sum.
//! Any other token is deliberately downgraded to an unconstrained rule rather
//! than rejected: unrecognised tokens are a permissive fallback, not an error.

use vstd::prelude::*;

verus! {

/// Normalised representation of a region's constraint.
#[derive(Debug, Clone, Copy, PartialEq, Eq, Structural)]
pub enum Rule {
    /// All pips in the region must be identical.
    Equal,
    /// The pip sum of the region equals the target value.
    Sum(u32),
    /// The pip sum of the region is strictly greater than the value.
    GreaterThan(u32),
    /// The pip sum of the region is strictly less than the value.
    LessThan(u32),
    /// Unconstrained region (`"x"`).
    Any,
    /// Unrecognised rule token, treated as unconstrained when evaluating.
    Unknown,
}

/// An ASCII decimal digit.
pub open spec fn is_digit_char(c: char) -> bool {
    '0' <= c && c <= '9'
}

/// The numeric value of one digit character.
pub open spec fn digit_val(c: char) -> int {
    c as int - '0' as int
}

/// A non-empty run of decimal digits.
pub open spec fn is_digit_seq(s: Seq<char>) -> bool {
    s.len() > 0 && forall|i: int| 0 <= i < s.len() ==> is_digit_char(#[trigger] s[i])
}

/// The value of a digit sequence read as a base-ten numeral.
pub open spec fn digits_val(s: Seq<char>) -> int
    decreases s.len(),
{
    if s.len() == 0 {
        0
    } else {
        10 * digits_val(s.drop_last()) + digit_val(s.last())
    }
}

/// The number a run of characters denotes when read as digits only.
pub open spec fn digits_to_u32(s: Seq<char>) -> Option<u32> {
    if is_digit_seq(s) && digits_val(s) <= u32::MAX {
        Some(digits_val(s) as u32)
    } else {
        None
    }
}

/// The number a token denotes, if any: an optional leading `+`, then digits,
/// and a value that fits in 32 bits — exactly the strings `u32::from_str`
/// accepts.
pub open spec fn parse_number(s: Seq<char>) -> Option<u32> {
    let body = if s.len() >= 1 && s[0] == '+' {
        s.drop_first()
    } else {
        s
    };
    digits_to_u32(body)
}

/// The rule a token denotes: `"="`, `"x"`, `">N"`, `"<N"`, a bare number,
/// and the permissive fallback for everything else.
pub open spec fn parse_rule(s: Seq<char>) -> Rule {
    if s.len() == 1 && s[0] == '=' {
        Rule::Equal
    } else if s.len() == 1 && s[0] == 'x' {
        Rule::Any
    } else if s.len() >= 1 && s[0] == '>' {
        match parse_number(s.drop_first()) {
            Some(v) => Rule::GreaterThan(v),
            None => Rule::Unknown,
        }
    } else if s.len() >= 1 && s[0] == '<' {
        match parse_number(s.drop_first()) {
            Some(v) => Rule::LessThan(v),
            None => Rule::Unknown,
        }
    } else {
        match parse_number(s) {
            Some(v) => Rule::Sum(v),
            None => Rule::Unknown,
        }
    }
}

proof fn lemma_digits_val_nonneg(s: Seq<char>)
    requires
        forall|i: int| 0 <= i < s.len() ==> is_digit_char(#[trigger] s[i]),
    ensures
        digits_val(s) >= 0,
    decreases s.len(),
{
    if s.len() > 0 {
        lemma_digits_val_nonneg(s.drop_last());
    }
}

/// Reading more digits never shrinks the numeral's value.
proof fn lemma_digits_val_prefix_le(s: Seq<char>, k: int)
    requires
        forall|i: int| 0 <= i < s.len() ==> is_digit_char(#[trigger] s[i]),
        0 <= k <= s.len(),
    ensures
        digits_val(s.take(k)) <= digits_val(s),
    decreases s.len() - k,
{
    if k == s.len() {
        assert(s.take(k) =~= s);
    } else {
        assert(s.take(k + 1).drop_last() =~= s.take(k));
        lemma_digits_val_nonneg(s.take(k));
        lemma_digits_val_prefix_le(s, k + 1);
    }
}

/// Parse the decimal numeral that starts at character position `from` and
/// runs to the end of the token, as `u32::from_str` would.
fn parse_number_exec(s: &str, from: usize) -> (r: Option<u32>)
    requires
        from as nat <= s@.len(),
    ensures
        r == parse_number(s@.subrange(from as int, s@.len() as int)),
{
    let n = s.unicode_len();
    let ghost whole = s@.subrange(from as int, s@.len() as int);
    let mut i = from;
    if i < n && s.get_char(i) == '+' {
        i = i + 1;
    }
    let ghost body = s@.subrange(i as int, s@.len() as int);
    proof {
        if from < n && s@[from as int] == '+' {
            assert(whole.drop_first() =~= body);
        } else {
            assert(whole =~= body);
        }
    }
    if i == n {
        return None;
    }
    let ghost start = i as int;
    let mut val: u64 = 0;
    while i < n
        invariant
            0 <= start <= i <= n,
            n == s@.len(),
            body == s@.subrange(start, n as int),
            whole == s@.subrange(from as int, n as int),
            parse_number(whole) == digits_to_u32(body),
            forall|j: int| start <= j < i ==> is_digit_char(#[trigger] s@[j]),
            val == digits_val(s@.subrange(start, i as int)),
            val <= u32::MAX,
        decreases n - i,
    {
        let c = s.get_char(i);
        let u = c as u32;
        if u < 48 || u > 57 {
            proof {
                assert(s@.subrange(start, n as int)[i - start] == s@[i as int]);
                assert(!is_digit_char(body[i - start]));
            }
            return None;
        }
        let d = (u - 48) as u64;
        let next = val * 10 + d;
        proof {
            assert(s@.subrange(start, i + 1).drop_last() =~= s@.subrange(start, i as int));
        }
        if next > 0xffff_ffff {
            proof {
                let grown = s@.subrange(start, i + 1);
                if is_digit_seq(body) {
                    assert(grown =~= body.take(i + 1 - start));
                    assert(forall|j: int| 0 <= j < body.len() ==> is_digit_char(#[trigger] body[j]));
                    lemma_digits_val_prefix_le(body, i + 1 - start);
                }
            }
            return None;
        }
        val = next;
        i = i + 1;
    }
    proof {
        assert(s@.subrange(start, i as int) =~= body);
        assert(forall|j: int| 0 <= j < body.len() ==> is_digit_char(#[trigger] body[j]));
    }
    Some(val as u32)
}

impl Rule {
    /// Parse a raw rule token (e.g. `"="`, `"6"`, `">2"`, `"<6"`, `"x"`).
    pub fn parse(s: &str) -> (r: Rule)
        ensures
            r == parse_rule(s@),
    {
        let n = s.unicode_len();
        if n == 1 {
            let c = s.get_char(0);
            if c == '=' {
                return Rule::Equal;
            }
            if c == 'x' {
                return Rule::Any;
            }
        }
        if n >= 1 {
            let c0 = s.get_char(0);
            if c0 == '>' {
                proof {
                    assert(s@.drop_first() =~= s@.subrange(1, s@.len() as int));
                }
                return match parse_number_exec(s, 1) {
                    Some(v) => Rule::GreaterThan(v),
                    None => Rule::Unknown,
                };
            }
            if c0 == '<' {
                proof {
                    assert(s@.drop_first() =~= s@.subrange(1, s@.len() as int));
                }
                return match parse_number_exec(s, 1) {
                    Some(v) => Rule::LessThan(v),
                    None => Rule::Unknown,
                };
            }
        }
        proof {
            assert(s@.subrange(0, s@.len() as int) =~= s@);
        }
        match parse_number_exec(s, 0) {
            Some(v) => Rule::Sum(v),
            None => Rule::Unknown,
        }
    }
}

} // verus!
