//! Coercion of raw attribute value strings into structured values.
//!
//! A raw value is interpreted, in order, as: an integer; an integer with a
//! size-unit suffix (`tb`, `gb`, `mb`, `kb`, `b`, case-sensitive), normalized
//! to the `mb`-equivalent base unit; a boolean (`true`/`false`, any letter
//! case); otherwise it is passed through unchanged as a string.
//!
//! Numbers are 64-bit signed integers; unit scaling that would leave that
//! range falls through to the string case, and `kb`/`b` scaling divides with
//! truncation toward zero.

use vstd::prelude::*;

verus! {

/// A raw attribute value after coercion.
#[derive(Debug, PartialEq)]
pub enum Coerced {
    Number(i64),
    Bool(bool),
    Str(String),
}

/// Mathematical model of a [`Coerced`] value.
pub enum CoercedModel {
    Number(int),
    Bool(bool),
    Str(Seq<char>),
}

impl View for Coerced {
    type V = CoercedModel;

    open spec fn view(&self) -> CoercedModel {
        match self {
            Coerced::Number(n) => CoercedModel::Number(*n as int),
            Coerced::Bool(b) => CoercedModel::Bool(*b),
            Coerced::Str(s) => CoercedModel::Str(s@),
        }
    }
}

/// Whether `c` is a decimal digit.
pub open spec fn is_digit(c: char) -> bool {
    48 <= c as u32 <= 57
}

/// The numeric value of a decimal digit.
pub open spec fn digit_val(c: char) -> int {
    c as u32 - 48
}

/// Whether every character of `s` is a decimal digit.
pub open spec fn all_digits(s: Seq<char>) -> bool {
    forall|i: int| 0 <= i < s.len() ==> is_digit(#[trigger] s[i])
}

/// The number denoted by a sequence of decimal digits, most significant
/// first.
pub open spec fn digits_val(s: Seq<char>) -> int
    decreases s.len(),
{
    if s.len() == 0 {
        0
    } else {
        digits_val(s.drop_last()) * 10 + digit_val(s.last())
    }
}

/// The integer denoted by `s`: an optional sign followed by at least one
/// decimal digit, and nothing else.
pub open spec fn parse_int(s: Seq<char>) -> Option<int> {
    if s.len() > 0 && (s[0] == '-' || s[0] == '+') {
        if s.len() > 1 && all_digits(s.drop_first()) {
            if s[0] == '-' {
                Some(-digits_val(s.drop_first()))
            } else {
                Some(digits_val(s.drop_first()))
            }
        } else {
            None
        }
    } else if s.len() > 0 && all_digits(s) {
        Some(digits_val(s))
    } else {
        None
    }
}

/// [`parse_int`] restricted to the 64-bit signed range.
pub open spec fn parse_i64(s: Seq<char>) -> Option<int> {
    match parse_int(s) {
        Some(v) => if i64::MIN <= v <= i64::MAX {
            Some(v)
        } else {
            None
        },
        None => None,
    }
}

/// Division truncating toward zero, for a positive divisor.
pub open spec fn trunc_div(n: int, d: int) -> int {
    if n >= 0 {
        n / d
    } else {
        -((-n) / d)
    }
}

/// Whether `s` ends in the two characters `c0`, `c1`.
pub open spec fn suffix2(s: Seq<char>, c0: char, c1: char) -> bool {
    s.len() >= 2 && s[s.len() - 2] == c0 && s[s.len() - 1] == c1
}

/// Whether `s` ends in the character `c`.
pub open spec fn suffix1(s: Seq<char>, c: char) -> bool {
    s.len() >= 1 && s[s.len() - 1] == c
}

/// ASCII lower-casing on Unicode scalar values.
pub open spec fn lower_u32(u: u32) -> u32 {
    if 65 <= u <= 90 {
        (u + 32) as u32
    } else {
        u
    }
}

/// Character-wise ASCII-case-insensitive equality.
pub open spec fn ci_eq(a: Seq<char>, b: Seq<char>) -> bool {
    a.len() == b.len() && (forall|i: int|
        0 <= i < a.len() ==> lower_u32(#[trigger] a[i] as u32) == lower_u32(b[i] as u32))
}

/// The result of scaling a parsed unit prefix by `mul`, when it stays in
/// the 64-bit range; otherwise the whole raw string passes through.
pub open spec fn scaled_up(prefix: Option<int>, mul: int, s: Seq<char>) -> CoercedModel {
    match prefix {
        Some(n) => if i64::MIN <= n * mul <= i64::MAX {
            CoercedModel::Number(n * mul)
        } else {
            CoercedModel::Str(s)
        },
        None => CoercedModel::Str(s),
    }
}

/// The result of dividing a parsed unit prefix by `div`, truncating toward
/// zero.
pub open spec fn scaled_down(prefix: Option<int>, div: int, s: Seq<char>) -> CoercedModel {
    match prefix {
        Some(n) => CoercedModel::Number(trunc_div(n, div)),
        None => CoercedModel::Str(s),
    }
}

/// The coercion of a raw value string, clause by clause.
pub open spec fn coerce_spec(s: Seq<char>) -> CoercedModel {
    if parse_i64(s) is Some {
        CoercedModel::Number(parse_i64(s)->Some_0)
    } else if suffix2(s, 't', 'b') {
        scaled_up(parse_i64(s.take(s.len() - 2)), 1000000, s)
    } else if suffix2(s, 'g', 'b') {
        scaled_up(parse_i64(s.take(s.len() - 2)), 1000, s)
    } else if suffix2(s, 'm', 'b') {
        scaled_up(parse_i64(s.take(s.len() - 2)), 1, s)
    } else if suffix2(s, 'k', 'b') {
        scaled_down(parse_i64(s.take(s.len() - 2)), 1000, s)
    } else if suffix1(s, 'b') {
        scaled_down(parse_i64(s.take(s.len() - 1)), 1000000, s)
    } else if ci_eq(s, "true"@) {
        CoercedModel::Bool(true)
    } else if ci_eq(s, "false"@) {
        CoercedModel::Bool(false)
    } else {
        CoercedModel::Str(s)
    }
}

/// The numeric reading of a raw value, when coercion yields a number.
pub open spec fn numeric_value(s: Seq<char>) -> Option<int> {
    match coerce_spec(s) {
        CoercedModel::Number(n) => Some(n),
        _ => None,
    }
}

/// Digit strings denote nonnegative numbers.
proof fn lemma_digits_val_nonneg(s: Seq<char>)
    requires
        all_digits(s),
    ensures
        digits_val(s) >= 0,
    decreases s.len(),
{
    if s.len() > 0 {
        assert(all_digits(s.drop_last()));
        lemma_digits_val_nonneg(s.drop_last());
    }
}

/// Extending a digit string on the right multiplies its value by ten and
/// adds the new digit.
proof fn lemma_digits_val_push(s: Seq<char>, c: char)
    ensures
        digits_val(s.push(c)) == digits_val(s) * 10 + digit_val(c),
{
    assert(s.push(c).drop_last() =~= s);
}

/// A prefix of a digit string never denotes more than the whole string.
proof fn lemma_digits_val_prefix(s: Seq<char>, k: int)
    requires
        all_digits(s),
        0 <= k <= s.len(),
    ensures
        digits_val(s.take(k)) <= digits_val(s),
    decreases s.len(),
{
    if k == s.len() {
        assert(s.take(k) =~= s);
    } else {
        assert(all_digits(s.drop_last()));
        assert(s.drop_last().take(k) =~= s.take(k));
        lemma_digits_val_prefix(s.drop_last(), k);
        lemma_digits_val_nonneg(s.drop_last());
        assert(digits_val(s.drop_last()) * 10 >= digits_val(s.drop_last()));
        assert(digit_val(s.last()) >= 0);
    }
}

/// Parses the digit run of `s` starting at `start`, accumulating a
/// magnitude capped at 2^63; reports whether the run covers the rest of
/// `s` and stays under the cap.
fn parse_magnitude(s: &str, start: usize) -> (r: Option<u64>)
    requires
        start < s@.len(),
    ensures
        match r {
            Some(m) => all_digits(s@.skip(start as int)) && m == digits_val(
                s@.skip(start as int),
            ) && m <= 9223372036854775808u64,
            None => !all_digits(s@.skip(start as int)) || digits_val(s@.skip(start as int))
                > 9223372036854775808u64,
        },
{
    let len = s.unicode_len();
    let mut i: usize = start;
    let mut acc: u64 = 0;
    proof {
        assert(s@.skip(start as int).take(0) =~= Seq::<char>::empty());
    }
    while i < len
        invariant
            start <= i <= len,
            len == s@.len(),
            all_digits(s@.skip(start as int).take(i - start)),
            acc == digits_val(s@.skip(start as int).take(i - start)),
            acc <= 9223372036854775808u64,
        decreases len - i,
    {
        let c = s.get_char(i);
        let u = c as u32;
        if u < 48 || u > 57 {
            proof {
                assert(!is_digit(s@.skip(start as int)[i - start]));
            }
            return None;
        }
        let d = (u - 48) as u64;
        let next = match acc.checked_mul(10) {
            Some(t) => t.checked_add(d),
            None => None,
        };
        proof {
            lemma_digits_val_push(s@.skip(start as int).take(i - start), c);
            assert(s@.skip(start as int).take(i - start).push(c) =~= s@.skip(start as int).take(
                i - start + 1,
            ));
        }
        match next {
            Some(t) => {
                if t > 9223372036854775808u64 {
                    proof {
                        grows_past_cap(s@.skip(start as int), i - start + 1);
                    }
                    return None;
                }
                acc = t;
            },
            None => {
                proof {
                    grows_past_cap(s@.skip(start as int), i - start + 1);
                }
                return None;
            },
        }
        i = i + 1;
    }
    proof {
        assert(s@.skip(start as int).take(i - start) =~= s@.skip(start as int));
    }
    Some(acc)
}

/// If some prefix of the digit run already denotes more than the cap, the
/// whole run does too, or the run is not all digits.
proof fn grows_past_cap(w: Seq<char>, k: int)
    requires
        0 <= k <= w.len(),
        all_digits(w.take(k)),
        digits_val(w.take(k)) > 9223372036854775808,
    ensures
        !all_digits(w) || digits_val(w) > 9223372036854775808,
{
    if all_digits(w) {
        lemma_digits_val_prefix(w, k);
    }
}

/// Parses `s` as a 64-bit signed integer: an optional sign followed by at
/// least one decimal digit, and nothing else.
pub fn parse_i64_str(s: &str) -> (r: Option<i64>)
    ensures
        match r {
            Some(n) => parse_i64(s@) == Some(n as int),
            None => parse_i64(s@) is None,
        },
{
    let len = s.unicode_len();
    if len == 0 {
        return None;
    }
    let c0 = s.get_char(0);
    let signed = (c0 as u32) == 45 || (c0 as u32) == 43;
    let neg = (c0 as u32) == 45;
    proof {
        crate::strutil::lemma_char_eq_u32(c0, '-');
        crate::strutil::lemma_char_eq_u32(c0, '+');
        assert(signed == (s@[0] == '-' || s@[0] == '+'));
        assert(neg == (s@[0] == '-'));
    }
    let start: usize = if signed {
        1
    } else {
        0
    };
    if start == len {
        return None;
    }
    let mag = parse_magnitude(s, start);
    proof {
        if signed {
            assert(s@.skip(1) =~= s@.drop_first());
        } else {
            assert(s@.skip(0) =~= s@);
        }
    }
    match mag {
        None => None,
        Some(m) => {
            if neg {
                if m == 9223372036854775808u64 {
                    Some(i64::MIN)
                } else {
                    Some(-(m as i64))
                }
            } else {
                if m <= 9223372036854775807u64 {
                    Some(m as i64)
                } else {
                    None
                }
            }
        },
    }
}

/// Division of a 64-bit value by a positive divisor, truncating toward
/// zero.
fn div_trunc(n: i64, d: i64) -> (r: i64)
    requires
        d > 0,
    ensures
        r as int == trunc_div(n as int, d as int),
{
    let q = n.checked_div(d);
    proof {
        assert(q is Some);
    }
    q.unwrap()
}

/// Compares `s` and `t` for ASCII-case-insensitive equality.
fn eq_ignore_case(s: &str, t: &str) -> (r: bool)
    ensures
        r == ci_eq(s@, t@),
{
    let slen = s.unicode_len();
    let tlen = t.unicode_len();
    if slen != tlen {
        return false;
    }
    let mut i: usize = 0;
    while i < slen
        invariant
            0 <= i <= slen,
            slen == s@.len(),
            tlen == t@.len(),
            slen == tlen,
            forall|j: int|
                0 <= j < i ==> lower_u32(#[trigger] s@[j] as u32) == lower_u32(t@[j] as u32),
        decreases slen - i,
    {
        let a = s.get_char(i) as u32;
        let b = t.get_char(i) as u32;
        let la = if a >= 65 && a <= 90 {
            a + 32
        } else {
            a
        };
        let lb = if b >= 65 && b <= 90 {
            b + 32
        } else {
            b
        };
        if la != lb {
            return false;
        }
        i = i + 1;
    }
    true
}

/// Coerces a raw attribute value string into a structured value.
pub fn coerce(raw: &str) -> (r: Coerced)
    ensures
        r@ == coerce_spec(raw@),
{
    if let Some(n) = parse_i64_str(raw) {
        return Coerced::Number(n);
    }
    let len = raw.unicode_len();
    if len >= 2 {
        let ch0 = raw.get_char(len - 2);
        let ch1 = raw.get_char(len - 1);
        let c0 = ch0 as u32;
        let c1 = ch1 as u32;
        proof {
            crate::strutil::lemma_char_eq_u32(ch0, 't');
            crate::strutil::lemma_char_eq_u32(ch0, 'g');
            crate::strutil::lemma_char_eq_u32(ch0, 'm');
            crate::strutil::lemma_char_eq_u32(ch0, 'k');
            crate::strutil::lemma_char_eq_u32(ch1, 'b');
        }
        if c1 == 98 {
            if c0 == 116 || c0 == 103 || c0 == 109 || c0 == 107 {
                let prefix = raw.substring_char(0, len - 2);
                let parsed = parse_i64_str(prefix);
                proof {
                    assert(prefix@ =~= raw@.take(raw@.len() - 2));
                }
                let mul: i64 = if c0 == 116 {
                    1000000
                } else if c0 == 103 {
                    1000
                } else {
                    1
                };
                return match parsed {
                    Some(n) => {
                        if c0 == 116 || c0 == 103 || c0 == 109 {
                            match n.checked_mul(mul) {
                                Some(p) => Coerced::Number(p),
                                None => Coerced::Str(raw.to_owned()),
                            }
                        } else {
                            Coerced::Number(div_trunc(n, 1000))
                        }
                    },
                    None => Coerced::Str(raw.to_owned()),
                };
            }
        }
    }
    if len >= 1 {
        let ch1 = raw.get_char(len - 1);
        let c1 = ch1 as u32;
        proof {
            crate::strutil::lemma_char_eq_u32(ch1, 'b');
        }
        if c1 == 98 {
            let prefix = raw.substring_char(0, len - 1);
            let parsed = parse_i64_str(prefix);
            proof {
                assert(prefix@ =~= raw@.take(raw@.len() - 1));
            }
            return match parsed {
                Some(n) => Coerced::Number(div_trunc(n, 1000000)),
                None => Coerced::Str(raw.to_owned()),
            };
        }
    }
    if eq_ignore_case(raw, "true") {
        return Coerced::Bool(true);
    }
    if eq_ignore_case(raw, "false") {
        return Coerced::Bool(false);
    }
    Coerced::Str(raw.to_owned())
}

/// The numeric reading of a raw value string, when there is one.
pub fn as_number(raw: &str) -> (r: Option<i64>)
    ensures
        match r {
            Some(n) => numeric_value(raw@) == Some(n as int),
            None => numeric_value(raw@) is None,
        },
{
    match coerce(raw) {
        Coerced::Number(n) => Some(n),
        _ => None,
    }
}

} // verus!
