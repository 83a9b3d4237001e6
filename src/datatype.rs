use vstd::prelude::*;
use vstd::string::StrSliceExecFns;

use crate::text::{lower_of, lowercase, remove_quotes, strip_quotes};

verus! {

/// The mathematical value of one cell.
pub enum Scalar {
    Absent,
    Bool(bool),
    Int(int),
    /// A decimal number, as the characters it was written with.
    Float(Seq<char>),
    Text(Seq<char>),
}

/// One typed cell of a table.
///
/// A decimal number keeps the characters it was written with, which always
/// match `[-+]?[0-9]*\.[0-9]+`; converting it to a machine float is left to
/// the caller.
#[derive(Debug, PartialEq, Clone)]
pub enum DataType {
    Null,
    Bool(bool),
    Int(i32),
    Float(String),
    Text(String),
}

impl View for DataType {
    type V = Scalar;

    open spec fn view(&self) -> Scalar {
        match self {
            DataType::Null => Scalar::Absent,
            DataType::Bool(b) => Scalar::Bool(*b),
            DataType::Int(i) => Scalar::Int(*i as int),
            DataType::Float(t) => Scalar::Float(t@),
            DataType::Text(t) => Scalar::Text(t@),
        }
    }
}

impl DataType {
    /// A copy of the cell with the same value.
    pub fn duplicate(&self) -> (r: DataType)
        ensures
            r@ == self@,
    {
        match self {
            DataType::Null => DataType::Null,
            DataType::Bool(b) => DataType::Bool(*b),
            DataType::Int(i) => DataType::Int(*i),
            DataType::Float(t) => DataType::Float(t.clone()),
            DataType::Text(t) => DataType::Text(t.clone()),
        }
    }
}

pub const BOOL_PATTERN: &'static str = "^(true|false)$";

pub const INT_PATTERN: &'static str = "^-?[0-9]+$";

pub const FLOAT_PATTERN: &'static str = "^[-+]?[0-9]*\\.[0-9]+$";

pub open spec fn is_digit(c: char) -> bool {
    '0' <= c && c <= '9'
}

pub open spec fn all_digits(s: Seq<char>, lo: int, hi: int) -> bool {
    forall|i: int| lo <= i < hi ==> #[trigger] is_digit(s[i])
}

pub open spec fn true_word() -> Seq<char> {
    seq!['t', 'r', 'u', 'e']
}

pub open spec fn false_word() -> Seq<char> {
    seq!['f', 'a', 'l', 's', 'e']
}

/// The language of `BOOL_PATTERN`.
pub open spec fn is_bool_word(s: Seq<char>) -> bool {
    s == true_word() || s == false_word()
}

/// Where the digits of an integer start: after a leading minus sign.
pub open spec fn int_start(s: Seq<char>) -> int {
    if s.len() > 0 && s[0] == '-' {
        1
    } else {
        0
    }
}

/// The language of `INT_PATTERN`: an optional minus sign, then one or more
/// digits.
pub open spec fn is_int_token(s: Seq<char>) -> bool {
    int_start(s) < s.len() && all_digits(s, int_start(s), s.len() as int)
}

/// Where the digits of a decimal start: after a leading sign.
pub open spec fn float_start(s: Seq<char>) -> int {
    if s.len() > 0 && (s[0] == '-' || s[0] == '+') {
        1
    } else {
        0
    }
}

/// Whether position `p` of `s` holds the point of a decimal: digits
/// (possibly none) after the sign before it, at least one digit after it.
pub open spec fn is_point(s: Seq<char>, p: int) -> bool {
    float_start(s) <= p && p + 1 < s.len() && s[p] == '.' && all_digits(s, float_start(s), p)
        && all_digits(s, p + 1, s.len() as int)
}

/// The language of `FLOAT_PATTERN`: an optional sign, digits (possibly
/// none), a point, and at least one digit.
pub open spec fn is_float_token(s: Seq<char>) -> bool {
    exists|p: int| #[trigger] is_point(s, p)
}

pub open spec fn digit_value(c: char) -> int {
    c as int - '0' as int
}

/// The number that a sequence of decimal digits denotes.
pub open spec fn digits_value(s: Seq<char>) -> int
    decreases s.len(),
{
    if s.len() == 0 {
        0
    } else {
        digits_value(s.drop_last()) * 10 + digit_value(s.last())
    }
}

/// The number that an integer token denotes.
pub open spec fn int_value(s: Seq<char>) -> int {
    if int_start(s) == 1 {
        -digits_value(s.subrange(1, s.len() as int))
    } else {
        digits_value(s)
    }
}

pub open spec fn fits_i32(v: int) -> bool {
    i32::MIN <= v <= i32::MAX
}

/// A cell whose decimal, if it is one, is written as `FLOAT_PATTERN` asks.
pub open spec fn well_formed(x: Scalar) -> bool {
    x matches Scalar::Float(t) ==> is_float_token(t)
}

/// The type inferred for a token `s` whose lower case is `lowered`:
/// a boolean word in any case, then an integer that fits 32 bits, then a
/// decimal, and otherwise text without its double quotes. An integer token
/// too large for 32 bits is text.
pub open spec fn infer(s: Seq<char>, lowered: Seq<char>) -> Scalar {
    if is_bool_word(lowered) {
        Scalar::Bool(lowered == true_word())
    } else if is_int_token(s) && fits_i32(int_value(s)) {
        Scalar::Int(int_value(s))
    } else if is_float_token(s) {
        Scalar::Float(s)
    } else {
        Scalar::Text(strip_quotes(s))
    }
}

/// Relies on regex::Regex::new and regex::Regex::is_match: each of the three
/// patterns compiles, and being anchored at both ends, matches exactly the
/// texts of its language.
#[verifier::external_body]
fn pattern_matches(pattern: &str, s: &str) -> (r: bool)
    requires
        pattern@ == BOOL_PATTERN@ || pattern@ == INT_PATTERN@ || pattern@ == FLOAT_PATTERN@,
    ensures
        pattern@ == BOOL_PATTERN@ ==> r == is_bool_word(s@),
        pattern@ == INT_PATTERN@ ==> r == is_int_token(s@),
        pattern@ == FLOAT_PATTERN@ ==> r == is_float_token(s@),
{
    regex::Regex::new(pattern).unwrap().is_match(s)
}

proof fn lemma_digits_value_nonneg(s: Seq<char>)
    requires
        all_digits(s, 0, s.len() as int),
    ensures
        digits_value(s) >= 0,
    decreases s.len(),
{
    if s.len() > 0 {
        assert forall|i: int| 0 <= i < s.len() - 1 implies #[trigger] is_digit(s.drop_last()[i]) by {
            assert(is_digit(s[i]));
        }
        lemma_digits_value_nonneg(s.drop_last());
        assert(is_digit(s[s.len() - 1]));
    }
}

/// A longer run of digits denotes a number at least as large.
proof fn lemma_digits_value_grows(s: Seq<char>, lo: int, j: int, k: int)
    requires
        0 <= lo <= j <= k <= s.len(),
        all_digits(s, lo, k),
    ensures
        digits_value(s.subrange(lo, j)) <= digits_value(s.subrange(lo, k)),
    decreases k - j,
{
    if j < k {
        lemma_digits_value_grows(s, lo, j, k - 1);
        assert(s.subrange(lo, k).drop_last() =~= s.subrange(lo, k - 1));
        let prev = s.subrange(lo, k - 1);
        assert forall|i: int| 0 <= i < prev.len() implies #[trigger] is_digit(prev[i]) by {
            assert(is_digit(s[lo + i]));
        }
        lemma_digits_value_nonneg(prev);
        assert(is_digit(s[k - 1]));
        let v = digits_value(prev);
        assert(v * 10 >= v) by (nonlinear_arith)
            requires
                v >= 0,
        ;
    }
}

/// The value of an integer token, where it fits 32 bits.
fn parse_int(s: &str) -> (r: Option<i32>)
    requires
        is_int_token(s@),
    ensures
        r is Some <==> fits_i32(int_value(s@)),
        r matches Some(v) ==> v as int == int_value(s@),
{
    let n = s.unicode_len();
    let negative = s.get_char(0) == '-';
    let start: usize = if negative {
        1
    } else {
        0
    };
    let mut acc: i64 = 0;
    let mut i: usize = start;
    while i < n
        invariant
            n == s@.len(),
            start == int_start(s@),
            negative == (start == 1),
            start <= i <= n,
            is_int_token(s@),
            0 <= acc <= 2147483648,
            acc == digits_value(s@.subrange(start as int, i as int)),
        decreases n - i,
    {
        let c = s.get_char(i);
        assert(is_digit(s@[i as int]));
        assert(s@.subrange(start as int, i + 1).drop_last() =~= s@.subrange(
            start as int,
            i as int,
        ));
        let next = acc * 10 + (c as i64 - '0' as i64);
        if next > 2147483648 {
            proof {
                lemma_digits_value_grows(s@, start as int, i + 1, n as int);
                assert(s@.subrange(0, n as int) =~= s@);
            }
            return None;
        }
        acc = next;
        i = i + 1;
    }
    assert(s@.subrange(0, n as int) =~= s@);
    if negative {
        Some((-acc) as i32)
    } else if acc > 2147483647 {
        None
    } else {
        Some(acc as i32)
    }
}

/// The type of a token, given the token and its lower case.
pub fn classify(s: &str, lowered: &str) -> (r: DataType)
    ensures
        r@ == infer(s@, lowered@),
{
    if pattern_matches(BOOL_PATTERN, lowered) {
        let is_true = lowered.get_char(0) == 't';
        assert(is_true == (lowered@ == true_word()));
        DataType::Bool(is_true)
    } else {
        let int_like = pattern_matches(INT_PATTERN, s);
        let parsed = if int_like {
            parse_int(s)
        } else {
            None
        };
        match parsed {
            Some(v) => DataType::Int(v),
            None => {
                if pattern_matches(FLOAT_PATTERN, s) {
                    DataType::Float(s.to_string())
                } else {
                    DataType::Text(remove_quotes(s))
                }
            },
        }
    }
}

/// Infers the type of one data cell. No white space is trimmed.
pub fn predict_type(s: &str) -> (r: DataType)
    ensures
        r@ == infer(s@, lower_of(s@)),
{
    let lowered = lowercase(s);
    classify(s, lowered.as_str())
}

} // verus!
