//! Reading one field: the trimmed text of a fixed-width slice of a data line
//! is read as the kind of value its descriptor names.
use vstd::prelude::*;

use super::frmtstngerror::{Failure, ParseFortranFormattedError};
use super::is_first;
use super::text::{
    all_digits, digits_value, is_digit, is_digit_char, is_numeral, lower, lower_char, parse_digits,
};
use vstd::string::StringExecFns;
use vstd::string::StrSliceExecFns;

verus! {

/// An exact decimal number as written in a field: the number that `digits`
/// (decimal digits, most significant first, with no decimal point) denote,
/// times 10^(-`scale`), negated where `negative`. Digits of any length are
/// kept. The digits keep any leading or trailing zeros as written, so `==`
/// compares the written form: `1.5` and `1.50` are the same number but not
/// equal `Decimal`s.
#[derive(Debug, Clone, PartialEq, Eq)]
pub struct Decimal {
    pub negative: bool,
    pub digits: String,
    pub scale: usize,
}

/// One value read from a field.
#[derive(Debug, Clone, PartialEq)]
pub enum ParsedValue {
    /// A real number, kept exactly as written.
    Fl(Decimal),
    In(i32),
    Lo(bool),
    St(String),
}

/// The mathematical value of a [`ParsedValue`].
pub enum Value {
    Float { negative: bool, digits: Seq<char>, scale: nat },
    Integer(int),
    Logical(bool),
    Text(Seq<char>),
}

impl View for ParsedValue {
    type V = Value;

    open spec fn view(&self) -> Value {
        match self {
            ParsedValue::Fl(d) => Value::Float {
                negative: d.negative,
                digits: d.digits@,
                scale: d.scale as nat,
            },
            ParsedValue::In(n) => Value::Integer(*n as int),
            ParsedValue::Lo(b) => Value::Logical(*b),
            ParsedValue::St(s) => Value::Text(s@),
        }
    }
}

/// `t` without a leading sign.
pub open spec fn unsigned_part(t: Seq<char>) -> Seq<char> {
    if t.len() > 0 && (t[0] == '-' || t[0] == '+') {
        t.drop_first()
    } else {
        t
    }
}

pub open spec fn is_negative(t: Seq<char>) -> bool {
    t.len() > 0 && t[0] == '-'
}

pub open spec fn signed(t: Seq<char>, magnitude: nat) -> int {
    if is_negative(t) {
        -magnitude
    } else {
        magnitude as int
    }
}

/// An optionally signed run of digits, as an integer.
pub open spec fn integer_model(t: Seq<char>) -> Option<int> {
    let body = unsigned_part(t);
    if is_numeral(body) {
        Some(signed(t, digits_value(body)))
    } else {
        None
    }
}

/// An optionally signed real number as `(digits, scale)`: with a decimal
/// point, the digits on both sides, and the number of those after it; without
/// one, the digits and `decimals`.
pub open spec fn real_model(t: Seq<char>, decimals: nat) -> Option<(Seq<char>, nat)> {
    let body = unsigned_part(t);
    if exists|d: int| is_first(body, '.', d) {
        let d = choose|d: int| is_first(body, '.', d);
        let digits = body.take(d) + body.skip(d + 1);
        if is_numeral(digits) {
            Some((digits, (body.len() - d - 1) as nat))
        } else {
            None
        }
    } else if is_numeral(body) {
        Some((body, decimals))
    } else {
        None
    }
}

/// The spellings of true and false that a logical field may hold, in any case.
pub open spec fn logical_model(t: Seq<char>) -> Option<bool> {
    let u = t.map_values(|c: char| lower(c));
    if u == seq!['t'] || u == seq!['t', 'r', 'u', 'e'] || u == seq!['.', 't', '.'] || u == seq![
        '.',
        't',
        'r',
        'u',
        'e',
        '.',
    ] {
        Some(true)
    } else if u == seq!['f'] || u == seq!['f', 'a', 'l', 's', 'e'] || u == seq!['.', 'f', '.']
        || u == seq!['.', 'f', 'a', 'l', 's', 'e', '.'] {
        Some(false)
    } else {
        None
    }
}

pub open spec fn fits_i32(n: int) -> bool {
    i32::MIN <= n <= i32::MAX
}

/// What the trimmed text `t` of one field of kind `kind` yields: a value, no
/// value (a skip field), or the failure.
pub open spec fn field_model(kind: char, decimals: nat, t: Seq<char>) -> Result<Option<Value>, Failure> {
    if kind == 'x' {
        Ok(None)
    } else if kind == 'a' {
        Ok(Some(Value::Text(t)))
    } else if t.len() == 0 {
        Err(Failure::EmptyField)
    } else if kind == 'i' {
        match integer_model(t) {
            Some(n) if fits_i32(n) => Ok(Some(Value::Integer(n))),
            _ => Err(Failure::NumericParseFailure),
        }
    } else if kind == 'f' {
        match real_model(t, decimals) {
            Some((ds, s)) => Ok(Some(Value::Float { negative: is_negative(t), digits: ds, scale: s })),
            None => Err(Failure::NumericParseFailure),
        }
    } else {
        match logical_model(t) {
            Some(b) => Ok(Some(Value::Logical(b))),
            None => Err(Failure::InvalidLogical),
        }
    }
}

/// The mathematical value of the outcome of reading one field.
pub open spec fn field_outcome(r: Result<Option<ParsedValue>, ParseFortranFormattedError>) -> Result<
    Option<Value>,
    Failure,
> {
    match r {
        Ok(Some(x)) => Ok(Some(x@)),
        Ok(None) => Ok(None),
        Err(e) => Err(e@),
    }
}

/// Where the digits of `v[lo..hi]` start, past an optional sign, and whether
/// the sign is `-`.
fn sign_of(v: &Vec<char>, lo: usize, hi: usize) -> (r: (usize, bool))
    requires
        lo < hi <= v@.len(),
    ensures
        ({
            let t = v@.subrange(lo as int, hi as int);
            &&& lo <= r.0 <= hi
            &&& v@.subrange(r.0 as int, hi as int) == unsigned_part(t)
            &&& r.1 == is_negative(t)
        }),
{
    let ghost t = v@.subrange(lo as int, hi as int);
    let c = v[lo];
    if c == '-' || c == '+' {
        assert(t.drop_first() =~= v@.subrange(lo + 1, hi as int));
        (lo + 1, c == '-')
    } else {
        (lo, false)
    }
}

/// Reads the integer field text `v[lo..hi]`.
fn read_integer(v: &Vec<char>, lo: usize, hi: usize) -> (r: Option<i32>)
    requires
        lo < hi <= v@.len(),
    ensures
        ({
            let t = v@.subrange(lo as int, hi as int);
            match integer_model(t) {
                Some(n) if fits_i32(n) => r == Some(n as i32),
                _ => r is None,
            }
        }),
{
    let (start, negative) = sign_of(v, lo, hi);
    match parse_digits(v, start, hi) {
        Some(m) => {
            if negative {
                if m < 2147483648 {
                    Some(-(m as i32))
                } else if m == 2147483648 {
                    Some(i32::MIN)
                } else {
                    None
                }
            } else if m <= 2147483647 {
                Some(m as i32)
            } else {
                None
            }
        },
        None => None,
    }
}

/// Whether `v[a..b]` is all decimal digits.
fn all_digits_in(v: &Vec<char>, a: usize, b: usize) -> (r: bool)
    requires
        a <= b <= v@.len(),
    ensures
        r == all_digits(v@.subrange(a as int, b as int)),
{
    let mut i = a;
    while i < b
        invariant
            a <= i <= b <= v@.len(),
            forall|j: int| a <= j < i ==> is_digit(#[trigger] v@[j]),
        decreases b - i,
    {
        if !is_digit_char(v[i]) {
            assert(v@.subrange(a as int, b as int)[i - a] == v@[i as int]);
            return false;
        }
        i = i + 1;
    }
    assert forall|j: int| 0 <= j < b - a implies is_digit(#[trigger] v@.subrange(a as int, b as int)[j]) by {
        assert(v@.subrange(a as int, b as int)[j] == v@[a + j]);
    }
    true
}

/// Reads the real field text `v[lo..hi]` (the characters of `line`), with
/// `decimals` implied decimals where it holds no decimal point.
fn read_real(line: &str, v: &Vec<char>, lo: usize, hi: usize, decimals: usize) -> (r: Option<Decimal>)
    requires
        lo < hi <= v@.len(),
        v@ == line@,
    ensures
        ({
            let t = v@.subrange(lo as int, hi as int);
            match real_model(t, decimals as nat) {
                Some((ds, s)) => r matches Some(d) && d.negative == is_negative(t) && d.digits@ == ds
                    && d.scale == s,
                None => r is None,
            }
        }),
{
    let (start, negative) = sign_of(v, lo, hi);
    let ghost body = v@.subrange(start as int, hi as int);
    let mut d = start;
    while d < hi && v[d] != '.'
        invariant
            start <= d <= hi <= v@.len(),
            body == v@.subrange(start as int, hi as int),
            forall|j: int| 0 <= j < d - start ==> body[j] != '.',
        decreases hi - d,
    {
        d = d + 1;
    }
    if d < hi {
        let ghost dd = d - start;
        assert(is_first(body, '.', dd));
        assert(forall|d2: int| is_first(body, '.', d2) ==> d2 == dd);
        let ghost whole = v@.subrange(start as int, d as int);
        let ghost part = v@.subrange(d + 1, hi as int);
        assert(body.take(dd) =~= whole);
        assert(body.skip(dd + 1) =~= part);
        let left = all_digits_in(v, start, d);
        let right = all_digits_in(v, d + 1, hi);
        proof {
            let joined = whole + part;
            if left && right {
                assert forall|j: int| 0 <= j < joined.len() implies is_digit(#[trigger] joined[j]) by {
                    if j < whole.len() {
                        assert(joined[j] == whole[j]);
                    } else {
                        assert(joined[j] == part[j - whole.len()]);
                    }
                }
            } else if !left {
                let j = choose|j: int| 0 <= j < whole.len() && !is_digit(#[trigger] whole[j]);
                assert(joined[j] == whole[j]);
            } else {
                let j = choose|j: int| 0 <= j < part.len() && !is_digit(#[trigger] part[j]);
                assert(joined[whole.len() + j] == part[j]);
            }
        }
        if !(left && right && hi - start > 1) {
            return None;
        }
        let mut digits = line.substring_char(start, d).to_owned();
        digits.append(line.substring_char(d + 1, hi));
        Some(Decimal { negative, digits, scale: hi - d - 1 })
    } else {
        assert(!(exists|d2: int| is_first(body, '.', d2)));
        if !(start < hi && all_digits_in(v, start, hi)) {
            return None;
        }
        Some(Decimal { negative, digits: line.substring_char(start, hi).to_owned(), scale: decimals })
    }
}

fn equals_word(u: &Vec<char>, w: &Vec<char>) -> (r: bool)
    ensures
        r == (u@ == w@),
{
    if u.len() != w.len() {
        return false;
    }
    let mut i: usize = 0;
    while i < u.len()
        invariant
            u@.len() == w@.len(),
            i <= u@.len(),
            forall|j: int| 0 <= j < i ==> u@[j] == w@[j],
        decreases u@.len() - i,
    {
        if u[i] != w[i] {
            return false;
        }
        i = i + 1;
    }
    assert(u@ =~= w@);
    true
}

/// Reads the logical field text `v[lo..hi]`.
fn read_logical(v: &Vec<char>, lo: usize, hi: usize) -> (r: Option<bool>)
    requires
        lo <= hi <= v@.len(),
    ensures
        r == logical_model(v@.subrange(lo as int, hi as int)),
{
    let ghost t = v@.subrange(lo as int, hi as int);
    let mut u: Vec<char> = Vec::new();
    let mut i = lo;
    while i < hi
        invariant
            lo <= i <= hi <= v@.len(),
            t == v@.subrange(lo as int, hi as int),
            u@ == t.take(i - lo).map_values(|c: char| lower(c)),
        decreases hi - i,
    {
        u.push(lower_char(v[i]));
        assert(u@ =~= t.take(i + 1 - lo).map_values(|c: char| lower(c)));
        i = i + 1;
    }
    assert(t.take(hi - lo) =~= t);
    let t0 = vec!['t'];
    assert(t0@ =~= seq!['t']);
    let t1 = vec!['t', 'r', 'u', 'e'];
    assert(t1@ =~= seq!['t', 'r', 'u', 'e']);
    let t2 = vec!['.', 't', '.'];
    assert(t2@ =~= seq!['.', 't', '.']);
    let t3 = vec!['.', 't', 'r', 'u', 'e', '.'];
    assert(t3@ =~= seq!['.', 't', 'r', 'u', 'e', '.']);
    let f0 = vec!['f'];
    assert(f0@ =~= seq!['f']);
    let f1 = vec!['f', 'a', 'l', 's', 'e'];
    assert(f1@ =~= seq!['f', 'a', 'l', 's', 'e']);
    let f2 = vec!['.', 'f', '.'];
    assert(f2@ =~= seq!['.', 'f', '.']);
    let f3 = vec!['.', 'f', 'a', 'l', 's', 'e', '.'];
    assert(f3@ =~= seq!['.', 'f', 'a', 'l', 's', 'e', '.']);
    let is_true = equals_word(&u, &t0) || equals_word(&u, &t1) || equals_word(&u, &t2)
        || equals_word(&u, &t3);
    let is_false = equals_word(&u, &f0) || equals_word(&u, &f1) || equals_word(&u, &f2)
        || equals_word(&u, &f3);
    if is_true {
        Some(true)
    } else if is_false {
        Some(false)
    } else {
        None
    }
}

/// Reads the trimmed text `v[lo..hi]` of one field of kind `kind`.
pub(crate) fn decode_field(kind: char, decimals: usize, line: &str, v: &Vec<char>, lo: usize, hi: usize) -> (r:
    Result<Option<ParsedValue>, ParseFortranFormattedError>)
    requires
        lo <= hi <= v@.len(),
        v@ == line@,
    ensures
        field_outcome(r) == field_model(kind, decimals as nat, v@.subrange(lo as int, hi as int)),
{
    if kind == 'x' {
        Ok(None)
    } else if kind == 'a' {
        Ok(Some(ParsedValue::St(line.substring_char(lo, hi).to_owned())))
    } else if lo == hi {
        Err(ParseFortranFormattedError::EmptyField)
    } else if kind == 'i' {
        match read_integer(v, lo, hi) {
            Some(n) => Ok(Some(ParsedValue::In(n))),
            None => Err(ParseFortranFormattedError::NumericParseFailure),
        }
    } else if kind == 'f' {
        match read_real(line, v, lo, hi, decimals) {
            Some(d) => Ok(Some(ParsedValue::Fl(d))),
            None => Err(ParseFortranFormattedError::NumericParseFailure),
        }
    } else {
        match read_logical(v, lo, hi) {
            Some(b) => Ok(Some(ParsedValue::Lo(b))),
            None => Err(ParseFortranFormattedError::InvalidLogical),
        }
    }
}

} // verus!
