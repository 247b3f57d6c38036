//! Format descriptors: a header such as `(3I5,1X,10F8.3)` names, token by
//! token, how many times a field repeats, what it holds and how many
//! characters it spans on a data line.
pub mod field;
pub mod frmtstngerror;
pub mod laws;
pub mod record;
pub mod text;

pub use self::field::{Decimal, ParsedValue};
pub use self::record::{decode_line, decode_stream, parse_fortran_formatted_lines};

use vstd::prelude::*;

use self::frmtstngerror::{Failure, FieldFault, ParseFortranFormattedError};
use self::text::{
    chars_of, digits_value, is_letter, is_letter_char, is_numeral, lower, lower_char,
    parse_digits, trim, trim_range,
};
use vstd::string::StrSliceExecFns;

verus! {

/// One descriptor token: `rep` consecutive fields of kind `kind`, each `fw`
/// characters wide; `suffix` is the number of implied decimals of a float.
#[derive(Debug, Clone, PartialEq, Eq)]
pub struct FortranFormat {
    /// How many times the field repeats (0 and 1 both mean once).
    pub rep: usize,
    /// The kind, in lower case: one of `i`, `f`, `l`, `a`, `x`.
    pub kind: String,
    /// The width of one field in characters.
    pub fw: usize,
    /// For `f`, the decimals implied when a field holds no `.`.
    pub suffix: usize,
}

/// The mathematical value of a [`FortranFormat`].
pub struct FieldSpec {
    pub repeat: nat,
    pub kind: char,
    pub width: nat,
    pub decimals: nat,
}

/// The kind letters of the grammar: integer, float, logical, text, skip.
pub open spec fn is_kind(c: char) -> bool {
    c == 'i' || c == 'f' || c == 'l' || c == 'a' || c == 'x'
}

impl View for FortranFormat {
    type V = FieldSpec;

    open spec fn view(&self) -> FieldSpec {
        FieldSpec {
            repeat: self.rep as nat,
            kind: self.kind@[0],
            width: self.fw as nat,
            decimals: self.suffix as nat,
        }
    }
}

impl FortranFormat {
    /// A well-formed descriptor: a single known kind letter and a positive width.
    pub open spec fn wf(&self) -> bool {
        &&& self.kind@.len() == 1
        &&& is_kind(self.kind@[0])
        &&& self.fw > 0
    }

    pub fn new(rep: usize, kind: String, fw: usize, suffix: usize) -> (r: Self)
        ensures
            r.rep == rep,
            r.kind@ == kind@,
            r.fw == fw,
            r.suffix == suffix,
    {
        FortranFormat { rep, kind, fw, suffix }
    }
}

/// The descriptors of a sequence of [`FortranFormat`]s.
pub open spec fn specs_of(v: Seq<FortranFormat>) -> Seq<FieldSpec> {
    v.map_values(|f: FortranFormat| f@)
}

pub open spec fn all_wf(v: Seq<FortranFormat>) -> bool {
    forall|i: int| 0 <= i < v.len() ==> (#[trigger] v[i]).wf()
}

/// `k` is the position of the first `c` in `s`.
pub open spec fn is_first(s: Seq<char>, c: char, k: int) -> bool {
    &&& 0 <= k < s.len()
    &&& s[k] == c
    &&& forall|j: int| 0 <= j < k ==> s[j] != c
}

/// `k` is the position of the first letter in `s`.
pub open spec fn is_first_letter(s: Seq<char>, k: int) -> bool {
    &&& 0 <= k < s.len()
    &&& is_letter(s[k])
    &&& forall|j: int| 0 <= j < k ==> !is_letter(s[j])
}

/// A numeral whose value fits in a `usize`.
pub open spec fn is_count(s: Seq<char>) -> bool {
    is_numeral(s) && digits_value(s) <= usize::MAX
}

/// What a token `[repeat] kind [width ['.' decimals]]` describes. An absent or
/// zero repeat means one field; an absent width means one character.
pub open spec fn token_model(t: Seq<char>) -> Result<FieldSpec, FieldFault> {
    if !(exists|k: int| is_first_letter(t, k)) {
        Err(FieldFault::NoKind)
    } else {
        let k = choose|k: int| is_first_letter(t, k);
        let count = t.take(k);
        let c = lower(t[k]);
        let rest = t.skip(k + 1);
        let repeat: nat = if count.len() == 0 || digits_value(count) == 0 {
            1
        } else {
            digits_value(count)
        };
        if count.len() > 0 && !is_count(count) {
            Err(FieldFault::BadRepeat)
        } else if !is_kind(c) {
            Err(FieldFault::UnknownKind)
        } else if rest.len() == 0 {
            Ok(FieldSpec { repeat, kind: c, width: 1, decimals: 0 })
        } else {
            let has_dot = exists|d: int| is_first(rest, '.', d);
            let d = choose|d: int| is_first(rest, '.', d);
            let width_text = if has_dot {
                rest.take(d)
            } else {
                rest
            };
            let decimals_text = rest.skip(d + 1);
            if !is_count(width_text) {
                Err(FieldFault::BadWidth)
            } else if digits_value(width_text) == 0 {
                Err(FieldFault::ZeroWidth)
            } else if !has_dot {
                Ok(FieldSpec { repeat, kind: c, width: digits_value(width_text), decimals: 0 })
            } else if c != 'f' {
                Err(FieldFault::DecimalsNotAllowed)
            } else if !is_count(decimals_text) {
                Err(FieldFault::BadDecimals)
            } else {
                Ok(
                    FieldSpec {
                        repeat,
                        kind: c,
                        width: digits_value(width_text),
                        decimals: digits_value(decimals_text),
                    },
                )
            }
        }
    }
}

/// Reads `v[a..b]` as a count; `None` unless [`is_count`] holds of it.
fn parse_count(v: &Vec<char>, a: usize, b: usize) -> (r: Option<usize>)
    requires
        a <= b <= v@.len(),
    ensures
        ({
            let s = v@.subrange(a as int, b as int);
            r == if is_count(s) {
                Some(digits_value(s) as usize)
            } else {
                None::<usize>
            }
        }),
{
    match parse_digits(v, a, b) {
        Some(n) => {
            if n <= usize::MAX as u64 {
                Some(n as usize)
            } else {
                None
            }
        },
        None => None,
    }
}

/// The lower-case kind letter as a string.
fn kind_name(c: char) -> (r: String)
    requires
        is_kind(c),
    ensures
        r@ == seq![c],
{
    proof {
        reveal_strlit("i");
        reveal_strlit("f");
        reveal_strlit("l");
        reveal_strlit("a");
        reveal_strlit("x");
    }
    if c == 'i' {
        "i".to_string()
    } else if c == 'f' {
        "f".to_string()
    } else if c == 'l' {
        "l".to_string()
    } else if c == 'a' {
        "a".to_string()
    } else {
        "x".to_string()
    }
}

/// Parses the token `v[a..b]`.
fn parse_token(v: &Vec<char>, a: usize, b: usize) -> (r: Result<FortranFormat, FieldFault>)
    requires
        a <= b <= v@.len(),
    ensures
        ({
            let t = v@.subrange(a as int, b as int);
            match r {
                Ok(f) => token_model(t) == Ok::<FieldSpec, FieldFault>(f@) && f.wf(),
                Err(e) => token_model(t) == Err::<FieldSpec, FieldFault>(e),
            }
        }),
{
    let ghost t = v@.subrange(a as int, b as int);
    let mut k = a;
    while k < b && !is_letter_char(v[k])
        invariant
            a <= k <= b <= v@.len(),
            t == v@.subrange(a as int, b as int),
            forall|j: int| 0 <= j < k - a ==> !is_letter(t[j]),
        decreases b - k,
    {
        k = k + 1;
    }
    if k == b {
        assert(!(exists|k2: int| is_first_letter(t, k2)));
        return Err(FieldFault::NoKind);
    }
    let ghost kk = k - a;
    assert(is_first_letter(t, kk));
    assert(forall|k2: int| is_first_letter(t, k2) ==> k2 == kk);
    assert(t.take(kk) =~= v@.subrange(a as int, k as int));
    assert(t.skip(kk + 1) =~= v@.subrange(k + 1, b as int));
    let repeat: usize = if k == a {
        1
    } else {
        match parse_count(v, a, k) {
            Some(n) => if n == 0 {
                1
            } else {
                n
            },
            None => {
                return Err(FieldFault::BadRepeat);
            },
        }
    };
    let c = lower_char(v[k]);
    if !(c == 'i' || c == 'f' || c == 'l' || c == 'a' || c == 'x') {
        return Err(FieldFault::UnknownKind);
    }
    if k + 1 == b {
        return Ok(FortranFormat { rep: repeat, kind: kind_name(c), fw: 1, suffix: 0 });
    }
    let ghost rest = t.skip(kk + 1);
    let mut d = k + 1;
    while d < b && v[d] != '.'
        invariant
            k + 1 <= d <= b <= v@.len(),
            rest == v@.subrange(k + 1, b as int),
            forall|j: int| 0 <= j < d - (k + 1) ==> rest[j] != '.',
        decreases b - d,
    {
        d = d + 1;
    }
    let ghost dd = d - (k + 1);
    if d < b {
        assert(is_first(rest, '.', dd));
        assert(forall|d2: int| is_first(rest, '.', d2) ==> d2 == dd);
        assert(rest.take(dd) =~= v@.subrange(k + 1, d as int));
        assert(rest.skip(dd + 1) =~= v@.subrange(d + 1, b as int));
    } else {
        assert(!(exists|d2: int| is_first(rest, '.', d2)));
    }
    let fw = match parse_count(v, k + 1, d) {
        Some(n) => n,
        None => {
            return Err(FieldFault::BadWidth);
        },
    };
    if fw == 0 {
        return Err(FieldFault::ZeroWidth);
    }
    if d == b {
        return Ok(FortranFormat { rep: repeat, kind: kind_name(c), fw, suffix: 0 });
    }
    if c != 'f' {
        return Err(FieldFault::DecimalsNotAllowed);
    }
    match parse_count(v, d + 1, b) {
        Some(n) => Ok(FortranFormat { rep: repeat, kind: kind_name(c), fw, suffix: n }),
        None => Err(FieldFault::BadDecimals),
    }
}

/// The pieces of `s` between occurrences of `c`, in order.
pub open spec fn split_on(s: Seq<char>, c: char) -> Seq<Seq<char>>
    decreases s.len(),
{
    if exists|k: int| is_first(s, c, k) {
        let k = choose|k: int| is_first(s, c, k);
        seq![s.take(k)] + split_on(s.skip(k + 1), c)
    } else {
        seq![s]
    }
}

/// The descriptors of a list of tokens, or the failure of the first token
/// that does not match the grammar.
pub open spec fn fields_model(ts: Seq<Seq<char>>) -> Result<Seq<FieldSpec>, Failure>
    decreases ts.len(),
{
    if ts.len() == 0 {
        Ok(Seq::empty())
    } else {
        match fields_model(ts.drop_last()) {
            Err(e) => Err(e),
            Ok(fs) => match token_model(ts.last()) {
                Ok(f) => Ok(fs.push(f)),
                Err(reason) => Err(Failure::MalformedField { token: ts.last(), reason }),
            },
        }
    }
}

/// `t` starts with `(` and ends with `)`.
pub open spec fn is_enclosed(t: Seq<char>) -> bool {
    t.len() >= 2 && t[0] == '(' && t.last() == ')'
}

/// What a header line describes: the descriptors of the comma-separated
/// tokens between the enclosing parentheses.
pub open spec fn header_model(s: Seq<char>) -> Result<Seq<FieldSpec>, Failure> {
    let t = trim(s);
    if !is_enclosed(t) {
        Err(Failure::MalformedHeader)
    } else {
        fields_model(split_on(t.subrange(1, t.len() - 1), ','))
    }
}

/// The mathematical value of the outcome of parsing a header.
pub open spec fn formats_outcome(r: Result<Vec<FortranFormat>, ParseFortranFormattedError>) -> Result<
    Seq<FieldSpec>,
    Failure,
> {
    match r {
        Ok(v) => Ok(specs_of(v@)),
        Err(e) => Err(e@),
    }
}

/// Once a list of tokens fails, tokens after it change nothing.
proof fn lemma_fields_model_failed(ts: Seq<Seq<char>>, more: Seq<Seq<char>>)
    requires
        fields_model(ts) is Err,
    ensures
        fields_model(ts + more) == fields_model(ts),
    decreases more.len(),
{
    if more.len() > 0 {
        lemma_fields_model_failed(ts, more.drop_last());
        assert((ts + more).drop_last() =~= ts + more.drop_last());
    } else {
        assert(ts + more =~= ts);
    }
}

impl FortranFormat {
    /// Parses one descriptor token such as `3f8.3`, `i4` or `2x`.
    pub fn parse(s: &str) -> (r: Result<FortranFormat, ParseFortranFormattedError>)
        ensures
            match r {
                Ok(f) => token_model(s@) == Ok::<FieldSpec, FieldFault>(f@) && f.wf(),
                Err(e) => token_model(s@) matches Err(reason) && e@ == (Failure::MalformedField {
                    token: s@,
                    reason,
                }),
            },
    {
        let v = chars_of(s);
        assert(v@.subrange(0, v@.len() as int) =~= s@);
        match parse_token(&v, 0, v.len()) {
            Ok(f) => Ok(f),
            Err(reason) => Err(ParseFortranFormattedError::MalformedField { token: s.to_owned(), reason }),
        }
    }
}

impl std::str::FromStr for FortranFormat {
    type Err = ParseFortranFormattedError;

    /// Parses one descriptor token, as [`FortranFormat::parse`] does.
    fn from_str(s: &str) -> (r: Result<Self, Self::Err>)
        ensures
            match r {
                Ok(f) => token_model(s@) == Ok::<FieldSpec, FieldFault>(f@) && f.wf(),
                Err(e) => token_model(s@) matches Err(reason) && e@ == (Failure::MalformedField {
                    token: s@,
                    reason,
                }),
            },
    {
        FortranFormat::parse(s)
    }
}

impl Default for FortranFormat {
    /// One integer field, one character wide.
    fn default() -> (r: Self)
        ensures
            r.rep == 1,
            r.kind@ == seq!['i'],
            r.fw == 1,
            r.suffix == 1,
    {
        FortranFormat::new(1, kind_name('i'), 1, 1)
    }
}

/// Splitting at the first `c` yields the text before it, then the pieces after it.
proof fn lemma_split_at_first(s: Seq<char>, c: char, k: int)
    requires
        is_first(s, c, k),
    ensures
        split_on(s, c) == seq![s.take(k)] + split_on(s.skip(k + 1), c),
{
    assert(forall|k2: int| is_first(s, c, k2) ==> k2 == k);
}

/// Text without `c` is a single piece.
proof fn lemma_split_none(s: Seq<char>, c: char)
    requires
        forall|j: int| 0 <= j < s.len() ==> s[j] != c,
    ensures
        split_on(s, c) == seq![s],
{
    assert(!(exists|k: int| is_first(s, c, k)));
}

/// Parses a header line such as `(i4,1x,3a,5f12.8)` into its descriptors, in
/// order. Fails with `MalformedHeader` unless the trimmed line is enclosed in
/// parentheses, and with `MalformedField` at the first token that does not
/// match the grammar.
#[verifier::rlimit(40)]
pub fn get_formats(sb: String) -> (r: Result<Vec<FortranFormat>, ParseFortranFormattedError>)
    ensures
        formats_outcome(r) == header_model(sb@),
        r matches Ok(v) ==> all_wf(v@),
{
    let v = chars_of(sb.as_str());
    let (lo, hi) = trim_range(&v, 0, v.len());
    assert(v@.subrange(0, v@.len() as int) =~= v@);
    let ghost t = trim(v@);
    if !(hi - lo >= 2 && v[lo] == '(' && v[hi - 1] == ')') {
        return Err(ParseFortranFormattedError::MalformedHeader);
    }
    let end = hi - 1;
    assert(is_enclosed(t));
    let ghost interior = t.subrange(1, t.len() - 1);
    assert(interior =~= v@.subrange(lo + 1, end as int));
    assert(header_model(sb@) == fields_model(split_on(interior, ',')));
    let mut out: Vec<FortranFormat> = Vec::new();
    let ghost mut pieces: Seq<Seq<char>> = Seq::empty();
    assert(specs_of(out@) =~= Seq::empty());
    assert(pieces + split_on(v@.subrange(lo + 1, end as int), ',') =~= split_on(interior, ','));
    let mut start = lo + 1;
    let mut i = lo + 1;
    while i < end
        invariant
            lo + 1 <= start <= i <= end < v@.len(),
            v@ == sb@,
            header_model(sb@) == fields_model(split_on(interior, ',')),
            forall|j: int| start <= j < i ==> v@[j] != ',',
            split_on(interior, ',') == pieces + split_on(v@.subrange(start as int, end as int), ','),
            fields_model(pieces) == Ok::<Seq<FieldSpec>, Failure>(specs_of(out@)),
            all_wf(out@),
        decreases end - i,
    {
        if v[i] == ',' {
            let ghost tail = v@.subrange(start as int, end as int);
            let ghost piece = v@.subrange(start as int, i as int);
            let ghost after = split_on(v@.subrange(i + 1, end as int), ',');
            proof {
                lemma_split_at_first(tail, ',', i - start);
                assert(tail.take(i - start) =~= piece);
                assert(tail.skip(i - start + 1) =~= v@.subrange(i + 1, end as int));
                assert(split_on(interior, ',') =~= pieces.push(piece) + after);
                assert(pieces.push(piece).drop_last() =~= pieces);
            }
            match parse_token(&v, start, i) {
                Ok(f) => {
                    let ghost before = out@;
                    out.push(f);
                    assert(specs_of(out@) =~= specs_of(before).push(f@));
                },
                Err(reason) => {
                    proof {
                        lemma_fields_model_failed(pieces.push(piece), after);
                    }
                    let token = sb.as_str().substring_char(start, i).to_owned();
                    return Err(ParseFortranFormattedError::MalformedField { token, reason });
                },
            }
            proof {
                pieces = pieces.push(piece);
            }
            start = i + 1;
        }
        i = i + 1;
    }
    let ghost last = v@.subrange(start as int, end as int);
    proof {
        lemma_split_none(last, ',');
        assert(split_on(interior, ',') =~= pieces.push(last));
        assert(pieces.push(last).drop_last() =~= pieces);
    }
    match parse_token(&v, start, end) {
        Ok(f) => {
            let ghost before = out@;
            out.push(f);
            assert(specs_of(out@) =~= specs_of(before).push(f@));
            Ok(out)
        },
        Err(reason) => {
            let token = sb.as_str().substring_char(start, end).to_owned();
            Err(ParseFortranFormattedError::MalformedField { token, reason })
        },
    }
}

} // verus!
