//! Decoding of data lines: each line is cut into consecutive fixed-width
//! fields, left to right, as its descriptors say, and each field is read as
//! the kind of value its descriptor names.
use vstd::prelude::*;

use super::field::{decode_field, field_model, ParsedValue, Value};
use super::frmtstngerror::{Failure, ParseFortranFormattedError};
use super::text::{chars_of, trim, trim_range};
use super::{all_wf, get_formats, header_model, specs_of, FieldSpec, FortranFormat};

verus! {

/// How many fields a descriptor stands for: a repeat of 0 means one.
pub open spec fn repeat_count(f: FieldSpec) -> nat {
    if f.repeat == 0 {
        1
    } else {
        f.repeat
    }
}

/// The number of characters that a layout spans: the sum of repeat count
/// times width over its descriptors.
pub open spec fn total_width(fs: Seq<FieldSpec>) -> nat
    decreases fs.len(),
{
    if fs.len() == 0 {
        0
    } else {
        total_width(fs.drop_last()) + repeat_count(fs.last()) * fs.last().width
    }
}

/// The trimmed text of occurrence `r` of descriptor `i` on `line`: the fields
/// lie one after the other from the start of the line, so it begins after all
/// fields of the descriptors before `i` and the `r` before it.
pub open spec fn occurrence_text(fs: Seq<FieldSpec>, line: Seq<char>, i: int, r: nat) -> Seq<char> {
    let start = (total_width(fs.take(i)) + r * fs[i].width) as int;
    trim(line.subrange(start, start + fs[i].width as int))
}

/// The values of the first `r` occurrences of descriptor `i`, or the failure of
/// the first of them that fails.
pub open spec fn group_run(fs: Seq<FieldSpec>, line: Seq<char>, i: int, r: nat) -> Result<
    Seq<Value>,
    Failure,
>
    decreases r,
{
    if r == 0 {
        Ok(Seq::empty())
    } else {
        match group_run(fs, line, i, (r - 1) as nat) {
            Err(e) => Err(e),
            Ok(vs) => match field_model(fs[i].kind, fs[i].decimals, occurrence_text(fs, line, i, (r - 1) as nat)) {
                Err(e) => Err(e),
                Ok(None) => Ok(vs),
                Ok(Some(x)) => Ok(vs.push(x)),
            },
        }
    }
}

/// The values of the first `n` descriptors, one group per descriptor that is
/// not a skip, or the first failure.
pub open spec fn fields_run(fs: Seq<FieldSpec>, line: Seq<char>, n: nat) -> Result<
    Seq<Seq<Value>>,
    Failure,
>
    decreases n,
{
    if n == 0 {
        Ok(Seq::empty())
    } else {
        match fields_run(fs, line, (n - 1) as nat) {
            Err(e) => Err(e),
            Ok(gs) => match group_run(fs, line, n - 1, repeat_count(fs[n - 1])) {
                Err(e) => Err(e),
                Ok(g) => if fs[n - 1].kind == 'x' {
                    Ok(gs)
                } else {
                    Ok(gs.push(g))
                },
            },
        }
    }
}

/// `n` capped at the largest `usize`.
pub open spec fn capped(n: nat) -> nat {
    if n <= usize::MAX {
        n
    } else {
        usize::MAX as nat
    }
}

/// A line decoded group by group: too short a line fails as a whole,
/// before any field is read.
pub open spec fn line_groups(fs: Seq<FieldSpec>, line: Seq<char>) -> Result<Seq<Seq<Value>>, Failure> {
    if line.len() < total_width(fs) {
        Err(Failure::LineTooShort { expected: capped(total_width(fs)), actual: line.len() })
    } else {
        fields_run(fs, line, fs.len())
    }
}

pub open spec fn flatten_values(gs: Seq<Seq<Value>>) -> Seq<Value>
    decreases gs.len(),
{
    if gs.len() == 0 {
        Seq::empty()
    } else {
        flatten_values(gs.drop_last()) + gs.last()
    }
}

/// What decoding `line` under the layout `fs` yields: one value per field
/// occurrence that is not a skip, in order, or the first failure.
pub open spec fn decode_model(fs: Seq<FieldSpec>, line: Seq<char>) -> Result<Seq<Value>, Failure> {
    match line_groups(fs, line) {
        Ok(gs) => Ok(flatten_values(gs)),
        Err(e) => Err(e),
    }
}

pub open spec fn values_of(s: Seq<ParsedValue>) -> Seq<Value> {
    s.map_values(|x: ParsedValue| x@)
}

pub open spec fn groups_of(s: Seq<Vec<ParsedValue>>) -> Seq<Seq<Value>> {
    s.map_values(|g: Vec<ParsedValue>| values_of(g@))
}

/// The mathematical value of the outcome of decoding a line.
pub open spec fn line_outcome(r: Result<Vec<ParsedValue>, ParseFortranFormattedError>) -> Result<
    Seq<Value>,
    Failure,
> {
    match r {
        Ok(v) => Ok(values_of(v@)),
        Err(e) => Err(e@),
    }
}

/// The mathematical value of the outcome of decoding into groups.
pub open spec fn groups_outcome(r: Result<Vec<Vec<ParsedValue>>, ParseFortranFormattedError>) -> Result<
    Seq<Seq<Value>>,
    Failure,
> {
    match r {
        Ok(v) => Ok(groups_of(v@)),
        Err(e) => Err(e@),
    }
}

pub proof fn lemma_total_width_prefix(fs: Seq<FieldSpec>, i: int)
    requires
        0 <= i <= fs.len(),
    ensures
        total_width(fs.take(i)) <= total_width(fs),
        i < fs.len() ==> total_width(fs.take(i + 1)) == total_width(fs.take(i)) + repeat_count(fs[i])
            * fs[i].width,
    decreases fs.len(),
{
    if i < fs.len() {
        assert(fs.take(i + 1).drop_last() =~= fs.take(i));
        lemma_total_width_prefix(fs.drop_last(), i);
        assert(fs.drop_last().take(i) =~= fs.take(i));
        if i + 1 < fs.len() {
            lemma_total_width_prefix(fs.drop_last(), i + 1);
            assert(fs.drop_last().take(i + 1) =~= fs.take(i + 1));
        } else {
            assert(fs.take(i + 1) =~= fs);
        }
    } else {
        assert(fs.take(i) =~= fs);
    }
}

proof fn lemma_group_run_failed(fs: Seq<FieldSpec>, line: Seq<char>, i: int, r: nat, r2: nat)
    requires
        group_run(fs, line, i, r) is Err,
        r <= r2,
    ensures
        group_run(fs, line, i, r2) == group_run(fs, line, i, r),
    decreases r2,
{
    if r < r2 {
        lemma_group_run_failed(fs, line, i, r, (r2 - 1) as nat);
    }
}

proof fn lemma_fields_run_failed(fs: Seq<FieldSpec>, line: Seq<char>, n: nat, n2: nat)
    requires
        fields_run(fs, line, n) is Err,
        n <= n2,
    ensures
        fields_run(fs, line, n2) == fields_run(fs, line, n),
    decreases n2,
{
    if n < n2 {
        lemma_fields_run_failed(fs, line, n, (n2 - 1) as nat);
    }
}

/// The total width of the layout, or `None` where it exceeds `usize::MAX`.
fn layout_width(formats: &Vec<FortranFormat>) -> (r: Option<usize>)
    ensures
        r == if total_width(specs_of(formats@)) <= usize::MAX {
            Some(total_width(specs_of(formats@)) as usize)
        } else {
            None::<usize>
        },
{
    let ghost fs = specs_of(formats@);
    let mut acc: usize = 0;
    let mut i: usize = 0;
    while i < formats.len()
        invariant
            i <= formats@.len(),
            fs == specs_of(formats@),
            acc == total_width(fs.take(i as int)),
        decreases formats@.len() - i,
    {
        proof {
            lemma_total_width_prefix(fs, i as int);
        }
        let f = &formats[i];
        let count = if f.rep == 0 {
            1
        } else {
            f.rep
        };
        let next = match count.checked_mul(f.fw) {
            Some(m) => acc.checked_add(m),
            None => None,
        };
        match next {
            Some(n) => {
                acc = n;
            },
            None => {
                proof {
                    lemma_total_width_prefix(fs, i + 1);
                }
                return None;
            },
        }
        i = i + 1;
    }
    assert(fs.take(i as int) =~= fs);
    Some(acc)
}

/// Decodes `line` (whose characters are `v`) group by group, on a line at
/// least as long as the layout.
fn read_groups(formats: &Vec<FortranFormat>, line: &str, v: &Vec<char>) -> (r: Result<
    Vec<Vec<ParsedValue>>,
    ParseFortranFormattedError,
>)
    requires
        all_wf(formats@),
        v@ == line@,
        total_width(specs_of(formats@)) <= v@.len(),
    ensures
        groups_outcome(r) == fields_run(specs_of(formats@), v@, formats@.len()),
{
    let ghost fs = specs_of(formats@);
    let mut groups: Vec<Vec<ParsedValue>> = Vec::new();
    let n = v.len();
    let mut cursor: usize = 0;
    let mut i: usize = 0;
    assert(groups_of(groups@) =~= Seq::empty());
    while i < formats.len()
        invariant
            i <= formats@.len(),
            fs == specs_of(formats@),
            all_wf(formats@),
            v@ == line@,
            n == v@.len(),
            total_width(fs) <= v@.len(),
            cursor == total_width(fs.take(i as int)),
            fields_run(fs, v@, i as nat) == Ok::<Seq<Seq<Value>>, Failure>(groups_of(groups@)),
        decreases formats@.len() - i,
    {
        proof {
            lemma_total_width_prefix(fs, i as int);
            lemma_total_width_prefix(fs, i as int + 1);
        }
        let f = &formats[i];
        assert(f.wf());
        let kind = f.kind.as_str().get_char(0);
        let width = f.fw;
        let count = if f.rep == 0 {
            1
        } else {
            f.rep
        };
        let ghost start = cursor as int;
        let mut group: Vec<ParsedValue> = Vec::new();
        let mut k: usize = 0;
        assert(values_of(group@) =~= Seq::empty());
        while k < count
            invariant
                fs == specs_of(formats@),
                i < formats@.len(),
                v@ == line@,
                kind == fs[i as int].kind,
                width == fs[i as int].width,
                f.suffix == fs[i as int].decimals,
                count == repeat_count(fs[i as int]),
                k <= count,
                start == total_width(fs.take(i as int)),
                start + count * width <= v@.len(),
                n == v@.len(),
                cursor == start + k * width,
                fields_run(fs, v@, i as nat) == Ok::<Seq<Seq<Value>>, Failure>(groups_of(groups@)),
                group_run(fs, v@, i as int, k as nat) == Ok::<Seq<Value>, Failure>(values_of(group@)),
            decreases count - k,
        {
            assert(cursor + width <= start + count * width) by (nonlinear_arith)
                requires
                    cursor == start + k * width,
                    k < count,
            ;
            let (lo, hi) = trim_range(v, cursor, cursor + width);
            assert(v@.subrange(lo as int, hi as int) == occurrence_text(fs, v@, i as int, k as nat));
            match decode_field(kind, f.suffix, line, v, lo, hi) {
                Ok(Some(x)) => {
                    let ghost before = group@;
                    group.push(x);
                    assert(values_of(group@) =~= values_of(before).push(x@));
                },
                Ok(None) => {},
                Err(e) => {
                    proof {
                        assert(group_run(fs, v@, i as int, (k + 1) as nat) == Err::<Seq<Value>, Failure>(e@));
                        lemma_group_run_failed(fs, v@, i as int, (k + 1) as nat, count as nat);
                        assert(fields_run(fs, v@, (i + 1) as nat) == Err::<Seq<Seq<Value>>, Failure>(e@));
                        lemma_fields_run_failed(fs, v@, (i + 1) as nat, formats@.len() as nat);
                    }
                    return Err(e);
                },
            }
            assert(cursor + width == start + (k + 1) * width) by (nonlinear_arith)
                requires
                    cursor == start + k * width,
            ;
            cursor = cursor + width;
            k = k + 1;
        }
        if kind != 'x' {
            let ghost before = groups@;
            groups.push(group);
            assert(groups_of(groups@) =~= groups_of(before).push(values_of(group@)));
        }
        i = i + 1;
    }
    Ok(groups)
}

/// The values of all groups, in order.
fn flatten(groups: Vec<Vec<ParsedValue>>) -> (r: Vec<ParsedValue>)
    ensures
        values_of(r@) == flatten_values(groups_of(groups@)),
{
    let ghost gs = groups_of(groups@);
    let mut flat: Vec<ParsedValue> = Vec::new();
    assert(values_of(flat@) =~= flatten_values(gs.take(0)));
    for g in it: groups
        invariant
            gs == groups_of(it.seq()),
            values_of(flat@) == flatten_values(gs.take(it.index() as int)),
    {
        let ghost k = it.index() as int;
        let ghost before = flat@;
        let mut g = g;
        flat.append(&mut g);
        assert(gs.take(k + 1).drop_last() =~= gs.take(k));
        assert(values_of(flat@) =~= values_of(before) + gs[k]);
    }
    assert(gs.take(gs.len() as int) =~= gs);
    flat
}

/// Decodes `line` group by group, one group per descriptor that is not a skip.
fn decode_groups(formats: &Vec<FortranFormat>, line: &str) -> (r: Result<
    Vec<Vec<ParsedValue>>,
    ParseFortranFormattedError,
>)
    requires
        all_wf(formats@),
    ensures
        groups_outcome(r) == line_groups(specs_of(formats@), line@),
{
    let v = chars_of(line);
    match layout_width(formats) {
        Some(w) => {
            if v.len() < w {
                return Err(ParseFortranFormattedError::LineTooShort { expected: w, actual: v.len() });
            }
        },
        None => {
            return Err(
                ParseFortranFormattedError::LineTooShort { expected: usize::MAX, actual: v.len() },
            );
        },
    }
    read_groups(formats, line, &v)
}

/// Decodes one data line under the layout `formats`: the fields lie one after
/// the other from the first character, each descriptor standing for its
/// repeat count of fields; every field but a skip yields one value, in order.
/// A line shorter than the layout fails with `LineTooShort` before any field
/// is read; otherwise the first field that cannot be read gives the error.
pub fn decode_line(formats: &Vec<FortranFormat>, line: &str) -> (r: Result<
    Vec<ParsedValue>,
    ParseFortranFormattedError,
>)
    requires
        all_wf(formats@),
    ensures
        line_outcome(r) == decode_model(specs_of(formats@), line@),
{
    match decode_groups(formats, line) {
        Ok(groups) => Ok(flatten(groups)),
        Err(e) => Err(e),
    }
}

pub open spec fn texts_of(lines: Seq<String>) -> Seq<Seq<char>> {
    lines.map_values(|l: String| l@)
}

/// Decodes each line on its own under the same layout, one outcome per line.
pub fn decode_stream(formats: &Vec<FortranFormat>, lines: &Vec<String>) -> (r: Vec<
    Result<Vec<ParsedValue>, ParseFortranFormattedError>,
>)
    requires
        all_wf(formats@),
    ensures
        r@.len() == lines@.len(),
        forall|k: int|
            0 <= k < lines@.len() ==> line_outcome(#[trigger] r@[k]) == decode_model(
                specs_of(formats@),
                lines@[k]@,
            ),
{
    let mut out: Vec<Result<Vec<ParsedValue>, ParseFortranFormattedError>> = Vec::new();
    let mut k: usize = 0;
    while k < lines.len()
        invariant
            k <= lines@.len(),
            all_wf(formats@),
            out@.len() == k,
            forall|j: int|
                0 <= j < k ==> line_outcome(#[trigger] out@[j]) == decode_model(
                    specs_of(formats@),
                    lines@[j]@,
                ),
        decreases lines@.len() - k,
    {
        out.push(decode_line(formats, lines[k].as_str()));
        k = k + 1;
    }
    out
}

/// `h` is the position of the first non-empty line.
pub open spec fn is_first_nonempty(ls: Seq<Seq<char>>, h: int) -> bool {
    &&& 0 <= h < ls.len()
    &&& ls[h].len() > 0
    &&& forall|j: int| 0 <= j < h ==> ls[j].len() == 0
}

/// The groups of all data lines `ls`, line after line, or the failure of the
/// first line that fails.
pub open spec fn data_run(fs: Seq<FieldSpec>, ls: Seq<Seq<char>>) -> Result<Seq<Seq<Value>>, Failure>
    decreases ls.len(),
{
    if ls.len() == 0 {
        Ok(Seq::empty())
    } else {
        match data_run(fs, ls.drop_last()) {
            Err(e) => Err(e),
            Ok(gs) => match line_groups(fs, ls.last()) {
                Err(e) => Err(e),
                Ok(g) => Ok(gs + g),
            },
        }
    }
}

/// What a whole text yields: its first non-empty line is the header, and the
/// lines after it are data lines decoded under the header's layout.
pub open spec fn records_model(ls: Seq<Seq<char>>) -> Result<Seq<Seq<Value>>, Failure> {
    if !(exists|h: int| is_first_nonempty(ls, h)) {
        Err(Failure::MalformedHeader)
    } else {
        let h = choose|h: int| is_first_nonempty(ls, h);
        match header_model(ls[h]) {
            Err(e) => Err(e),
            Ok(fs) => data_run(fs, ls.skip(h + 1)),
        }
    }
}

proof fn lemma_data_run_failed(fs: Seq<FieldSpec>, ls: Seq<Seq<char>>, more: Seq<Seq<char>>)
    requires
        data_run(fs, ls) is Err,
    ensures
        data_run(fs, ls + more) == data_run(fs, ls),
    decreases more.len(),
{
    if more.len() > 0 {
        lemma_data_run_failed(fs, ls, more.drop_last());
        assert((ls + more).drop_last() =~= ls + more.drop_last());
    } else {
        assert(ls + more =~= ls);
    }
}

/// Reads a whole text given as its lines: the first non-empty line is the
/// header, and every later line is decoded under its layout into one group
/// of values per descriptor that is not a skip. Stops at the first failure.
pub fn parse_fortran_formatted_lines(lines: &Vec<String>) -> (r: Result<
    Vec<Vec<ParsedValue>>,
    ParseFortranFormattedError,
>)
    ensures
        groups_outcome(r) == records_model(texts_of(lines@)),
{
    let ghost ls = texts_of(lines@);
    let mut h: usize = 0;
    while h < lines.len() && lines[h].as_str().is_empty()
        invariant
            h <= lines@.len(),
            ls == texts_of(lines@),
            forall|j: int| 0 <= j < h ==> ls[j].len() == 0,
        decreases lines@.len() - h,
    {
        h = h + 1;
    }
    if h == lines.len() {
        assert(!(exists|h2: int| is_first_nonempty(ls, h2)));
        return Err(ParseFortranFormattedError::MalformedHeader);
    }
    assert(is_first_nonempty(ls, h as int));
    assert(forall|h2: int| is_first_nonempty(ls, h2) ==> h2 == h);
    let formats = match get_formats(lines[h].clone()) {
        Ok(f) => f,
        Err(e) => {
            return Err(e);
        },
    };
    let ghost fs = specs_of(formats@);
    let ghost data = ls.skip(h + 1);
    assert(records_model(ls) == data_run(fs, data));
    let mut rows: Vec<Vec<ParsedValue>> = Vec::new();
    let mut k = h + 1;
    assert(data.take(0) =~= Seq::<Seq<char>>::empty());
    assert(groups_of(rows@) =~= Seq::empty());
    while k < lines.len()
        invariant
            h < k <= lines@.len(),
            ls == texts_of(lines@),
            data == ls.skip(h + 1),
            records_model(ls) == data_run(fs, data),
            fs == specs_of(formats@),
            all_wf(formats@),
            data_run(fs, data.take(k - h - 1)) == Ok::<Seq<Seq<Value>>, Failure>(groups_of(rows@)),
        decreases lines@.len() - k,
    {
        let ghost done = data.take(k - h - 1);
        assert(data.take(k - h).drop_last() =~= done);
        assert(data.take(k - h).last() == lines@[k as int]@);
        match decode_groups(&formats, lines[k].as_str()) {
            Ok(g) => {
                let ghost before = rows@;
                let mut g = g;
                let ghost added = g@;
                rows.append(&mut g);
                assert(groups_of(rows@) =~= groups_of(before) + groups_of(added));
            },
            Err(e) => {
                proof {
                    assert(data_run(fs, data.take(k - h)) == Err::<Seq<Seq<Value>>, Failure>(e@));
                    lemma_data_run_failed(fs, data.take(k - h), data.skip(k - h));
                    assert(data.take(k - h) + data.skip(k - h) =~= data);
                }
                return Err(e);
            },
        }
        k = k + 1;
    }
    assert(data.take(k - h - 1) =~= data);
    Ok(rows)
}

} // verus!
