//! Properties of descriptor parsing and line decoding, proved over their
//! models.
use vstd::prelude::*;

use super::frmtstngerror::{Failure, FieldFault, ParseFortranFormattedError};
use super::field::{field_model, ParsedValue, Value};
use super::record::{
    capped, decode_model, fields_run, flatten_values, group_run, lemma_total_width_prefix, line_outcome,
    occurrence_text, repeat_count, total_width,
};
use super::text::{
    all_digits, is_digit, is_letter, lemma_numeral_text, lower, numeral_text, trim,
};
use super::{is_first, is_first_letter, is_kind, token_model, FieldSpec};

verus! {

/// The token `{repeat}{kind}{width}.{decimals}`, each numeric part optional.
pub open spec fn token_text(
    repeat: Option<nat>,
    kind: char,
    width: Option<nat>,
    decimals: Option<nat>,
) -> Seq<char> {
    let count = match repeat {
        Some(r) => numeral_text(r),
        None => Seq::empty(),
    };
    let tail = match width {
        Some(w) => match decimals {
            Some(d) => numeral_text(w) + seq!['.'] + numeral_text(d),
            None => numeral_text(w),
        },
        None => Seq::empty(),
    };
    count + seq![kind] + tail
}

/// Every token written from its parts reads back as exactly those parts: an
/// absent repeat or width reads as 1 and absent decimals as 0, and the kind
/// letter in either case reads as its lower case.
pub proof fn lemma_token_round_trip(
    repeat: Option<nat>,
    kind: char,
    width: Option<nat>,
    decimals: Option<nat>,
)
    requires
        is_letter(kind),
        is_kind(lower(kind)),
        repeat matches Some(r) ==> 1 <= r <= usize::MAX,
        width matches Some(w) ==> 1 <= w <= usize::MAX,
        decimals matches Some(d) ==> d <= usize::MAX && width is Some && lower(kind) == 'f',
    ensures
        token_model(token_text(repeat, kind, width, decimals)) == Ok::<FieldSpec, FieldFault>(
            FieldSpec {
                repeat: match repeat {
                    Some(r) => r,
                    None => 1,
                },
                kind: lower(kind),
                width: match width {
                    Some(w) => w,
                    None => 1,
                },
                decimals: match decimals {
                    Some(d) => d,
                    None => 0,
                },
            },
        ),
{
    let t = token_text(repeat, kind, width, decimals);
    let count = match repeat {
        Some(r) => numeral_text(r),
        None => Seq::empty(),
    };
    if let Some(r) = repeat {
        lemma_numeral_text(r);
    }
    if let Some(w) = width {
        lemma_numeral_text(w);
    }
    if let Some(d) = decimals {
        lemma_numeral_text(d);
    }
    let k = count.len() as int;
    assert(all_digits(count));
    assert(forall|j: int| 0 <= j < k ==> is_digit(#[trigger] count[j]));
    assert(is_first_letter(t, k));
    assert(forall|k2: int| is_first_letter(t, k2) ==> k2 == k);
    assert(t.take(k) =~= count);
    let rest = t.skip(k + 1);
    match width {
        None => {
            assert(rest =~= Seq::<char>::empty());
        },
        Some(w) => {
            let wt = numeral_text(w);
            match decimals {
                None => {
                    assert(rest =~= wt);
                    assert(forall|j: int| 0 <= j < rest.len() ==> is_digit(#[trigger] rest[j]));
                    assert(!(exists|d2: int| is_first(rest, '.', d2)));
                },
                Some(d) => {
                    let dt = numeral_text(d);
                    assert(rest =~= wt + seq!['.'] + dt);
                    assert(forall|j: int| 0 <= j < wt.len() ==> is_digit(#[trigger] wt[j]));
                    assert(is_first(rest, '.', wt.len() as int));
                    assert(forall|d2: int| is_first(rest, '.', d2) ==> d2 == wt.len());
                    assert(rest.take(wt.len() as int) =~= wt);
                    assert(rest.skip(wt.len() as int + 1) =~= dt);
                },
            }
        },
    }
}

/// A line shorter than the total width of the layout fails with
/// `LineTooShort`, naming that width (capped at `usize::MAX`) and the line's
/// length.
pub proof fn lemma_short_line_fails(fs: Seq<FieldSpec>, line: Seq<char>)
    requires
        line.len() < total_width(fs),
    ensures
        decode_model(fs, line) == Err::<Seq<Value>, Failure>(
            Failure::LineTooShort { expected: capped(total_width(fs)), actual: line.len() },
        ),
{
}

proof fn lemma_group_run_prefix(fs: Seq<FieldSpec>, line: Seq<char>, i: int, r: nat)
    requires
        0 <= i < fs.len(),
        r <= repeat_count(fs[i]),
        total_width(fs) <= line.len(),
    ensures
        group_run(fs, line, i, r) == group_run(fs, line.take(total_width(fs) as int), i, r),
    decreases r,
{
    if r > 0 {
        let k = (r - 1) as nat;
        lemma_group_run_prefix(fs, line, i, k);
        lemma_total_width_prefix(fs, i);
        lemma_total_width_prefix(fs, i + 1);
        let start = total_width(fs.take(i));
        let w = fs[i].width;
        let c = repeat_count(fs[i]);
        assert(k * w + w <= c * w) by (nonlinear_arith)
            requires
                k < c,
        ;
        let a = (start + k * w) as int;
        assert(line.take(total_width(fs) as int).subrange(a, a + w) =~= line.subrange(a, a + w));
        assert(occurrence_text(fs, line, i, k) == occurrence_text(
            fs,
            line.take(total_width(fs) as int),
            i,
            k,
        ));
    }
}

proof fn lemma_fields_run_prefix(fs: Seq<FieldSpec>, line: Seq<char>, n: nat)
    requires
        n <= fs.len(),
        total_width(fs) <= line.len(),
    ensures
        fields_run(fs, line, n) == fields_run(fs, line.take(total_width(fs) as int), n),
    decreases n,
{
    if n > 0 {
        lemma_fields_run_prefix(fs, line, (n - 1) as nat);
        lemma_group_run_prefix(fs, line, n - 1, repeat_count(fs[n - 1]));
    }
}

/// Decoding a line at least as long as the layout reads its first `W`
/// characters only, `W` being the layout's total width: the line decodes
/// exactly as those characters alone do.
pub proof fn lemma_reads_layout_width_only(fs: Seq<FieldSpec>, line: Seq<char>)
    requires
        total_width(fs) <= line.len(),
    ensures
        decode_model(fs, line) == decode_model(fs, line.take(total_width(fs) as int)),
{
    lemma_fields_run_prefix(fs, line, fs.len());
}

/// Decoding keeps no state between calls: any two outcomes of decoding the
/// same line under the same layout are equal.
pub proof fn lemma_decode_repeatable(
    fs: Seq<FieldSpec>,
    line: Seq<char>,
    first: Result<Vec<ParsedValue>, ParseFortranFormattedError>,
    second: Result<Vec<ParsedValue>, ParseFortranFormattedError>,
)
    requires
        line_outcome(first) == decode_model(fs, line),
        line_outcome(second) == decode_model(fs, line),
    ensures
        line_outcome(first) == line_outcome(second),
{
}

proof fn lemma_product(a: nat, b: nat, c: nat, d: nat)
    requires
        a == c,
        b == d,
    ensures
        a * b == c * d,
{
}

/// The layout `(i5,1x,f8.3)`.
pub open spec fn offsets_layout() -> Seq<FieldSpec> {
    seq![
        FieldSpec { repeat: 1, kind: 'i', width: 5, decimals: 0 },
        FieldSpec { repeat: 1, kind: 'x', width: 1, decimals: 0 },
        FieldSpec { repeat: 1, kind: 'f', width: 8, decimals: 3 },
    ]
}

/// Fields lie one after the other from the start of the line: under
/// `(i5,1x,f8.3)` a line of at least 14 characters yields the integer read
/// from characters 0 to 5 and then the real read from characters 6 to 14 (not
/// from 0), the skip field between them yielding nothing; the first of the two
/// that fails decides.
pub proof fn lemma_cumulative_offsets(line: Seq<char>)
    requires
        line.len() >= 14,
    ensures
        ({
            let first = field_model('i', 0, trim(line.subrange(0, 5)));
            let second = field_model('f', 3, trim(line.subrange(6, 14)));
            &&& first matches Err(e) ==> decode_model(offsets_layout(), line) == Err::<
                Seq<Value>,
                Failure,
            >(e)
            &&& first is Ok ==> (second matches Err(e) ==> decode_model(offsets_layout(), line)
                == Err::<Seq<Value>, Failure>(e))
            &&& first matches Ok(Some(x)) ==> (second matches Ok(Some(y)) ==> decode_model(
                offsets_layout(),
                line,
            ) == Ok::<Seq<Value>, Failure>(seq![x, y]))
        }),
{
    let fs = offsets_layout();
    assert(fs.take(0) =~= Seq::<FieldSpec>::empty());
    assert(fs.take(1).drop_last() =~= fs.take(0));
    assert(fs.take(2).drop_last() =~= fs.take(1));
    assert(fs.drop_last() =~= fs.take(2));
    assert(fs[0] == FieldSpec { repeat: 1, kind: 'i', width: 5, decimals: 0 });
    assert(fs[1] == FieldSpec { repeat: 1, kind: 'x', width: 1, decimals: 0 });
    assert(fs[2] == FieldSpec { repeat: 1, kind: 'f', width: 8, decimals: 3 });
    lemma_total_width_prefix(fs, 0);
    lemma_total_width_prefix(fs, 1);
    lemma_total_width_prefix(fs, 2);
    assert(fs.take(3) =~= fs);
    assert(total_width(fs.take(0)) == 0);
    lemma_product(repeat_count(fs[0]), fs[0].width, 1, 5);
    lemma_product(repeat_count(fs[1]), fs[1].width, 1, 1);
    lemma_product(repeat_count(fs[2]), fs[2].width, 1, 8);
    assert(total_width(fs.take(1)) == 5);
    assert(total_width(fs.take(2)) == 6);
    assert(total_width(fs) == 14);
    assert(occurrence_text(fs, line, 0, 0) == trim(line.subrange(0, 5)));
    assert(occurrence_text(fs, line, 2, 0) == trim(line.subrange(6, 14)));
    let first = field_model('i', 0, trim(line.subrange(0, 5)));
    let second = field_model('f', 3, trim(line.subrange(6, 14)));
    assert(group_run(fs, line, 1, 0) == Ok::<Seq<Value>, Failure>(Seq::empty()));
    assert(group_run(fs, line, 1, 1) == Ok::<Seq<Value>, Failure>(Seq::empty()));
    assert(group_run(fs, line, 0, 0) == Ok::<Seq<Value>, Failure>(Seq::empty()));
    assert(group_run(fs, line, 2, 0) == Ok::<Seq<Value>, Failure>(Seq::empty()));
    assert(fields_run(fs, line, 0) == Ok::<Seq<Seq<Value>>, Failure>(Seq::empty()));
    match first {
        Err(e) => {
            assert(group_run(fs, line, 0, 1) == Err::<Seq<Value>, Failure>(e));
            assert(fields_run(fs, line, 1) == Err::<Seq<Seq<Value>>, Failure>(e));
            assert(fields_run(fs, line, 2) == Err::<Seq<Seq<Value>>, Failure>(e));
            assert(fields_run(fs, line, 3) == Err::<Seq<Seq<Value>>, Failure>(e));
        },
        Ok(o) => {
            let x = o.unwrap();
            assert(group_run(fs, line, 0, 1) == Ok::<Seq<Value>, Failure>(seq![x])) by {
                assert(Seq::<Value>::empty().push(x) =~= seq![x]);
            }
            assert(fields_run(fs, line, 1) == Ok::<Seq<Seq<Value>>, Failure>(seq![seq![x]])) by {
                assert(Seq::<Seq<Value>>::empty().push(seq![x]) =~= seq![seq![x]]);
            }
            assert(fields_run(fs, line, 2) == Ok::<Seq<Seq<Value>>, Failure>(seq![seq![x]]));
            match second {
                Err(e) => {
                    assert(group_run(fs, line, 2, 1) == Err::<Seq<Value>, Failure>(e));
                    assert(fields_run(fs, line, 3) == Err::<Seq<Seq<Value>>, Failure>(e));
                },
                Ok(p) => {
                    let y = p.unwrap();
                    assert(group_run(fs, line, 2, 1) == Ok::<Seq<Value>, Failure>(seq![y])) by {
                        assert(Seq::<Value>::empty().push(y) =~= seq![y]);
                    }
                    let gs = seq![seq![x], seq![y]];
                    assert(fields_run(fs, line, 3) == Ok::<Seq<Seq<Value>>, Failure>(gs)) by {
                        assert(seq![seq![x]].push(seq![y]) =~= gs);
                    }
                    assert(flatten_values(gs) =~= seq![x, y]) by {
                        assert(gs.drop_last() =~= seq![seq![x]]);
                        assert(seq![seq![x]].drop_last() =~= Seq::<Seq<Value>>::empty());
                        assert(flatten_values(Seq::<Seq<Value>>::empty()) == Seq::<Value>::empty());
                        assert(flatten_values(seq![seq![x]]) =~= seq![x]);
                    }
                },
            }
        },
    }
}

} // verus!
