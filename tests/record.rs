use qc_file_parsers::format_string::frmtstngerror::ParseFortranFormattedError;
use qc_file_parsers::format_string::{
    decode_line, decode_stream, get_formats, parse_fortran_formatted_lines, Decimal,
    FortranFormat, ParsedValue,
};

fn layout(header: &str) -> Vec<FortranFormat> {
    get_formats(header.to_string()).unwrap()
}

/// The value of a real field as the nearest `f64`.
fn as_f64(v: &ParsedValue) -> f64 {
    match v {
        ParsedValue::Fl(d) => format!("{}{}e-{}", if d.negative { "-" } else { "" }, d.digits, d.scale)
            .parse::<f64>()
            .unwrap(),
        other => panic!("expected a real value, got {:?}", other),
    }
}

fn fl(negative: bool, digits: &str, scale: usize) -> ParsedValue {
    ParsedValue::Fl(Decimal { negative, digits: digits.to_string(), scale })
}

fn text(v: &ParsedValue) -> &str {
    match v {
        ParsedValue::St(s) => s.as_str(),
        other => panic!("expected text, got {:?}", other),
    }
}

fn lines(text: &[&str]) -> Vec<String> {
    text.iter().map(|l| l.to_string()).collect()
}

#[test]
fn cursor_runs_across_fields() {
    let formats = vec![
        FortranFormat::new(1, "i".to_string(), 5, 0),
        FortranFormat::new(1, "x".to_string(), 1, 0),
        FortranFormat::new(1, "f".to_string(), 8, 3),
    ];
    let line = format!("{}{}", "  112 ", " 113.000");
    assert_eq!(line.len(), 14);
    let values = decode_line(&formats, &line).unwrap();
    assert_eq!(values.len(), 2);
    assert_eq!(values[0], ParsedValue::In(112));
    assert_eq!(values[1], fl(false, "113000", 3));
    assert_eq!(as_f64(&values[1]), 113.0);
}

#[test]
fn repeats_expand_to_one_value_each() {
    let formats = layout("(3i2,2a3)");
    let values = decode_line(&formats, " 1 2 3abcdef").unwrap();
    assert_eq!(
        values,
        vec![
            ParsedValue::In(1),
            ParsedValue::In(2),
            ParsedValue::In(3),
            ParsedValue::St("abc".to_string()),
            ParsedValue::St("def".to_string()),
        ]
    );
}

#[test]
fn implied_decimals() {
    let formats = layout("(f6.2,f6.2,f6.2)");
    let values = decode_line(&formats, "  0123 -0123  1.5 ").unwrap();
    assert_eq!(values[0], fl(false, "0123", 2));
    assert_eq!(values[1], fl(true, "0123", 2));
    assert_eq!(values[2], fl(false, "15", 1));
    assert_eq!(as_f64(&values[0]), 1.23);
    assert_eq!(as_f64(&values[1]), -1.23);
    assert_eq!(as_f64(&values[2]), 1.5);
}

#[test]
fn signed_integers_and_their_range() {
    let formats = layout("(i12)");
    assert_eq!(decode_line(&formats, " -2147483648").unwrap(), vec![ParsedValue::In(i32::MIN)]);
    assert_eq!(decode_line(&formats, " +2147483647").unwrap(), vec![ParsedValue::In(i32::MAX)]);
    assert_eq!(
        decode_line(&formats, "  2147483648"),
        Err(ParseFortranFormattedError::NumericParseFailure)
    );
    assert_eq!(decode_line(&formats, "      12a   "), Err(ParseFortranFormattedError::NumericParseFailure));
    assert_eq!(decode_line(&formats, "       -    "), Err(ParseFortranFormattedError::NumericParseFailure));
}

#[test]
fn blank_fields() {
    let formats = layout("(i3,a3)");
    assert_eq!(decode_line(&formats, "      "), Err(ParseFortranFormattedError::EmptyField));
    let formats = layout("(a3,i3)");
    assert_eq!(decode_line(&formats, "   "), Err(ParseFortranFormattedError::LineTooShort { expected: 6, actual: 3 }));
    assert_eq!(
        decode_line(&formats, "     7").unwrap(),
        vec![ParsedValue::St(String::new()), ParsedValue::In(7)]
    );
    assert_eq!(decode_line(&layout("(f4.1)"), "    "), Err(ParseFortranFormattedError::EmptyField));
    assert_eq!(decode_line(&layout("(l4)"), "    "), Err(ParseFortranFormattedError::EmptyField));
}

#[test]
fn logical_fields() {
    let formats = layout("(8l7)");
    let pieces = ["T", "f", "true", "FALSE", ".t.", ".True.", ".F.", ".false."];
    let line: String = pieces.iter().map(|p| format!("{:>7}", p)).collect();
    let values = decode_line(&formats, &line).unwrap();
    assert_eq!(
        values,
        vec![
            ParsedValue::Lo(true),
            ParsedValue::Lo(false),
            ParsedValue::Lo(true),
            ParsedValue::Lo(false),
            ParsedValue::Lo(true),
            ParsedValue::Lo(true),
            ParsedValue::Lo(false),
            ParsedValue::Lo(false),
        ]
    );
    assert_eq!(decode_line(&layout("(l3)"), "yes"), Err(ParseFortranFormattedError::InvalidLogical));
}

#[test]
fn reals_that_are_not_numbers() {
    let formats = layout("(f8.3)");
    assert_eq!(decode_line(&formats, "  1.2.3 "), Err(ParseFortranFormattedError::NumericParseFailure));
    assert_eq!(decode_line(&formats, "   1.5e3"), Err(ParseFortranFormattedError::NumericParseFailure));
    assert_eq!(decode_line(&formats, "      - "), Err(ParseFortranFormattedError::NumericParseFailure));
    assert_eq!(decode_line(&formats, "      .5").unwrap(), vec![fl(false, "5", 1)]);
}

#[test]
fn short_line_fails_before_any_field() {
    let formats = layout("(i2,i5)");
    assert_eq!(
        decode_line(&formats, "xx12"),
        Err(ParseFortranFormattedError::LineTooShort { expected: 7, actual: 4 })
    );
    assert_eq!(decode_line(&formats, ""), Err(ParseFortranFormattedError::LineTooShort { expected: 7, actual: 0 }));
}

#[test]
fn long_line_reads_layout_width_only() {
    let formats = layout("(i2,1x,i3)");
    let exact = decode_line(&formats, " 4 567").unwrap();
    assert_eq!(exact, vec![ParsedValue::In(4), ParsedValue::In(567)]);
    assert_eq!(decode_line(&formats, " 4 567 and more text"), Ok(exact));
}

#[test]
fn skip_fields_span_any_text() {
    let formats = layout("(2x,i1,x)");
    assert_eq!(decode_line(&formats, "ab3c").unwrap(), vec![ParsedValue::In(3)]);
    assert_eq!(decode_line(&layout("(4x)"), "    ").unwrap(), vec![]);
}

#[test]
fn decoding_twice_gives_the_same() {
    let formats = layout("(a2,2f6.2,l2)");
    let line = "He  1.25 -0300 T";
    let first = decode_line(&formats, line);
    let second = decode_line(&formats, line);
    assert_eq!(first, second);
    assert_eq!(first.unwrap().len(), 4);
}

#[test]
fn stream_reports_each_line() {
    let formats = layout("(i3)");
    let results = decode_stream(&formats, &lines(&["  1", "abc", "", " 42"]));
    assert_eq!(results.len(), 4);
    assert_eq!(results[0], Ok(vec![ParsedValue::In(1)]));
    assert_eq!(results[1], Err(ParseFortranFormattedError::NumericParseFailure));
    assert_eq!(results[2], Err(ParseFortranFormattedError::LineTooShort { expected: 3, actual: 0 }));
    assert_eq!(results[3], Ok(vec![ParsedValue::In(42)]));
}

#[test]
fn symbol_and_coordinate_rows() {
    let source = lines(&[
        "(1a,3f8.3)",
        "C   0.000   0.000   1.890",
        "C   2.551   0.000   1.890",
        "H   3.496  -1.157   0.733",
    ]);
    let rows = parse_fortran_formatted_lines(&source).unwrap();
    assert_eq!(rows.len(), 6);
    let expected = [
        ("C", [0.0, 0.0, 1.89]),
        ("C", [2.551, 0.0, 1.89]),
        ("H", [3.496, -1.157, 0.733]),
    ];
    for (k, (symbol, coordinates)) in expected.iter().enumerate() {
        assert_eq!(rows[2 * k].len(), 1);
        assert_eq!(text(&rows[2 * k][0]), *symbol);
        let reals: Vec<f64> = rows[2 * k + 1].iter().map(as_f64).collect();
        assert_eq!(reals, coordinates.to_vec());
    }
}

#[test]
fn test_fortran_format_string() {
    let source = lines(&[
        "(1a,3f16.12)",
        "C  0.000000000000  0.000000000000  1.889725988579",
        "C  2.551130084582  0.000000000000  1.889725988579",
        "C -2.551130084582  0.000000000000  1.889725988579",
        "H  3.495993078871  1.157216106424  0.732509882155",
        "H  3.495993078871 -1.157216106424  3.046942095003",
        "H -3.495993078871 -1.157216106424  0.732509882155",
        "H -3.495993078871  1.157216106424  3.046942095003",
    ]);
    let test_parsed = parse_fortran_formatted_lines(&source).unwrap();
    let expected: Vec<(&str, [f64; 3])> = vec![
        ("C", [0.0, 0.0, 1.889725988579]),
        ("C", [2.551130084582, 0.000000000000, 1.889725988579]),
        ("C", [-2.551130084582, 0.000000000000, 1.889725988579]),
        ("H", [3.495993078871, 1.157216106424, 0.732509882155]),
        ("H", [3.495993078871, -1.157216106424, 3.046942095003]),
        ("H", [-3.495993078871, -1.157216106424, 0.732509882155]),
        ("H", [-3.495993078871, 1.157216106424, 3.046942095003]),
    ];
    assert_eq!(test_parsed.len(), 2 * expected.len());
    for (k, (symbol, coordinates)) in expected.iter().enumerate() {
        assert_eq!(test_parsed[2 * k], vec![ParsedValue::St(symbol.to_string())]);
        let reals: Vec<f64> = test_parsed[2 * k + 1].iter().map(as_f64).collect();
        assert_eq!(reals, coordinates.to_vec());
    }
}

#[test]
fn header_is_first_non_empty_line() {
    let source = lines(&["", "", "(i2,x,a1)", "12 q", " 3 r"]);
    let rows = parse_fortran_formatted_lines(&source).unwrap();
    assert_eq!(
        rows,
        vec![
            vec![ParsedValue::In(12)],
            vec![ParsedValue::St("q".to_string())],
            vec![ParsedValue::In(3)],
            vec![ParsedValue::St("r".to_string())],
        ]
    );
    assert_eq!(parse_fortran_formatted_lines(&lines(&["", ""])), Err(ParseFortranFormattedError::MalformedHeader));
    assert_eq!(parse_fortran_formatted_lines(&lines(&["3I5,1x", "1"])), Err(ParseFortranFormattedError::MalformedHeader));
}

#[test]
fn records_stop_at_first_bad_line() {
    let source = lines(&["(i2)", " 1", " x", "  "]);
    assert_eq!(parse_fortran_formatted_lines(&source), Err(ParseFortranFormattedError::NumericParseFailure));
}

#[test]
fn long_numerals_keep_every_digit() {
    let formats = layout("(f22.1,f26.3)");
    let line = format!("{:>22}{:>26}", "12345678901234567890.5", "-1234567890123456789012345");
    let values = decode_line(&formats, &line).unwrap();
    assert_eq!(values[0], fl(false, "123456789012345678905", 1));
    assert_eq!(values[1], fl(true, "1234567890123456789012345", 3));
    assert_eq!(as_f64(&values[0]), 12345678901234567890.5);
    assert_eq!(as_f64(&values[1]), -1234567890123456789012.345);
}

#[test]
fn unicode_white_space_is_trimmed() {
    let formats = layout("(a4,i4)");
    let values = decode_line(&formats, "\u{a0}ab\u{3000}\u{2003}42\u{85}").unwrap();
    assert_eq!(values, vec![ParsedValue::St("ab".to_string()), ParsedValue::In(42)]);
}
