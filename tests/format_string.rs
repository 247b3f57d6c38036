use std::str::FromStr;

use qc_file_parsers::format_string::frmtstngerror::{FieldFault, ParseFortranFormattedError};
use qc_file_parsers::format_string::{get_formats, FortranFormat};

fn fault_of(token: &str) -> FieldFault {
    match FortranFormat::from_str(token) {
        Err(ParseFortranFormattedError::MalformedField { token: t, reason }) => {
            assert_eq!(t, token);
            reason
        }
        other => panic!("expected a malformed field, got {:?}", other),
    }
}

#[test]
fn test_from_str() {
    let test_string = "23f4.2";
    let expected = FortranFormat {
        rep: 23,
        kind: "f".to_string(),
        fw: 4,
        suffix: 2,
    };
    let parsed = FortranFormat::from_str(test_string).unwrap();
    assert_eq!(expected, parsed);
    let test_string = "6f12.8";
    let expected = FortranFormat {
        rep: 6,
        kind: "f".to_string(),
        fw: 12,
        suffix: 8,
    };
    let parsed = FortranFormat::from_str(test_string).unwrap();
    assert_eq!(expected, parsed);
    // An absent repeat count means one occurrence.
    let test_string = "i4";
    let expected = FortranFormat {
        rep: 1,
        kind: "i".to_string(),
        fw: 4,
        suffix: 0,
    };
    let parsed = FortranFormat::from_str(test_string).unwrap();
    assert_eq!(expected, parsed);
    let test_string = "2x";
    let expected = FortranFormat {
        rep: 2,
        kind: "x".to_string(),
        fw: 1,
        suffix: 0,
    };
    let parsed = FortranFormat::from_str(test_string).unwrap();
    assert_eq!(expected, parsed);
}

#[test]
fn test_get_formats() {
    let test_string = "(i4,1x,3a,5f12.8)";
    let parsed = get_formats(test_string.to_string()).unwrap();
    let expected = vec![
        FortranFormat::new(1, "i".to_string(), 4, 0),
        FortranFormat::new(1, "x".to_string(), 1, 0),
        FortranFormat::new(3, "a".to_string(), 1, 0),
        FortranFormat::new(5, "f".to_string(), 12, 8),
    ];
    assert_eq!(parsed, expected);
}

#[test]
fn token_parts_read_back() {
    for (rep, kind, width, decimals) in [(1usize, 'f', 1usize, 0usize), (23, 'f', 4, 2), (7, 'i', 10, 0), (12, 'a', 3, 0), (4, 'l', 2, 0)] {
        let token = if kind == 'f' {
            format!("{}{}{}.{}", rep, kind, width, decimals)
        } else {
            format!("{}{}{}", rep, kind, width)
        };
        let parsed = FortranFormat::from_str(&token).unwrap();
        assert_eq!(parsed, FortranFormat::new(rep, kind.to_string(), width, decimals));
    }
}

#[test]
fn zero_repeat_means_once() {
    let parsed = FortranFormat::from_str("0f4.2").unwrap();
    assert_eq!(parsed, FortranFormat::new(1, "f".to_string(), 4, 2));
}

#[test]
fn kind_letter_in_upper_case() {
    let parsed = get_formats("  (3I5,1X,10F8.3)\n".to_string()).unwrap();
    assert_eq!(
        parsed,
        vec![
            FortranFormat::new(3, "i".to_string(), 5, 0),
            FortranFormat::new(1, "x".to_string(), 1, 0),
            FortranFormat::new(10, "f".to_string(), 8, 3),
        ]
    );
}

#[test]
fn header_without_parentheses() {
    assert_eq!(
        get_formats("3I5,1x".to_string()),
        Err(ParseFortranFormattedError::MalformedHeader)
    );
    assert_eq!(
        get_formats("(3I5,1x".to_string()),
        Err(ParseFortranFormattedError::MalformedHeader)
    );
    assert_eq!(get_formats("".to_string()), Err(ParseFortranFormattedError::MalformedHeader));
}

#[test]
fn header_with_unknown_kind() {
    assert_eq!(
        get_formats("(3q5)".to_string()),
        Err(ParseFortranFormattedError::MalformedField {
            token: "3q5".to_string(),
            reason: FieldFault::UnknownKind,
        })
    );
}

#[test]
fn header_stops_at_first_bad_token() {
    assert_eq!(
        get_formats("(i4,,2q1,i0)".to_string()),
        Err(ParseFortranFormattedError::MalformedField {
            token: "".to_string(),
            reason: FieldFault::NoKind,
        })
    );
    assert_eq!(
        get_formats("(i4,i0,3q5)".to_string()),
        Err(ParseFortranFormattedError::MalformedField {
            token: "i0".to_string(),
            reason: FieldFault::ZeroWidth,
        })
    );
}

#[test]
fn each_token_fault() {
    assert_eq!(fault_of("34"), FieldFault::NoKind);
    assert_eq!(fault_of("3z4"), FieldFault::UnknownKind);
    assert_eq!(fault_of("+3i4"), FieldFault::BadRepeat);
    assert_eq!(fault_of("99999999999999999999i4"), FieldFault::BadRepeat);
    assert_eq!(fault_of("f.2"), FieldFault::BadWidth);
    assert_eq!(fault_of("i4x"), FieldFault::BadWidth);
    assert_eq!(fault_of("i0"), FieldFault::ZeroWidth);
    assert_eq!(fault_of("f4."), FieldFault::BadDecimals);
    assert_eq!(fault_of("f4.2x"), FieldFault::BadDecimals);
    assert_eq!(fault_of("i4.2"), FieldFault::DecimalsNotAllowed);
}

#[test]
fn error_messages() {
    let e = ParseFortranFormattedError::MalformedField {
        token: "3q5".to_string(),
        reason: FieldFault::UnknownKind,
    };
    assert_eq!(e.message().msg, "malformed format token '3q5': unknown kind letter");
    let e = ParseFortranFormattedError::LineTooShort { expected: 120, actual: 7 };
    assert_eq!(e.message().msg, "line holds 7 characters, the format needs 120");
    assert_eq!(
        ParseFortranFormattedError::MalformedHeader.message().msg,
        "format header must be enclosed in '(' and ')'"
    );
}

#[test]
fn header_trimmed_of_unicode_white_space() {
    let plain = get_formats("(i4)".to_string()).unwrap();
    assert_eq!(get_formats("\u{a0}(i4)\u{3000}\n".to_string()).unwrap(), plain);
    assert_eq!(get_formats("\u{2028}\t(i4) \u{205f}".to_string()).unwrap(), plain);
}

#[test]
fn default_format() {
    assert_eq!(FortranFormat::default(), FortranFormat::new(1, "i".to_string(), 1, 1));
}
