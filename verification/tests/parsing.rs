use textfmt::format_str_parsing::Formatting;
use textfmt::{
    parse_format_str, FmtArg, FmtStrComponent, FormatStr, ParseError, ParseErrorKind, WhichArg,
};

fn lit(s: &str) -> FmtStrComponent {
    FmtStrComponent::str(s)
}

fn arg(which: WhichArg, formatting: Formatting) -> FmtStrComponent {
    FmtStrComponent::arg(which, formatting)
}

#[test]
fn parse_implicit_positional() {
    let fs = parse_format_str("The {} man").unwrap();
    assert_eq!(
        fs,
        FormatStr {
            list: vec![
                lit("The "),
                arg(WhichArg::Positional(None), Formatting::Display),
                lit(" man"),
            ],
        }
    );
}

#[test]
fn parse_escaped_braces() {
    let fs = parse_format_str("{{literal}}").unwrap();
    assert_eq!(fs, FormatStr { list: vec![lit("{literal}")] });
}

#[test]
fn parse_named_debug() {
    let fs = parse_format_str("{foo:?}").unwrap();
    assert_eq!(fs, FormatStr { list: vec![arg(WhichArg::ident("foo"), Formatting::Debug)] });
}

#[test]
fn parse_explicit_positional() {
    let fs = parse_format_str("{0}{1}").unwrap();
    assert_eq!(
        fs,
        FormatStr {
            list: vec![
                arg(WhichArg::Positional(Some(0)), Formatting::Display),
                arg(WhichArg::Positional(Some(1)), Formatting::Display),
            ],
        }
    );
}

#[test]
fn parse_unclosed_arg() {
    assert_eq!(
        parse_format_str("{"),
        Err(ParseError { pos: 0, kind: ParseErrorKind::UnclosedArg })
    );
    assert_eq!(
        parse_format_str("ab {0"),
        Err(ParseError { pos: 3, kind: ParseErrorKind::UnclosedArg })
    );
}

#[test]
fn parse_unknown_formatting() {
    assert_eq!(
        parse_format_str("{:x}"),
        Err(
            ParseError {
                pos: 2,
                kind: ParseErrorKind::UnknownFormatting { what: "x".to_string() },
            },
        )
    );
    assert_eq!(
        parse_format_str("{foo:#?}"),
        Err(
            ParseError {
                pos: 5,
                kind: ParseErrorKind::UnknownFormatting { what: "#?".to_string() },
            },
        )
    );
}

#[test]
fn parse_explicit_display_spec() {
    let fs = parse_format_str("{foo:}").unwrap();
    assert_eq!(fs, FormatStr { list: vec![arg(WhichArg::ident("foo"), Formatting::Display)] });
}

#[test]
fn parse_stray_closing_brace() {
    assert_eq!(
        parse_format_str("a}b"),
        Err(ParseError { pos: 1, kind: ParseErrorKind::InvalidClosedArg })
    );
}

#[test]
fn parse_doubled_closing_brace() {
    let fs = parse_format_str("a}}b{}c}}").unwrap();
    assert_eq!(
        fs,
        FormatStr {
            list: vec![
                lit("a}b"),
                arg(WhichArg::Positional(None), Formatting::Display),
                lit("c}"),
            ],
        }
    );
}

#[test]
fn parse_not_a_number() {
    assert_eq!(
        parse_format_str("{1a}"),
        Err(
            ParseError { pos: 1, kind: ParseErrorKind::NotANumber { what: "1a".to_string() } },
        )
    );
    // an all-digit selector too large for usize overflows, it does not wrap
    assert_eq!(
        parse_format_str("{99999999999999999999999999}"),
        Err(
            ParseError {
                pos: 1,
                kind: ParseErrorKind::NotANumber { what: "99999999999999999999999999".to_string() },
            },
        )
    );
}

#[test]
fn parse_not_an_ident() {
    assert_eq!(
        parse_format_str("{a+b}"),
        Err(ParseError { pos: 1, kind: ParseErrorKind::NotAnIdent { what: "a+b".to_string() } })
    );
    // a lone underscore is not an identifier; a longer one is
    assert_eq!(
        parse_format_str("{_}"),
        Err(ParseError { pos: 1, kind: ParseErrorKind::NotAnIdent { what: "_".to_string() } })
    );
    let fs = parse_format_str("{_a}").unwrap();
    assert_eq!(fs, FormatStr { list: vec![arg(WhichArg::ident("_a"), Formatting::Display)] });
}

#[test]
fn parse_unicode_ident() {
    // the identifier check is the Unicode one, not an ASCII shortcut
    let fs = parse_format_str("{m\u{fc}nchen}").unwrap();
    assert_eq!(
        fs,
        FormatStr { list: vec![arg(WhichArg::ident("m\u{fc}nchen"), Formatting::Display)] }
    );
}

#[test]
fn parse_error_positions_are_byte_offsets() {
    // a 3-byte char before the offending brace
    assert_eq!(
        parse_format_str("\u{8c46}{"),
        Err(ParseError { pos: 3, kind: ParseErrorKind::UnclosedArg })
    );
    assert_eq!(
        parse_format_str("\u{8c46}}x"),
        Err(ParseError { pos: 3, kind: ParseErrorKind::InvalidClosedArg })
    );
    assert_eq!(
        parse_format_str("\u{8c46}{:y}"),
        Err(
            ParseError {
                pos: 5,
                kind: ParseErrorKind::UnknownFormatting { what: "y".to_string() },
            },
        )
    );
}

#[test]
fn parse_mixed_template() {
    let fs = parse_format_str("x{{y}}{0:?}z{w}").unwrap();
    assert_eq!(
        fs,
        FormatStr {
            list: vec![
                lit("x{y}"),
                arg(WhichArg::Positional(Some(0)), Formatting::Debug),
                lit("z"),
                arg(WhichArg::ident("w"), Formatting::Display),
            ],
        }
    );
}

#[test]
fn parse_implicit_debug() {
    let fs = parse_format_str("{:?}").unwrap();
    assert_eq!(fs, FormatStr { list: vec![arg(WhichArg::Positional(None), Formatting::Debug)] });
}

#[test]
fn parse_formatting_error_offset_after_selector() {
    assert_eq!(
        parse_format_str("{0:x}"),
        Err(
            ParseError {
                pos: 3,
                kind: ParseErrorKind::UnknownFormatting { what: "x".to_string() },
            },
        )
    );
}

#[test]
fn parse_split_on_first_colon() {
    assert_eq!(
        parse_format_str("{a:b:c}"),
        Err(
            ParseError {
                pos: 3,
                kind: ParseErrorKind::UnknownFormatting { what: "b:c".to_string() },
            },
        )
    );
}

#[test]
fn parse_through_from_str() {
    let fs: FormatStr = "{1}".parse().unwrap();
    assert_eq!(
        fs,
        FormatStr { list: vec![arg(WhichArg::Positional(Some(1)), Formatting::Display)] }
    );
    assert!("{".parse::<FormatStr>().is_err());
}

#[test]
fn component_helpers() {
    assert_eq!(lit("ab"), FmtStrComponent::Str("ab".to_string()));
    assert_eq!(
        FmtArg::new(WhichArg::Positional(None), Formatting::Debug),
        FmtArg { which_arg: WhichArg::Positional(None), formatting: Formatting::Debug }
    );
    assert_eq!(WhichArg::ident("foo"), WhichArg::Ident("foo".to_string()));
}
