use osurate::beatmap::parser::{verify_ff, ParseError};
use osurate::numbers::{parse_decimal, render_decimal, Decimal};
use osurate::util::verify;

#[test]
fn decimal_parsing_canonicalizes() {
    assert_eq!(
        parse_decimal(b"1.50"),
        Some(Decimal { neg: false, mant: 15, scale: 1 })
    );
    assert_eq!(
        parse_decimal(b"500"),
        Some(Decimal { neg: false, mant: 500, scale: 0 })
    );
    assert_eq!(
        parse_decimal(b"-0.5"),
        Some(Decimal { neg: true, mant: 5, scale: 1 })
    );
    assert_eq!(
        parse_decimal(b"-0"),
        Some(Decimal { neg: false, mant: 0, scale: 0 })
    );
    assert_eq!(parse_decimal(b""), None);
    assert_eq!(parse_decimal(b"1."), None);
    assert_eq!(parse_decimal(b"x1"), None);
}

#[test]
fn decimal_rendering_round_trips() {
    for text in ["0", "500", "-100", "333.333", "0.5", "-0.125"] {
        let d = parse_decimal(text.as_bytes()).unwrap();
        assert_eq!(String::from_utf8(render_decimal(&d)).unwrap(), text);
    }
}

#[test]
fn verify_turns_conditions_into_results() {
    assert_eq!(verify(true, "boom"), Ok(()));
    assert_eq!(verify(false, "boom"), Err("boom"));
}

#[test]
fn verify_ff_reports_the_format_error() {
    assert_eq!(verify_ff(true), Ok(()));
    assert_eq!(verify_ff(false), Err(ParseError::InvalidBeatmap));
}
