use template_cke::errors::{InterpolateError, ParseError};
use template_cke::parser::parse_parts;
use template_cke::{Interpolator, Part};

const FORMAT: &str = "potato{0}-{2}/{4:03}_{*},{-1}suffix";

fn expected() -> Vec<Part> {
    vec![
        Part::String("potato".into()),
        Part::Index { idx: 0, pad: 0 },
        Part::String("-".into()),
        Part::Index { idx: 2, pad: 0 },
        Part::String("/".into()),
        Part::Index { idx: 4, pad: 3 },
        Part::String("_".into()),
        Part::CatchAll { pad: 0 },
        Part::String(",".into()),
        Part::NegIndex { idx: -1, pad: 0 },
        Part::String("suffix".into()),
    ]
}

fn make_interp() -> Interpolator {
    Interpolator::try_new(FORMAT, Some(":")).unwrap()
}

#[test]
fn can_instantiate() {
    let interpolator = make_interp();
    assert_eq!(interpolator.parts(), &expected());
}

#[test]
fn can_interpolate() {
    let interpolator = make_interp();
    let result = interpolator.interpolate(&[0, 1, 2, 3, 4, 5, 6]).unwrap();
    assert_eq!(result, "potato0-2/004_1:3:5,6suffix");
}

#[test]
fn can_parse_parts() {
    let res = parse_parts(FORMAT).unwrap();
    assert_eq!(res, expected());
}

fn render(fmt: &str, sep: Option<&str>, idx: &[u64]) -> Result<String, InterpolateError> {
    Interpolator::try_new(fmt, sep).unwrap().interpolate(idx)
}

#[test]
fn literal_text_is_copied() {
    assert_eq!(render("abc/def", None, &[1, 2]).unwrap(), "abc/def");
    assert_eq!(render("", None, &[1, 2]).unwrap(), "");
    assert_eq!(parse_parts("abc").unwrap(), vec![Part::String("abc".into())]);
    assert_eq!(parse_parts("").unwrap(), vec![]);
}

#[test]
fn escaped_braces() {
    assert_eq!(render("{{{0}}}", None, &[5]).unwrap(), "{5}");
    assert_eq!(
        parse_parts("a{{b}}c").unwrap(),
        vec![Part::String("a{b}c".into())]
    );
}

#[test]
fn placeholder_at_start_gives_empty_text_part() {
    assert_eq!(
        parse_parts("{0}{1}").unwrap(),
        vec![
            Part::String("".into()),
            Part::Index { idx: 0, pad: 0 },
            Part::String("".into()),
            Part::Index { idx: 1, pad: 0 },
        ]
    );
}

#[test]
fn padding_and_wide_numbers() {
    assert_eq!(render("{0:05}", None, &[42]).unwrap(), "00042");
    assert_eq!(render("{0:02}", None, &[12345]).unwrap(), "12345");
    assert_eq!(render("{0:00}", None, &[0]).unwrap(), "0");
    assert_eq!(
        render("{0}", None, &[u64::MAX]).unwrap(),
        "18446744073709551615"
    );
}

#[test]
fn negative_indices_count_from_the_end() {
    assert_eq!(render("{-1}/{-3}", None, &[7, 8, 9]).unwrap(), "9/7");
}

#[test]
fn catch_all_skips_named_indices() {
    assert_eq!(render("{*}", Some("."), &[1, 2, 3]).unwrap(), "1.2.3");
    assert_eq!(render("{*:03}", Some("-"), &[1, 22, 333]).unwrap(), "001-022-333");
    assert_eq!(render("x{0}y{*}", Some(","), &[1, 2, 3]).unwrap(), "x1y2,3");
    assert_eq!(render("{*}|{-1}", Some(","), &[1, 2, 3]).unwrap(), "1,2|3");
    assert_eq!(render("{*}", Some(","), &[]).unwrap(), "");
    assert_eq!(render("{0}{*}", Some(","), &[4]).unwrap(), "4");
}

#[test]
fn plus_sign_is_accepted() {
    assert_eq!(
        parse_parts("{+3:0+2}").unwrap(),
        vec![Part::String("".into()), Part::Index { idx: 3, pad: 2 }]
    );
}

#[test]
fn minus_zero_is_a_negative_index() {
    let i = Interpolator::try_new("{-0}", None).unwrap();
    assert_eq!(
        i.parts(),
        &vec![Part::String("".into()), Part::NegIndex { idx: 0, pad: 0 }]
    );
    assert_eq!(
        i.interpolate(&[1, 2]),
        Err(InterpolateError::IndexOutOfBounds(0, 2))
    );
}

#[test]
fn out_of_bounds_indices() {
    assert_eq!(
        render("{5}", None, &[1, 2]),
        Err(InterpolateError::IndexOutOfBounds(5, 2))
    );
    assert_eq!(
        render("{-3}", None, &[1, 2]),
        Err(InterpolateError::IndexOutOfBounds(-3, 2))
    );
    assert_eq!(
        render("{18446744073709551615}", None, &[1]),
        Err(InterpolateError::IndexOutOfBounds(-1, 1))
    );
}

#[test]
fn unmatched_braces() {
    for fmt in ["{0", "}", "a}b", "{0}}", "{"] {
        assert_eq!(
            Interpolator::try_new(fmt, None).unwrap_err(),
            ParseError::UnmatchedBrace(fmt.to_string())
        );
    }
}

#[test]
fn invalid_number_format() {
    assert_eq!(
        Interpolator::try_new("{0:3}", None).unwrap_err(),
        ParseError::InvalidNumberFormat("3".into())
    );
    assert_eq!(
        Interpolator::try_new("{0:0}", None).unwrap_err(),
        ParseError::InvalidNumberFormat("0".into())
    );
    assert_eq!(
        Interpolator::try_new("{0:}", None).unwrap_err(),
        ParseError::InvalidNumberFormat("".into())
    );
    assert_eq!(
        Interpolator::try_new("{0:0x:1}", None).unwrap_err(),
        ParseError::InvalidNumberFormat("0x:1".into())
    );
}

#[test]
fn invalid_index() {
    assert_eq!(
        Interpolator::try_new("{a}", None).unwrap_err(),
        ParseError::InvalidIndex("a".into())
    );
    assert_eq!(
        Interpolator::try_new("{}", None).unwrap_err(),
        ParseError::InvalidIndex("".into())
    );
    assert_eq!(
        Interpolator::try_new("{-}", None).unwrap_err(),
        ParseError::InvalidIndex("-".into())
    );
    assert_eq!(
        Interpolator::try_new("{18446744073709551616}", None).unwrap_err(),
        ParseError::InvalidIndex("18446744073709551616".into())
    );
    assert_eq!(
        Interpolator::try_new("{-9223372036854775809}", None).unwrap_err(),
        ParseError::InvalidIndex("-9223372036854775809".into())
    );
    assert_eq!(
        Interpolator::try_new("{**}", Some(",")).unwrap_err(),
        ParseError::InvalidIndex("**".into())
    );
}

#[test]
fn extreme_negative_index_parses() {
    assert_eq!(
        parse_parts("{-9223372036854775808}").unwrap(),
        vec![
            Part::String("".into()),
            Part::NegIndex { idx: isize::MIN, pad: 0 }
        ]
    );
}

#[test]
fn duplicate_index() {
    assert_eq!(
        Interpolator::try_new("{0}{0}", None).unwrap_err(),
        ParseError::DuplicateIndex(0)
    );
    assert_eq!(
        Interpolator::try_new("{-1}/{-1:02}", None).unwrap_err(),
        ParseError::DuplicateIndex(-1)
    );
    // A positive and a negative index naming the same coordinate are distinct.
    assert!(Interpolator::try_new("{0}{-1}", None).is_ok());
}

#[test]
fn catch_all_rules() {
    assert_eq!(
        Interpolator::try_new("{*}", None).unwrap_err(),
        ParseError::CatchAllNeedsSeparator
    );
    assert_eq!(
        Interpolator::try_new("{*}{*}", Some(",")).unwrap_err(),
        ParseError::MultipleCatchAll
    );
    assert!(make_interp().has_catchall());
    assert!(!Interpolator::try_new("{0}", None).unwrap().has_catchall());
}

#[test]
fn part_from_isize_and_str() {
    assert_eq!(Part::from(-2), Part::NegIndex { idx: -2, pad: 0 });
    assert_eq!(Part::from(3), Part::Index { idx: 3, pad: 0 });
    assert_eq!("*:04".parse::<Part>().unwrap(), Part::CatchAll { pad: 4 });
    assert_eq!("-2:01".parse::<Part>().unwrap(), Part::NegIndex { idx: -2, pad: 1 });
    assert_eq!(
        "x".parse::<Part>().unwrap_err(),
        ParseError::InvalidIndex("x".into())
    );
    assert_eq!(Part::CatchAll { pad: 4 }.padded_to(), 4);
    assert_eq!(Part::String("a".into()).padded_to(), 0);
}

#[test]
fn buffer_length_hint() {
    let i = make_interp();
    // widest (3) * 7 + literal bytes (16) + (7 - (4 + 1)) * 1
    assert_eq!(i.buf_len(&[0, 1, 2, 3, 4, 5, 6]), Some(3 * 7 + 16 + 2));
    let big = Interpolator::try_new("{0:09999999999999999999}", None).unwrap();
    assert_eq!(big.buf_len(&[1, 2]), None);
    assert_eq!(big.buf_len(&[]), Some(0));
}

#[test]
fn unicode_literal_text() {
    assert_eq!(render("é{0}ü", None, &[3]).unwrap(), "é3ü");
    let i = Interpolator::try_new("é{0}", None).unwrap();
    // two bytes of literal text, one digit
    assert_eq!(i.buf_len(&[3]), Some(1 + 2));
}
