use template_cke::errors::InterpolateError;
use template_cke::parser::parse_parts;
use template_cke::{Interpolator, Part};

fn render(fmt: &str, sep: Option<&str>, idx: &[u64]) -> Result<String, InterpolateError> {
    Interpolator::try_new(fmt, sep).unwrap().interpolate(idx)
}

#[test]
fn padded_coordinate_reads_back() {
    for (n, pad) in [(42u64, 5usize), (0, 3), (123456, 2), (7, 0)] {
        let fmt = format!("{{0:0{}}}", pad);
        let key = render(&fmt, None, &[n]).unwrap();
        assert!(key.len() >= pad);
        assert!(key.chars().all(|c| c.is_ascii_digit()));
        assert_eq!(key.parse::<u64>().unwrap(), n);
    }
}

#[test]
fn escaped_text_renders_as_text() {
    assert_eq!(render("a{{b}}c", Some("-"), &[1, 2]).unwrap(), "a{b}c");
    assert_eq!(render("{{}}", None, &[]).unwrap(), "{}");
}

#[test]
fn plain_text_renders_itself() {
    assert_eq!(render("data/chunks", Some(","), &[9, 9]).unwrap(), "data/chunks");
}

#[test]
fn index_placeholder_renders_coordinate() {
    assert_eq!(render("{3:04}", None, &[1, 2, 3, 4]).unwrap(), "0004");
    assert_eq!(
        render("{3:04}", None, &[1]),
        Err(InterpolateError::IndexOutOfBounds(3, 1))
    );
}

#[test]
fn first_out_of_range_placeholder_is_reported() {
    assert_eq!(
        render("a{-5}b{9}", None, &[1]),
        Err(InterpolateError::IndexOutOfBounds(-5, 1))
    );
    assert_eq!(
        render("{0}{9}{-5}", None, &[1]),
        Err(InterpolateError::IndexOutOfBounds(9, 1))
    );
}

#[test]
fn parts_alternate() {
    let parts = parse_parts("a{0}{1}b{*}c{{d").unwrap();
    for (i, p) in parts.iter().enumerate() {
        assert_eq!(matches!(p, Part::String(_)), i % 2 == 0);
    }
    assert_eq!(parts.len(), 7);
}

#[test]
fn lone_catch_all_renders_every_coordinate() {
    assert_eq!(render("{*:02}", Some("."), &[1, 2, 30]).unwrap(), "01.02.30");
}

#[test]
fn all_literal_template_ignores_coordinates() {
    let i = Interpolator::try_new("a{{b}}c", None).unwrap();
    assert_eq!(i.interpolate(&[]).unwrap(), "a{b}c");
    assert_eq!(i.interpolate(&[1, 2]).unwrap(), "a{b}c");
}

#[test]
fn placeholder_spellings_read_back() {
    assert_eq!("17".parse::<Part>().unwrap(), Part::Index { idx: 17, pad: 0 });
    assert_eq!("17:04".parse::<Part>().unwrap(), Part::Index { idx: 17, pad: 4 });
    assert_eq!("-2:03".parse::<Part>().unwrap(), Part::NegIndex { idx: -2, pad: 3 });
    assert_eq!("*:05".parse::<Part>().unwrap(), Part::CatchAll { pad: 5 });
}

#[test]
fn reserved_buffer_holds_the_key() {
    let cases: [(&str, Option<&str>, &[u64]); 4] = [
        ("potato{0}-{2}/{4:03}_{*},{-1}suffix", Some(":"), &[0, 1, 2, 3, 4, 5, 6]),
        ("é{0:05}/{*}", Some("--"), &[123456, 7, 8]),
        ("{*}", Some(","), &[]),
        ("x{-1}", None, &[99]),
    ];
    for (fmt, sep, idx) in cases {
        let i = Interpolator::try_new(fmt, sep).unwrap();
        let key = i.interpolate(idx).unwrap();
        assert!(key.len() <= i.buf_len(idx).unwrap());
    }
}
