use template_cke::errors::{InterpolateError, ParseError};
use template_cke::zarrs::{
    EncodeError, TemplateChunkKeyEncoding, TemplateChunkKeyEncodingConfiguration,
};

const FORMAT: &str = "potato{0}-{2}/{4:03}_{*},{-1}suffix";

#[test]
fn configuration_keeps_separator_with_catch_all() {
    let encoding = TemplateChunkKeyEncoding::try_new(FORMAT, Some(":")).unwrap();
    let config = encoding.to_configuration();
    assert_eq!(
        config,
        TemplateChunkKeyEncodingConfiguration {
            format: FORMAT.to_string(),
            separator: Some(":".to_string()),
        }
    );
}

#[test]
fn configuration_drops_separator_without_catch_all() {
    let encoding = TemplateChunkKeyEncoding::try_new("c/{0}/{1}", Some("x")).unwrap();
    let config = encoding.to_configuration();
    assert_eq!(config.format, "c/{0}/{1}");
    assert_eq!(config.separator, None);
}

#[test]
fn configuration_round_trip() {
    for (fmt, sep) in [(FORMAT, Some(":")), ("c/{0}/{1}", Some("x")), ("{-1}", None)] {
        let encoding = TemplateChunkKeyEncoding::try_new(fmt, sep).unwrap();
        let rebuilt =
            TemplateChunkKeyEncoding::from_configuration(encoding.to_configuration()).unwrap();
        let idx = [0, 1, 2, 3, 4, 5, 6];
        assert_eq!(
            rebuilt.encode_key(&idx).unwrap().as_str(),
            encoding.encode_key(&idx).unwrap().as_str()
        );
    }
}

#[test]
fn from_configuration_reports_errors() {
    let config = TemplateChunkKeyEncodingConfiguration {
        format: "{*}".to_string(),
        separator: None,
    };
    assert_eq!(
        TemplateChunkKeyEncoding::from_configuration(config).unwrap_err(),
        ParseError::CatchAllNeedsSeparator
    );
    assert_eq!(
        TemplateChunkKeyEncoding::try_new("{0", None).unwrap_err(),
        ParseError::UnmatchedBrace("{0".to_string())
    );
}

#[test]
fn encode_key_gives_store_key() {
    let encoding = TemplateChunkKeyEncoding::try_new(FORMAT, Some(":")).unwrap();
    let key = encoding.encode_key(&[0, 1, 2, 3, 4, 5, 6]).unwrap();
    assert_eq!(key.as_str(), "potato0-2/004_1:3:5,6suffix");
    let encoding = TemplateChunkKeyEncoding::try_new("c/{0}/{1}", None).unwrap();
    assert_eq!(encoding.encode_key(&[3, 4]).unwrap().as_str(), "c/3/4");
}

#[test]
fn encode_key_rejects_invalid_store_keys() {
    let cases = [("/{0}", "/1"), ("a//{0}", "a//1"), ("{0}/", "1/"), ("{*}", "1//2")];
    for (fmt, key) in cases {
        let encoding = TemplateChunkKeyEncoding::try_new(fmt, Some("//")).unwrap();
        let idx: &[u64] = if fmt == "{*}" { &[1, 2] } else { &[1] };
        assert_eq!(
            encoding.encode_key(idx).unwrap_err(),
            EncodeError::InvalidKey(key.to_string())
        );
    }
}

#[test]
fn encode_key_reports_interpolation_errors() {
    let encoding = TemplateChunkKeyEncoding::try_new("{3}", None).unwrap();
    assert_eq!(
        encoding.encode_key(&[1]).unwrap_err(),
        EncodeError::Interpolate(InterpolateError::IndexOutOfBounds(3, 1))
    );
}

#[test]
fn encoding_buffer_length() {
    let encoding = TemplateChunkKeyEncoding::try_new("c/{0}", None).unwrap();
    assert_eq!(encoding.buf_len(&[123]), Some(3 + 2));
}
