//! The template chunk key encoding: a format string and its interpolator,
//! the configuration it is stored as, and the store keys it produces.
use vstd::prelude::*;

use zarrs_storage::{StoreKey, StoreKeyError};

use crate::errors::{InterpolateError, ParseError, ParseErrorView};
use crate::interpolator::{
    has_catch_all, spec_buf_len, spec_interpolate, spec_try_new, view_sep, Interpolator,
    InterpolatorView,
};

verus! {

#[verifier::external_type_specification]
#[verifier::external_body]
pub struct ExStoreKey(StoreKey);

#[verifier::external_type_specification]
#[verifier::external_body]
pub struct ExStoreKeyError(StoreKeyError);

/// The stored configuration of a template chunk key encoding: the format
/// string, and the separator when the format has a catch-all.
#[derive(Debug, Clone, PartialEq, Eq)]
pub struct TemplateChunkKeyEncodingConfiguration {
    pub format: String,
    pub separator: Option<String>,
}

/// A chunk key encoding that renders chunk grid indices through a template.
#[derive(Debug, Clone)]
pub struct TemplateChunkKeyEncoding {
    format: String,
    interpolator: Interpolator,
}

/// What a [`TemplateChunkKeyEncoding`] holds: its format string and the
/// interpolator built from it.
pub struct TemplateChunkKeyEncodingView {
    pub format: Seq<char>,
    pub interpolator: InterpolatorView,
}

impl View for TemplateChunkKeyEncoding {
    type V = TemplateChunkKeyEncodingView;

    closed spec fn view(&self) -> TemplateChunkKeyEncodingView {
        TemplateChunkKeyEncodingView { format: self.format@, interpolator: self.interpolator@ }
    }
}

/// Why encoding chunk grid indices into a store key failed.
#[derive(Debug, Clone, PartialEq, Eq)]
pub enum EncodeError {
    /// The template could not be rendered for these indices.
    Interpolate(InterpolateError),
    /// The rendered key is not a valid store key; holds the key.
    InvalidKey(String),
}

/// A valid store key: it neither starts nor ends with `/` and holds no
/// `//`.
pub open spec fn valid_store_key(key: Seq<char>) -> bool {
    &&& !(key.len() > 0 && key[0] == '/')
    &&& !(key.len() > 0 && key.last() == '/')
    &&& !(exists|i: int| 0 <= i < key.len() - 1 && key[i] == '/' && #[trigger] key[i + 1] == '/')
}

/// The text of a store key.
pub uninterp spec fn store_key_text(k: StoreKey) -> Seq<char>;

/// Makes a store key from `key`.
///
/// Trusted: calls `zarrs_storage::StoreKey::new`, which accepts exactly the
/// keys that `StoreKey::validate` accepts (those that do not start with `/`,
/// do not end with `/` and do not contain `//`), and keeps the text it is
/// given as the key's text.
#[verifier::external_body]
fn new_store_key(key: String) -> (r: Result<StoreKey, StoreKeyError>)
    ensures
        r is Ok <==> valid_store_key(key@),
        r matches Ok(k) ==> store_key_text(k) == key@,
{
    StoreKey::new(key)
}

/// What the configuration of an encoding holds: its format, and its
/// separator only when the format has a catch-all.
pub open spec fn spec_configuration(v: TemplateChunkKeyEncodingView) -> (Seq<char>, Option<Seq<char>>) {
    (
        v.format,
        if has_catch_all(v.interpolator.parts) {
            Some(v.interpolator.sep)
        } else {
            None
        },
    )
}

impl TemplateChunkKeyEncoding {
    /// Builds the encoding for `format`, with `separator` for its catch-all.
    pub fn try_new(format: &str, separator: Option<&str>) -> (r: Result<Self, ParseError>)
        ensures
            match r {
                Ok(e) => e@.format == format@ && spec_try_new(format@, view_sep(separator)) == Ok::<
                    InterpolatorView,
                    ParseErrorView,
                >(e@.interpolator) && e@.interpolator.wf(),
                Err(err) => spec_try_new(format@, view_sep(separator)) == Err::<
                    InterpolatorView,
                    ParseErrorView,
                >(err@),
            },
    {
        let format = format.to_owned();
        let interpolator = Interpolator::try_new(format.as_str(), separator)?;
        Ok(Self { format, interpolator })
    }

    /// Builds the encoding that `config` describes.
    pub fn from_configuration(config: TemplateChunkKeyEncodingConfiguration) -> (r: Result<
        Self,
        ParseError,
    >)
        ensures
            ({
                let sep = match config.separator {
                    Some(s) => Some(s@),
                    None => None::<Seq<char>>,
                };
                match r {
                    Ok(e) => e@.format == config.format@ && spec_try_new(config.format@, sep) == Ok::<
                        InterpolatorView,
                        ParseErrorView,
                    >(e@.interpolator) && e@.interpolator.wf(),
                    Err(err) => spec_try_new(config.format@, sep) == Err::<
                        InterpolatorView,
                        ParseErrorView,
                    >(err@),
                }
            }),
    {
        match &config.separator {
            Some(s) => Self::try_new(config.format.as_str(), Some(s.as_str())),
            None => Self::try_new(config.format.as_str(), None),
        }
    }

    /// The configuration this encoding is stored as.
    pub fn to_configuration(&self) -> (c: TemplateChunkKeyEncodingConfiguration)
        ensures
            (c.format@, match c.separator {
                Some(s) => Some(s@),
                None => None::<Seq<char>>,
            }) == spec_configuration(self@),
    {
        let separator = if self.interpolator.has_catchall() {
            Some(self.interpolator.separator().to_owned())
        } else {
            None
        };
        TemplateChunkKeyEncodingConfiguration { format: self.format.clone(), separator }
    }

    /// The number of bytes reserved when rendering `chunk_grid_indices`, or
    /// `None` when it exceeds `usize::MAX`; see [`Interpolator::buf_len`].
    pub fn buf_len(&self, chunk_grid_indices: &[u64]) -> (r: Option<usize>)
        ensures
            r == if spec_buf_len(self@.interpolator, chunk_grid_indices@) <= usize::MAX {
                Some(spec_buf_len(self@.interpolator, chunk_grid_indices@) as usize)
            } else {
                None::<usize>
            },
    {
        self.interpolator.buf_len(chunk_grid_indices)
    }

    /// Encodes chunk grid indices (grid cell coordinates) into a store key
    /// holding the rendered text. A template that names a coordinate the
    /// indices lack gives [`EncodeError::Interpolate`], and a rendered text
    /// that is no valid store key gives [`EncodeError::InvalidKey`]; the
    /// caller decides what to do with either.
    pub fn encode_key(&self, chunk_grid_indices: &[u64]) -> (r: Result<StoreKey, EncodeError>)
        requires
            chunk_grid_indices@.len() <= isize::MAX,
            spec_buf_len(self@.interpolator, chunk_grid_indices@) <= isize::MAX,
        ensures
            match spec_interpolate(self@.interpolator, chunk_grid_indices@) {
                Err(e) => r == Err::<StoreKey, EncodeError>(EncodeError::Interpolate(e)),
                Ok(key) => if valid_store_key(key) {
                    r matches Ok(k) && store_key_text(k) == key
                } else {
                    r matches Err(EncodeError::InvalidKey(k)) && k@ == key
                },
            },
    {
        match self.interpolator.interpolate(chunk_grid_indices) {
            Err(e) => Err(EncodeError::Interpolate(e)),
            Ok(key) => {
                let kept = key.clone();
                match new_store_key(key) {
                    Ok(store_key) => Ok(store_key),
                    Err(_) => Err(EncodeError::InvalidKey(kept)),
                }
            },
        }
    }
}

} // verus!
