//! The parts of a template: literal text and placeholders.
use vstd::prelude::*;

use crate::decimal::{parse_isize, parse_usize, spec_parse_isize, spec_parse_usize};
use crate::errors::{ParseError, ParseErrorView};
use crate::text::{chars_of, string_from_chars};

verus! {

/// One part of a template.
#[allow(inconsistent_fields)]
#[derive(Debug, Clone, PartialEq, Eq)]
pub enum Part {
    /// Literal text, copied as it is.
    String(String),
    /// `{idx}` or `{idx:0pad}`: the chunk coordinate at position `idx`.
    Index { idx: usize, pad: usize },
    /// `{-n}` or `{-n:0pad}`: the chunk coordinate at position `len + idx`,
    /// counted from the end.
    NegIndex { idx: isize, pad: usize },
    /// `{*}` or `{*:0pad}`: every coordinate that no other placeholder names,
    /// joined by the separator.
    CatchAll { pad: usize },
}

/// A [`Part`] with its text as a sequence of characters.
#[allow(inconsistent_fields)]
pub enum PartView {
    Str(Seq<char>),
    Index { idx: usize, pad: usize },
    NegIndex { idx: isize, pad: usize },
    CatchAll { pad: usize },
}

impl View for Part {
    type V = PartView;

    open spec fn view(&self) -> PartView {
        match self {
            Part::String(s) => PartView::Str(s@),
            Part::Index { idx, pad } => PartView::Index { idx: *idx, pad: *pad },
            Part::NegIndex { idx, pad } => PartView::NegIndex { idx: *idx, pad: *pad },
            Part::CatchAll { pad } => PartView::CatchAll { pad: *pad },
        }
    }
}

impl DeepView for Part {
    type V = PartView;

    open spec fn deep_view(&self) -> PartView {
        self@
    }
}

impl PartView {
    /// The width a placeholder pads its numbers to; literal text has none.
    pub open spec fn padded_to(self) -> usize {
        match self {
            PartView::Str(_) => 0,
            PartView::Index { pad, .. } => pad,
            PartView::NegIndex { pad, .. } => pad,
            PartView::CatchAll { pad } => pad,
        }
    }
}

impl Part {
    /// The width this part pads its numbers to (0 for literal text).
    pub fn padded_to(&self) -> (r: usize)
        ensures
            r == self@.padded_to(),
    {
        match self {
            Part::Index { pad, .. } => *pad,
            Part::NegIndex { pad, .. } => *pad,
            Part::CatchAll { pad } => *pad,
            Part::String(_s) => 0,
        }
    }

    /// Reads a placeholder from the text `s[lo..hi]` found between braces.
    pub fn from_chars(s: &[char], lo: usize, hi: usize) -> (r: Result<Part, ParseError>)
        requires
            lo <= hi <= s@.len(),
        ensures
            view_part_result(r) == spec_parse_part(s@.subrange(lo as int, hi as int)),
    {
        let ghost t = s@.subrange(lo as int, hi as int);
        let mut colon = lo;
        while colon < hi && s[colon] != ':'
            invariant
                lo <= colon <= hi <= s@.len(),
                forall|j: int| lo <= j < colon ==> s@[j] != ':',
            decreases hi - colon,
        {
            colon = colon + 1;
        }
        let idx_end = colon;
        let pad: usize;
        if colon < hi {
            proof {
                assert(is_first_colon(t, colon - lo));
                lemma_first_colon_unique(t, colon - lo);
                assert(s@.subrange(colon + 1, hi as int) =~= t.skip(colon - lo + 1));
                assert(s@.subrange(lo as int, colon as int) =~= t.take(colon - lo));
            }
            match parse_number_format(s, colon + 1, hi) {
                Ok(p) => {
                    pad = p;
                },
                Err(e) => {
                    return Err(e);
                },
            }
        } else {
            proof {
                assert forall|i: int| !is_first_colon(t, i) by {
                    if 0 <= i < t.len() {
                        assert(t[i] == s@[lo + i]);
                    }
                }
                assert(s@.subrange(lo as int, colon as int) =~= t);
            }
            pad = 0;
        }
        let ghost idx_str = s@.subrange(lo as int, idx_end as int);
        if idx_end > lo && idx_end - lo == 1 && s[lo] == '*' {
            assert(idx_str =~= seq!['*']);
            Ok(Part::CatchAll { pad })
        } else if idx_end > lo && s[lo] == '-' {
            assert(idx_str != seq!['*']);
            match parse_isize(s, lo, idx_end) {
                Some(idx) => Ok(Part::NegIndex { idx, pad }),
                None => Err(ParseError::InvalidIndex(string_from_chars(s, lo, idx_end))),
            }
        } else {
            assert(idx_str != seq!['*']);
            match parse_usize(s, lo, idx_end) {
                Some(idx) => Ok(Part::Index { idx, pad }),
                None => Err(ParseError::InvalidIndex(string_from_chars(s, lo, idx_end))),
            }
        }
    }
}

/// `i` is the position of the first `:` in `s`.
pub open spec fn is_first_colon(s: Seq<char>, i: int) -> bool {
    &&& 0 <= i < s.len()
    &&& s[i] == ':'
    &&& forall|j: int| 0 <= j < i ==> s[j] != ':'
}

/// The position of the first `:` in `s`, if there is one.
pub open spec fn first_colon(s: Seq<char>) -> Option<int> {
    if exists|i: int| is_first_colon(s, i) {
        Some(choose|i: int| is_first_colon(s, i))
    } else {
        None
    }
}

pub proof fn lemma_first_colon_unique(s: Seq<char>, i: int)
    requires
        is_first_colon(s, i),
    ensures
        first_colon(s) == Some(i),
{
    let k = choose|k: int| is_first_colon(s, k);
    assert(is_first_colon(s, k));
    if k < i {
        assert(s[k] != ':');
    }
    if i < k {
        assert(s[i] != ':');
    }
}

/// The pad width written after `:`: a `0`, then a number.
pub open spec fn spec_parse_pad(post: Seq<char>) -> Result<usize, ParseErrorView> {
    if post.len() > 0 && post[0] == '0' {
        match spec_parse_usize(post.drop_first()) {
            Some(p) => Ok(p),
            None => Err(ParseErrorView::InvalidNumberFormat(post)),
        }
    } else {
        Err(ParseErrorView::InvalidNumberFormat(post))
    }
}

/// What the text between braces reads as: `idx`, `-idx` or `*`, optionally
/// followed by `:` and a pad width.
pub open spec fn spec_parse_part(s: Seq<char>) -> Result<PartView, ParseErrorView> {
    let idx_str = match first_colon(s) {
        Some(i) => s.take(i),
        None => s,
    };
    let pad = match first_colon(s) {
        Some(i) => spec_parse_pad(s.skip(i + 1)),
        None => Ok(0usize),
    };
    match pad {
        Err(e) => Err(e),
        Ok(pad) => if idx_str == seq!['*'] {
            Ok(PartView::CatchAll { pad })
        } else if idx_str.len() > 0 && idx_str[0] == '-' {
            match spec_parse_isize(idx_str) {
                Some(idx) => Ok(PartView::NegIndex { idx, pad }),
                None => Err(ParseErrorView::InvalidIndex(idx_str)),
            }
        } else {
            match spec_parse_usize(idx_str) {
                Some(idx) => Ok(PartView::Index { idx, pad }),
                None => Err(ParseErrorView::InvalidIndex(idx_str)),
            }
        },
    }
}

/// A part result with its text as sequences of characters.
pub open spec fn view_part_result(r: Result<Part, ParseError>) -> Result<PartView, ParseErrorView> {
    match r {
        Ok(p) => Ok(p@),
        Err(e) => Err(e@),
    }
}

/// Reads the pad width from `s[lo..hi]`, the text after `:`.
fn parse_number_format(s: &[char], lo: usize, hi: usize) -> (r: Result<usize, ParseError>)
    requires
        lo <= hi <= s@.len(),
    ensures
        match r {
            Ok(p) => spec_parse_pad(s@.subrange(lo as int, hi as int)) == Ok::<
                usize,
                ParseErrorView,
            >(p),
            Err(e) => spec_parse_pad(s@.subrange(lo as int, hi as int)) == Err::<
                usize,
                ParseErrorView,
            >(e@),
        },
{
    let ghost post = s@.subrange(lo as int, hi as int);
    if !(lo < hi && s[lo] == '0') {
        return Err(ParseError::InvalidNumberFormat(string_from_chars(s, lo, hi)));
    }
    assert(s@.subrange(lo + 1, hi as int) =~= post.drop_first());
    match parse_usize(s, lo + 1, hi) {
        Some(p) => Ok(p),
        None => Err(ParseError::InvalidNumberFormat(string_from_chars(s, lo, hi))),
    }
}

impl From<isize> for Part {
    /// A placeholder for the coordinate at `index`, counted from the end
    /// when negative, without padding.
    fn from(index: isize) -> (r: Self) {
        if index < 0 {
            Self::NegIndex { idx: index, pad: 0 }
        } else {
            Self::Index { idx: index as usize, pad: 0 }
        }
    }
}

impl vstd::std_specs::convert::FromSpecImpl<isize> for Part {
    open spec fn obeys_from_spec() -> bool {
        true
    }

    open spec fn from_spec(index: isize) -> Part {
        if index < 0 {
            Part::NegIndex { idx: index, pad: 0 }
        } else {
            Part::Index { idx: index as usize, pad: 0 }
        }
    }
}

impl std::str::FromStr for Part {
    type Err = ParseError;

    /// Reads a placeholder from the text found between braces; see
    /// [`Part::from_chars`].
    fn from_str(s: &str) -> (r: Result<Self, Self::Err>)
        ensures
            view_part_result(r) == spec_parse_part(s@),
    {
        let chars = chars_of(s);
        assert(chars@.subrange(0, chars@.len() as int) =~= s@);
        Part::from_chars(chars.as_slice(), 0, chars.len())
    }
}

} // verus!
