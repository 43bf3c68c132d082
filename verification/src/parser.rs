//! Splitting a format string into literal text and placeholders.
//!
//! Text outside braces is literal, with `{{` and `}}` standing for `{` and
//! `}`. Text between `{` and the next `}` is a placeholder, read by
//! [`Part::from_chars`]. A literal part is produced before every placeholder,
//! empty when nothing precedes it, and after the last placeholder only when
//! text follows it.
use vstd::prelude::*;

use crate::errors::{ParseError, ParseErrorView};
use crate::part::{spec_parse_part, Part, PartView};
use crate::text::{chars_of, string_from_chars};

verus! {

/// The outcome of reading one part: the part (or `None` at the end of the
/// format), the position reached and whether that position is inside braces.
pub type ScanResult = (Result<Option<PartView>, ParseErrorView>, int, bool);

/// Reads the next part of `chars` from position `pos`, where `in_brace` tells
/// whether `pos` lies between braces and `buf` holds the text read so far for
/// this part. Every error names the whole format, `chars`.
pub open spec fn scan_part(chars: Seq<char>, pos: int, in_brace: bool, buf: Seq<char>) -> ScanResult
    decreases chars.len() - pos,
{
    if pos >= chars.len() {
        if in_brace {
            (Err(ParseErrorView::UnmatchedBrace(chars)), pos, in_brace)
        } else if buf.len() == 0 {
            (Ok(None), pos, in_brace)
        } else {
            (Ok(Some(PartView::Str(buf))), pos, in_brace)
        }
    } else {
        let c = chars[pos];
        if in_brace && c == '}' {
            (
                match spec_parse_part(buf) {
                    Ok(p) => Ok(Some(p)),
                    Err(e) => Err(e),
                },
                pos + 1,
                false,
            )
        } else if !in_brace && c == '{' {
            if pos + 1 < chars.len() && chars[pos + 1] == '{' {
                scan_part(chars, pos + 2, in_brace, buf.push('{'))
            } else {
                (Ok(Some(PartView::Str(buf))), pos + 1, true)
            }
        } else if !in_brace && c == '}' {
            if pos + 1 < chars.len() && chars[pos + 1] == '}' {
                scan_part(chars, pos + 2, in_brace, buf.push('}'))
            } else {
                (Err(ParseErrorView::UnmatchedBrace(chars)), pos + 1, in_brace)
            }
        } else {
            scan_part(chars, pos + 1, in_brace, buf.push(c))
        }
    }
}

/// Reading a part moves forward, never past the end, and yields a part only
/// when something was read.
pub proof fn lemma_scan_part_advances(chars: Seq<char>, pos: int, in_brace: bool, buf: Seq<char>)
    requires
        0 <= pos <= chars.len(),
    ensures
        pos <= scan_part(chars, pos, in_brace, buf).1 <= chars.len(),
        pos < chars.len() ==> pos < scan_part(chars, pos, in_brace, buf).1,
        scan_part(chars, pos, in_brace, buf).0 is Ok && scan_part(chars, pos, in_brace, buf).0->Ok_0
            is Some && buf.len() == 0 ==> pos < chars.len(),
    decreases chars.len() - pos,
{
    if pos < chars.len() {
        let c = chars[pos];
        if !in_brace && c == '{' && pos + 1 < chars.len() && chars[pos + 1] == '{' {
            lemma_scan_part_advances(chars, pos + 2, in_brace, buf.push('{'));
        } else if !in_brace && c == '}' && pos + 1 < chars.len() && chars[pos + 1] == '}' {
            lemma_scan_part_advances(chars, pos + 2, in_brace, buf.push('}'));
        } else if !(in_brace && c == '}') && !(!in_brace && c == '{') && !(!in_brace && c
            == '}') {
            lemma_scan_part_advances(chars, pos + 1, in_brace, buf.push(c));
        }
    }
}

/// Reads the parts of `chars` from position `pos` on, after the parts `acc`.
pub open spec fn parse_from(chars: Seq<char>, pos: int, in_brace: bool, acc: Seq<PartView>) -> Result<
    Seq<PartView>,
    ParseErrorView,
>
    decreases chars.len() - pos,
{
    if 0 <= pos <= chars.len() {
        let (r, next, next_in_brace) = scan_part(chars, pos, in_brace, Seq::empty());
        match r {
            Err(e) => Err(e),
            Ok(None) => Ok(acc),
            Ok(Some(p)) => {
                proof {
                    lemma_scan_part_advances(chars, pos, in_brace, Seq::empty());
                }
                parse_from(chars, next, next_in_brace, acc.push(p))
            },
        }
    } else {
        Ok(acc)
    }
}

/// The parts of the format string `format`, or the error it holds.
pub open spec fn spec_parse_parts(format: Seq<char>) -> Result<Seq<PartView>, ParseErrorView> {
    parse_from(format, 0, false, Seq::empty())
}

/// A parse result with its text as sequences of characters.
pub open spec fn view_parts_result(r: Result<Vec<Part>, ParseError>) -> Result<
    Seq<PartView>,
    ParseErrorView,
> {
    match r {
        Ok(v) => Ok(v.deep_view()),
        Err(e) => Err(e@),
    }
}

struct FormatParser<'a> {
    parts: Vec<Part>,
    in_brace: bool,
    buf: Vec<char>,
    format: &'a str,
    chars: Vec<char>,
    pos: usize,
}

impl<'a> FormatParser<'a> {
    spec fn wf(&self) -> bool {
        &&& self.chars@ == self.format@
        &&& self.pos <= self.chars@.len()
    }

    fn new(format: &'a str) -> (p: Self)
        ensures
            p.wf(),
            p.format == format,
            p.parts@ == Seq::<Part>::empty(),
            p.buf@ == Seq::<char>::empty(),
            p.pos == 0,
            !p.in_brace,
    {
        Self {
            parts: Vec::new(),
            in_brace: false,
            buf: Vec::new(),
            format,
            chars: chars_of(format),
            pos: 0,
        }
    }

    /// Reads the next part, as [`scan_part`] describes.
    fn take_part(&mut self) -> (r: Result<Option<Part>, ParseError>)
        requires
            old(self).wf(),
        ensures
            final(self).wf(),
            final(self).format == old(self).format,
            final(self).chars@ == old(self).chars@,
            final(self).parts@ == old(self).parts@,
            ({
                let (sr, next, next_in_brace) = scan_part(
                    old(self).chars@,
                    old(self).pos as int,
                    old(self).in_brace,
                    Seq::empty(),
                );
                &&& sr == match r {
                    Ok(Some(p)) => Ok(Some(p@)),
                    Ok(None) => Ok(None),
                    Err(e) => Err(e@),
                }
                &&& r is Ok ==> final(self).pos == next && final(self).in_brace == next_in_brace
            }),
    {
        let ghost chars = self.chars@;
        let ghost start = scan_part(chars, self.pos as int, self.in_brace, Seq::empty());
        self.buf = Vec::new();
        let len = self.chars.len();
        while self.pos < len
            invariant
                self.wf(),
                self.format == old(self).format,
                self.chars@ == chars,
                chars == old(self).chars@,
                self.parts@ == old(self).parts@,
                len == chars.len(),
                start == scan_part(chars, old(self).pos as int, old(self).in_brace, Seq::empty()),
                start == scan_part(chars, self.pos as int, self.in_brace, self.buf@),
            decreases len - self.pos,
        {
            let c = self.chars[self.pos];
            self.pos = self.pos + 1;
            if self.in_brace && c == '}' {
                self.in_brace = false;
                let part = Part::from_chars(self.buf.as_slice(), 0, self.buf.len());
                assert(self.buf@.subrange(0, self.buf@.len() as int) =~= self.buf@);
                return match part {
                    Ok(p) => Ok(Some(p)),
                    Err(e) => Err(e),
                };
            } else if !self.in_brace && c == '{' {
                if self.pos < len && self.chars[self.pos] == '{' {
                    self.buf.push('{');
                    self.pos = self.pos + 1;
                    continue ;
                }
                self.in_brace = true;
                let text = string_from_chars(self.buf.as_slice(), 0, self.buf.len());
                assert(self.buf@.subrange(0, self.buf@.len() as int) =~= self.buf@);
                return Ok(Some(Part::String(text)));
            } else if !self.in_brace && c == '}' {
                if self.pos < len && self.chars[self.pos] == '}' {
                    self.buf.push('}');
                    self.pos = self.pos + 1;
                    continue ;
                }
                return Err(ParseError::UnmatchedBrace(self.format.to_owned()));
            } else {
                self.buf.push(c);
            }
        }
        if self.in_brace {
            Err(ParseError::UnmatchedBrace(self.format.to_owned()))
        } else if self.buf.len() == 0 {
            Ok(None)
        } else {
            let text = string_from_chars(self.buf.as_slice(), 0, self.buf.len());
            assert(self.buf@.subrange(0, self.buf@.len() as int) =~= self.buf@);
            self.buf = Vec::new();
            Ok(Some(Part::String(text)))
        }
    }

    fn into_parts(self) -> (parts: Vec<Part>)
        ensures
            parts == self.parts,
    {
        self.parts
    }
}

/// Splits `format` into its parts, as [`spec_parse_parts`] describes.
pub fn parse_parts(format: &str) -> (r: Result<Vec<Part>, ParseError>)
    ensures
        view_parts_result(r) == spec_parse_parts(format@),
{
    let mut parser = FormatParser::new(format);
    let ghost chars = format@;
    assert(parser.parts.deep_view() =~= Seq::<PartView>::empty());
    loop
        invariant
            parser.wf(),
            parser.format == format,
            parser.chars@ == chars,
            chars == format@,
            parse_from(chars, parser.pos as int, parser.in_brace, parser.parts.deep_view())
                == spec_parse_parts(chars),
        decreases chars.len() - parser.pos,
    {
        let ghost before = parser.pos as int;
        let ghost before_in_brace = parser.in_brace;
        proof {
            lemma_scan_part_advances(chars, before, before_in_brace, Seq::empty());
        }
        match parser.take_part() {
            Err(e) => {
                return Err(e);
            },
            Ok(None) => {
                return Ok(parser.into_parts());
            },
            Ok(Some(part)) => {
                let ghost acc = parser.parts.deep_view();
                parser.parts.push(part);
                assert(parser.parts.deep_view() =~= acc.push(part@));
            },
        }
    }
}

} // verus!
