//! Properties of the library as a whole, proved over its specifications.
use vstd::prelude::*;

use crate::decimal::{
    spec_parse_isize, spec_parse_usize,
    all_digits, decimal, digits_value, is_digit, lemma_decimal_value, lemma_parse_usize_decimal,
    padded_decimal, zeros,
};
use crate::errors::{InterpolateError, ParseErrorView};
use crate::interpolator::{
    catch_items, first_error, has_catch_all, index_pads, join, kept, lemma_first_error_with_sep,
    part_error, render_number, render_parts, spec_interpolate, spec_try_new, wrap_isize,
    InterpolatorView,
};
use crate::parser::{lemma_scan_part_advances, parse_from, scan_part, spec_parse_parts};
use crate::part::{is_first_colon, lemma_first_colon_unique, spec_parse_part, Part, PartView};
use crate::zarrs::{spec_configuration, TemplateChunkKeyEncodingView};

verus! {

proof fn lemma_zeros_value(k: nat)
    ensures
        all_digits(zeros(k)),
        digits_value(zeros(k)) == 0,
    decreases k,
{
    if k > 0 {
        lemma_zeros_value((k - 1) as nat);
        assert(zeros(k).drop_last() =~= zeros((k - 1) as nat));
    }
}

proof fn lemma_leading_zeros_value(k: nat, d: Seq<char>)
    ensures
        digits_value(zeros(k) + d) == digits_value(d),
    decreases d.len(),
{
    if d.len() == 0 {
        lemma_zeros_value(k);
        assert(zeros(k) + d =~= zeros(k));
    } else {
        lemma_leading_zeros_value(k, d.drop_last());
        assert((zeros(k) + d).drop_last() =~= zeros(k) + d.drop_last());
    }
}

/// A zero-padded coordinate is made of digits, is as wide as asked (or as
/// its shortest spelling when that is wider), and reads back as the
/// coordinate.
pub proof fn lemma_padded_decimal_reads_back(n: nat, width: nat)
    ensures
        all_digits(padded_decimal(n, width)),
        digits_value(padded_decimal(n, width)) == n,
        padded_decimal(n, width).len() == if width > decimal(n).len() {
            width
        } else {
            decimal(n).len()
        },
{
    lemma_decimal_value(n);
    let d = decimal(n);
    if width > d.len() {
        let k = (width - d.len()) as nat;
        lemma_zeros_value(k);
        lemma_leading_zeros_value(k, d);
        assert forall|i: int| 0 <= i < (zeros(k) + d).len() implies #[trigger] is_digit(
            (zeros(k) + d)[i],
        ) by {
            if i < k {
                assert(is_digit(zeros(k)[i]));
            } else {
                assert(is_digit(d[i - k]));
            }
        }
    }
}

/// `c` as literal text in a format string: braces are doubled.
pub open spec fn escape_char(c: char) -> Seq<char> {
    if c == '{' || c == '}' {
        seq![c, c]
    } else {
        seq![c]
    }
}

/// `t` as literal text in a format string.
pub open spec fn escape(t: Seq<char>) -> Seq<char>
    decreases t.len(),
{
    if t.len() == 0 {
        Seq::empty()
    } else {
        escape(t.drop_last()) + escape_char(t.last())
    }
}

/// `t` holds no brace.
pub open spec fn no_braces(t: Seq<char>) -> bool {
    forall|i: int| 0 <= i < t.len() ==> t[i] != '{' && t[i] != '}'
}

/// Reading escaped text outside braces collects the text itself.
proof fn lemma_scan_escaped(chars: Seq<char>, pos: int, t: Seq<char>, buf: Seq<char>)
    requires
        0 <= pos,
        pos + escape(t).len() <= chars.len(),
        chars.subrange(pos, pos + escape(t).len()) == escape(t),
    ensures
        scan_part(chars, pos, false, buf) == scan_part(chars, pos + escape(t).len(), false, buf + t),
    decreases t.len(),
{
    if t.len() == 0 {
        assert(buf + t =~= buf);
    } else {
        let t0 = t.drop_last();
        let c = t.last();
        let e0 = escape(t0);
        let e = escape(t);
        assert(e == e0 + escape_char(c));
        assert(chars.subrange(pos, pos + e0.len()) =~= e0) by {
            assert forall|i: int| 0 <= i < e0.len() implies chars.subrange(pos, pos + e0.len())[i]
                == e0[i] by {
                assert(chars[pos + i] == e[i]);
            }
        }
        lemma_scan_escaped(chars, pos, t0, buf);
        let p = pos + e0.len();
        assert(chars[p] == e[e0.len() as int]);
        if c == '{' || c == '}' {
            assert(chars[p + 1] == e[e0.len() + 1int]);
        }
        assert((buf + t0).push(c) =~= buf + t);
    }
}

/// Literal text, with its braces doubled, is read as one literal part (none
/// when empty).
pub proof fn lemma_escaped_text_parses(t: Seq<char>)
    ensures
        spec_parse_parts(escape(t)) == Ok::<Seq<PartView>, crate::errors::ParseErrorView>(
            if t.len() == 0 {
                Seq::empty()
            } else {
                seq![PartView::Str(t)]
            },
        ),
{
    let chars = escape(t);
    assert(chars.subrange(0, chars.len() as int) =~= chars);
    lemma_scan_escaped(chars, 0, t, Seq::empty());
    assert(Seq::<char>::empty() + t =~= t);
    reveal_with_fuel(parse_from, 2);
    if t.len() > 0 {
        assert(Seq::<PartView>::empty().push(PartView::Str(t)) =~= seq![PartView::Str(t)]);
    }
}

/// A format string holding literal text, with its braces doubled, renders
/// as that text for every separator and every list of chunk coordinates.
pub proof fn lemma_escaped_text_renders(t: Seq<char>, sep: Option<Seq<char>>, chunk: Seq<u64>)
    ensures
        spec_try_new(escape(t), sep) is Ok,
        spec_interpolate(spec_try_new(escape(t), sep)->Ok_0, chunk) == Ok::<
            Seq<char>,
            crate::errors::InterpolateError,
        >(t),
{
    lemma_escaped_text_parses(t);
    if t.len() > 0 {
        let parts = seq![PartView::Str(t)];
        assert(parts.drop_last() =~= Seq::<PartView>::empty());
        assert(first_error(Seq::<PartView>::empty(), sep is Some) is None);
        assert(parts.last() == PartView::Str(t));
        assert(part_error(parts.drop_last(), parts.last(), sep is Some) is None);
        assert(first_error(parts, sep is Some) is None);
        assert(parts.drop_first() =~= Seq::<PartView>::empty());
        assert(t + Seq::<char>::empty() =~= t);
        assert(parts[0] == PartView::Str(t));
        assert(render_parts(parts.drop_first(), chunk, index_pads(parts).dom(), sep_of(sep))
            == Ok::<Seq<char>, crate::errors::InterpolateError>(Seq::empty()));
    } else {
        assert(t =~= Seq::<char>::empty());
        assert(first_error(Seq::<PartView>::empty(), sep is Some) is None);
    }
}

spec fn sep_of(sep: Option<Seq<char>>) -> Seq<char> {
    match sep {
        Some(s) => s,
        None => Seq::empty(),
    }
}

/// Text without braces is its own escaped form.
pub proof fn lemma_no_braces_escape(t: Seq<char>)
    requires
        no_braces(t),
    ensures
        escape(t) == t,
    decreases t.len(),
{
    if t.len() > 0 {
        assert(no_braces(t.drop_last()));
        lemma_no_braces_escape(t.drop_last());
        assert(t.last() == t[t.len() - 1]);
        assert(t.drop_last().push(t.last()) =~= t);
    }
}

/// A format string without braces renders as itself.
pub proof fn lemma_plain_text_renders_itself(t: Seq<char>, sep: Option<Seq<char>>, chunk: Seq<u64>)
    requires
        no_braces(t),
    ensures
        spec_try_new(t, sep) is Ok,
        spec_interpolate(spec_try_new(t, sep)->Ok_0, chunk) == Ok::<
            Seq<char>,
            crate::errors::InterpolateError,
        >(t),
{
    lemma_no_braces_escape(t);
    lemma_escaped_text_renders(t, sep, chunk);
}

/// Reading text without `}` inside braces collects the text itself.
proof fn lemma_scan_in_brace(chars: Seq<char>, pos: int, seg: Seq<char>, buf: Seq<char>)
    requires
        0 <= pos,
        pos + seg.len() <= chars.len(),
        chars.subrange(pos, pos + seg.len()) == seg,
        forall|i: int| 0 <= i < seg.len() ==> seg[i] != '}',
    ensures
        scan_part(chars, pos, true, buf) == scan_part(chars, pos + seg.len(), true, buf + seg),
    decreases seg.len(),
{
    if seg.len() == 0 {
        assert(buf + seg =~= buf);
    } else {
        let s0 = seg.drop_last();
        assert(chars.subrange(pos, pos + s0.len()) =~= s0) by {
            assert forall|i: int| 0 <= i < s0.len() implies chars.subrange(pos, pos + s0.len())[i]
                == s0[i] by {
                assert(chars[pos + i] == seg[i]);
            }
        }
        lemma_scan_in_brace(chars, pos, s0, buf);
        assert(chars[pos + s0.len()] == seg[s0.len() as int]);
        assert((buf + s0).push(seg.last()) =~= buf + seg);
    }
}

/// A format string made of one placeholder, `{body}`, reads as an empty
/// literal part followed by the placeholder that `body` spells.
pub proof fn lemma_lone_placeholder_parses(body: Seq<char>)
    requires
        forall|i: int| 0 <= i < body.len() ==> body[i] != '}',
        body.len() == 0 || body[0] != '{',
    ensures
        spec_parse_parts(seq!['{'] + body + seq!['}']) == match spec_parse_part(body) {
            Ok(p) => Ok(seq![PartView::Str(Seq::empty()), p]),
            Err(e) => Err::<Seq<PartView>, ParseErrorView>(e),
        },
{
    let f = seq!['{'] + body + seq!['}'];
    assert(f.subrange(1, 1 + body.len() as int) =~= body);
    lemma_scan_in_brace(f, 1, body, Seq::empty());
    assert(Seq::<char>::empty() + body =~= body);
    assert(f[0] == '{');
    if body.len() > 0 {
        assert(f[1] == body[0]);
    }
    assert(f[1 + body.len() as int] == '}');
    reveal_with_fuel(parse_from, 3);
    assert(Seq::<PartView>::empty().push(PartView::Str(Seq::empty())) =~= seq![
        PartView::Str(Seq::empty()),
    ]);
    match spec_parse_part(body) {
        Ok(p) => {
            assert(seq![PartView::Str(Seq::empty())].push(p) =~= seq![
                PartView::Str(Seq::empty()),
                p,
            ]);
        },
        Err(_) => {},
    }
}

/// The placeholder text `n:0p` reads as index `n` padded to `p`.
pub proof fn lemma_index_placeholder_text(n: usize, p: usize)
    ensures
        spec_parse_part(decimal(n as nat) + seq![':', '0'] + decimal(p as nat)) == Ok::<
            PartView,
            ParseErrorView,
        >(PartView::Index { idx: n, pad: p }),
{
    let dn = decimal(n as nat);
    let dp = decimal(p as nat);
    let s = dn + seq![':', '0'] + dp;
    lemma_decimal_value(n as nat);
    lemma_parse_usize_decimal(n);
    lemma_parse_usize_decimal(p);
    assert forall|j: int| 0 <= j < dn.len() implies s[j] != ':' by {
        assert(is_digit(dn[j]));
    }
    assert(s[dn.len() as int] == ':');
    assert(is_first_colon(s, dn.len() as int));
    lemma_first_colon_unique(s, dn.len() as int);
    assert(s.take(dn.len() as int) =~= dn);
    assert(s.skip(dn.len() + 1int) =~= seq!['0'] + dp);
    assert((seq!['0'] + dp).drop_first() =~= dp);
    assert(is_digit(dn[0]));
    assert(dn != seq!['*']) by {
        if dn == seq!['*'] {
            assert(dn[0] == '*');
        }
    }
}

/// The key for the format string `{n:0p}` is chunk coordinate `n`, zero-padded
/// to `p` digits; when there is no coordinate `n`, rendering reports index
/// `n` out of bounds.
pub proof fn lemma_index_placeholder_renders(
    n: usize,
    p: usize,
    sep: Option<Seq<char>>,
    chunk: Seq<u64>,
)
    ensures
        ({
            let f = seq!['{'] + (decimal(n as nat) + seq![':', '0'] + decimal(p as nat)) + seq![
                '}',
            ];
            &&& spec_try_new(f, sep) is Ok
            &&& spec_interpolate(spec_try_new(f, sep)->Ok_0, chunk) == if n < chunk.len() {
                Ok::<Seq<char>, InterpolateError>(render_number(chunk[n as int], p))
            } else {
                Err(InterpolateError::IndexOutOfBounds(wrap_isize(n), chunk.len() as usize))
            }
        }),
{
    let body = decimal(n as nat) + seq![':', '0'] + decimal(p as nat);
    lemma_decimal_value(n as nat);
    lemma_decimal_value(p as nat);
    assert forall|i: int| 0 <= i < body.len() implies body[i] != '}' by {
        if i < decimal(n as nat).len() {
            assert(is_digit(decimal(n as nat)[i]));
        } else if i >= decimal(n as nat).len() + 2 {
            assert(is_digit(decimal(p as nat)[i - decimal(n as nat).len() - 2]));
        }
    }
    assert(is_digit(decimal(n as nat)[0]));
    assert(body[0] == decimal(n as nat)[0]);
    lemma_lone_placeholder_parses(body);
    lemma_index_placeholder_text(n, p);
    let idx = PartView::Index { idx: n, pad: p };
    let parts = seq![PartView::Str(Seq::empty()), idx];
    let has_sep = sep is Some;
    assert(parts.drop_last() =~= seq![PartView::Str(Seq::empty())]);
    assert(seq![PartView::Str(Seq::empty())].drop_last() =~= Seq::<PartView>::empty());
    assert(first_error(Seq::<PartView>::empty(), has_sep) is None);
    assert(first_error(seq![PartView::Str(Seq::empty())], has_sep) is None);
    assert(index_pads(Seq::<PartView>::empty()) == Map::<isize, usize>::empty());
    assert(index_pads(seq![PartView::Str(Seq::empty())]) == Map::<isize, usize>::empty());
    assert(parts.last() == idx);
    assert(first_error(parts, has_sep) is None);
    let v = spec_try_new(seq!['{'] + body + seq!['}'], sep)->Ok_0;
    assert(v.parts == parts);
    let keys = v.pads.dom();
    assert(parts[0] == PartView::Str(Seq::<char>::empty()));
    assert(parts.drop_first() =~= seq![idx]);
    assert(seq![idx][0] == idx);
    assert(seq![idx].drop_first() =~= Seq::<PartView>::empty());
    reveal_with_fuel(render_parts, 3);
    if n < chunk.len() {
        let r = render_number(chunk[n as int], p);
        assert(Seq::<char>::empty() + (r + Seq::<char>::empty()) =~= r);
    }
}

/// Placeholder `p` names a coordinate that exists among `len`.
pub open spec fn in_range(p: PartView, len: nat) -> bool {
    match p {
        PartView::Index { idx, .. } => idx < len,
        PartView::NegIndex { idx, .. } => 0 <= len + idx < len,
        _ => true,
    }
}

/// The error that an out-of-range placeholder `p` reports.
pub open spec fn out_of_range_error(p: PartView, len: nat) -> InterpolateError {
    match p {
        PartView::NegIndex { idx, .. } => InterpolateError::IndexOutOfBounds(idx, len as usize),
        PartView::Index { idx, .. } => InterpolateError::IndexOutOfBounds(
            wrap_isize(idx),
            len as usize,
        ),
        _ => InterpolateError::IndexOutOfBounds(0, len as usize),
    }
}

/// Rendering succeeds exactly when every placeholder names an existing
/// coordinate; otherwise it reports the first placeholder that does not.
pub proof fn lemma_render_ok_iff_in_range(
    parts: Seq<PartView>,
    chunk: Seq<u64>,
    keys: Set<isize>,
    sep: Seq<char>,
)
    ensures
        render_parts(parts, chunk, keys, sep) is Ok <==> forall|i: int|
            0 <= i < parts.len() ==> #[trigger] in_range(parts[i], chunk.len()),
        render_parts(parts, chunk, keys, sep) matches Err(e) ==> exists|j: int|
            0 <= j < parts.len() && !in_range(parts[j], chunk.len()) && (forall|k: int|
                0 <= k < j ==> #[trigger] in_range(parts[k], chunk.len())) && e
                == out_of_range_error(#[trigger] parts[j], chunk.len()),
    decreases parts.len(),
{
    if parts.len() > 0 {
        let rest = parts.drop_first();
        lemma_render_ok_iff_in_range(rest, chunk, keys, sep);
        assert forall|i: int| 0 <= i < rest.len() implies rest[i] == parts[i + 1] by {}
        if forall|i: int| 0 <= i < parts.len() ==> #[trigger] in_range(parts[i], chunk.len()) {
            assert(in_range(parts[0], chunk.len()));
            assert forall|i: int| 0 <= i < rest.len() implies #[trigger] in_range(
                rest[i],
                chunk.len(),
            ) by {
                assert(in_range(parts[i + 1], chunk.len()));
            }
        } else {
            let j = choose|j: int| 0 <= j < parts.len() && !in_range(parts[j], chunk.len());
            if in_range(parts[0], chunk.len()) {
                assert(j > 0);
                assert(!in_range(rest[j - 1], chunk.len()));
            }
        }
        match render_parts(parts, chunk, keys, sep) {
            Err(e) => {
                if !in_range(parts[0], chunk.len()) {
                    assert(!in_range(parts[0], chunk.len()) && (forall|k: int|
                        0 <= k < 0 ==> #[trigger] in_range(parts[k], chunk.len())) && e
                        == out_of_range_error(parts[0], chunk.len()));
                } else {
                    let j = choose|j: int|
                        0 <= j < rest.len() && !in_range(rest[j], chunk.len()) && (forall|k: int|
                            0 <= k < j ==> #[trigger] in_range(rest[k], chunk.len())) && e
                            == out_of_range_error(#[trigger] rest[j], chunk.len());
                    assert forall|k: int| 0 <= k < j + 1 implies #[trigger] in_range(
                        parts[k],
                        chunk.len(),
                    ) by {
                        if k > 0 {
                            assert(in_range(rest[k - 1], chunk.len()));
                        }
                    }
                    assert(parts[j + 1] == rest[j]);
                }
            },
            Ok(_) => {},
        }
    }
}

/// An interpolator renders a key exactly when each of its placeholders names
/// an existing coordinate; otherwise it reports the first one that does not.
pub proof fn lemma_interpolate_ok_iff_in_range(v: InterpolatorView, chunk: Seq<u64>)
    ensures
        spec_interpolate(v, chunk) is Ok <==> forall|i: int|
            0 <= i < v.parts.len() ==> #[trigger] in_range(v.parts[i], chunk.len()),
        spec_interpolate(v, chunk) matches Err(e) ==> exists|j: int|
            0 <= j < v.parts.len() && !in_range(v.parts[j], chunk.len()) && (forall|k: int|
                0 <= k < j ==> #[trigger] in_range(v.parts[k], chunk.len())) && e
                == out_of_range_error(#[trigger] v.parts[j], chunk.len()),
{
    lemma_render_ok_iff_in_range(v.parts, chunk, v.pads.dom(), v.sep);
}

/// Literal parts and placeholders alternate, starting with a literal part.
pub open spec fn alternates(parts: Seq<PartView>) -> bool {
    forall|i: int| 0 <= i < parts.len() ==> ((#[trigger] parts[i] is Str) <==> i % 2 == 0)
}

/// What reading one part gives. Outside braces: a literal part ending at a
/// lone `{` (braces then open), a non-empty literal part running to the end
/// of the format, nothing at the end of the format, or an unmatched-brace
/// error naming the whole format. Inside braces: a placeholder (braces then
/// close), or an error.
pub proof fn lemma_scan_part_kind(chars: Seq<char>, pos: int, in_brace: bool, buf: Seq<char>)
    requires
        0 <= pos <= chars.len(),
    ensures
        ({
            let (r, next, next_in_brace) = scan_part(chars, pos, in_brace, buf);
            if in_brace {
                ||| r matches Ok(Some(p)) && !(p is Str) && !next_in_brace
                ||| r is Err
            } else {
                ||| r == Err::<Option<PartView>, ParseErrorView>(
                    ParseErrorView::UnmatchedBrace(chars),
                )
                ||| r matches Ok(Some(p)) && p is Str && next_in_brace
                ||| r matches Ok(Some(PartView::Str(t))) && t.len() > 0 && !next_in_brace && next
                    >= chars.len()
                ||| r matches Ok(None) && !next_in_brace && next >= chars.len()
            }
        }),
    decreases chars.len() - pos,
{
    if pos < chars.len() {
        let c = chars[pos];
        if !in_brace && c == '{' && pos + 1 < chars.len() && chars[pos + 1] == '{' {
            lemma_scan_part_kind(chars, pos + 2, in_brace, buf.push('{'));
        } else if !in_brace && c == '}' && pos + 1 < chars.len() && chars[pos + 1] == '}' {
            lemma_scan_part_kind(chars, pos + 2, in_brace, buf.push('}'));
        } else if !(in_brace && c == '}') && !(!in_brace && c == '{') && !(!in_brace && c
            == '}') {
            lemma_scan_part_kind(chars, pos + 1, in_brace, buf.push(c));
        }
    }
}

proof fn lemma_parse_from_alternates(
    chars: Seq<char>,
    pos: int,
    in_brace: bool,
    acc: Seq<PartView>,
)
    requires
        0 <= pos <= chars.len(),
        alternates(acc),
        pos < chars.len() ==> in_brace == (acc.len() % 2 == 1),
    ensures
        parse_from(chars, pos, in_brace, acc) matches Ok(parts) ==> alternates(parts),
    decreases chars.len() - pos,
{
    lemma_scan_part_advances(chars, pos, in_brace, Seq::empty());
    lemma_scan_part_kind(chars, pos, in_brace, Seq::empty());
    let (r, next, next_in_brace) = scan_part(chars, pos, in_brace, Seq::empty());
    if let Ok(Some(p)) = r {
        let acc2 = acc.push(p);
        assert(pos < chars.len());
        assert forall|i: int| 0 <= i < acc2.len() implies ((#[trigger] acc2[i] is Str) <==> i % 2
            == 0) by {
            if i < acc.len() {
                assert(acc2[i] == acc[i]);
            }
        }
        lemma_parse_from_alternates(chars, next, next_in_brace, acc2);
    }
}

/// A format string reads as literal parts and placeholders in turn: every
/// placeholder comes right after a literal part (empty when nothing precedes
/// it).
pub proof fn lemma_parts_alternate(format: Seq<char>)
    ensures
        spec_parse_parts(format) matches Ok(parts) ==> alternates(parts),
{
    lemma_parse_from_alternates(format, 0, false, Seq::empty());
}

/// Without a catch-all the separator does not matter for the errors.
proof fn lemma_first_error_without_catch_all(parts: Seq<PartView>, has_sep: bool)
    requires
        !has_catch_all(parts),
    ensures
        first_error(parts, has_sep) == first_error(parts, true),
    decreases parts.len(),
{
    if parts.len() > 0 {
        let prefix = parts.drop_last();
        assert(!has_catch_all(prefix)) by {
            if has_catch_all(prefix) {
                let j = choose|j: int| 0 <= j < prefix.len() && #[trigger] prefix[j] is CatchAll;
                assert(parts[j] == prefix[j]);
            }
        }
        assert(!(parts[parts.len() - 1] is CatchAll));
        lemma_first_error_without_catch_all(prefix, has_sep);
    }
}

/// Without a catch-all the separator does not matter for the rendering.
proof fn lemma_render_without_catch_all(
    parts: Seq<PartView>,
    chunk: Seq<u64>,
    keys: Set<isize>,
    sep1: Seq<char>,
    sep2: Seq<char>,
)
    requires
        !has_catch_all(parts),
    ensures
        render_parts(parts, chunk, keys, sep1) == render_parts(parts, chunk, keys, sep2),
    decreases parts.len(),
{
    if parts.len() > 0 {
        let rest = parts.drop_first();
        assert(!has_catch_all(rest)) by {
            if has_catch_all(rest) {
                let j = choose|j: int| 0 <= j < rest.len() && #[trigger] rest[j] is CatchAll;
                assert(parts[j + 1] == rest[j]);
            }
        }
        assert(!(parts[0] is CatchAll));
        lemma_render_without_catch_all(rest, chunk, keys, sep1, sep2);
    }
}

/// An encoding rebuilt from its stored configuration has the same parts and
/// index records, and renders the same key for every list of chunk
/// coordinates; the configuration keeps the separator exactly when the
/// format has a catch-all.
pub proof fn lemma_configuration_round_trip(format: Seq<char>, sep: Option<Seq<char>>)
    requires
        spec_try_new(format, sep) is Ok,
    ensures
        ({
            let v = TemplateChunkKeyEncodingView {
                format,
                interpolator: spec_try_new(format, sep)->Ok_0,
            };
            let (f, s) = spec_configuration(v);
            &&& f == format
            &&& s is Some <==> has_catch_all(v.interpolator.parts)
            &&& spec_try_new(f, s) is Ok
            &&& spec_try_new(f, s)->Ok_0.parts == v.interpolator.parts
            &&& spec_try_new(f, s)->Ok_0.pads == v.interpolator.pads
            &&& forall|chunk: Seq<u64>|
                #[trigger] spec_interpolate(spec_try_new(f, s)->Ok_0, chunk) == spec_interpolate(
                    v.interpolator,
                    chunk,
                )
        }),
{
    let iv = spec_try_new(format, sep)->Ok_0;
    let parts = spec_parse_parts(format)->Ok_0;
    assert(iv.parts == parts);
    lemma_first_error_with_sep(parts, sep is Some);
    if has_catch_all(parts) {
        if sep is None {
            let j = choose|j: int| 0 <= j < parts.len() && #[trigger] parts[j] is CatchAll;
            lemma_catch_all_needs_separator(parts, j);
        }
    } else {
        lemma_first_error_without_catch_all(parts, false);
        let iv2 = spec_try_new(format, None)->Ok_0;
        assert forall|chunk: Seq<u64>| #[trigger]
            spec_interpolate(iv2, chunk) == spec_interpolate(iv, chunk) by {
            lemma_render_without_catch_all(parts, chunk, iv.pads.dom(), iv2.sep, iv.sep);
        }
    }
}

/// Without a separator, a catch-all is an error.
proof fn lemma_catch_all_needs_separator(parts: Seq<PartView>, j: int)
    requires
        0 <= j < parts.len(),
        parts[j] is CatchAll,
    ensures
        first_error(parts, false) is Some,
    decreases parts.len(),
{
    if j == parts.len() - 1 {
        match first_error(parts.drop_last(), false) {
            Some(_) => {},
            None => {
                assert(parts.last() is CatchAll);
            },
        }
    } else {
        let prefix = parts.drop_last();
        assert(prefix[j] == parts[j]);
        lemma_catch_all_needs_separator(prefix, j);
    }
}

/// With no index named, the catch-all renders every coordinate in order.
proof fn lemma_catch_items_all(chunk: Seq<u64>, pad: usize, n: nat)
    requires
        n <= chunk.len(),
    ensures
        catch_items(chunk, Set::empty(), pad, n) == Seq::new(
            n,
            |i: int| render_number(chunk[i], pad),
        ),
    decreases n,
{
    if n > 0 {
        lemma_catch_items_all(chunk, pad, (n - 1) as nat);
        assert(kept(chunk.len(), Set::empty(), n - 1));
        assert(catch_items(chunk, Set::empty(), pad, n) =~= Seq::new(
            n,
            |i: int| render_number(chunk[i], pad),
        ));
    }
}

/// The key for the format string `{*:0p}` is every chunk coordinate,
/// zero-padded to `p` digits, joined by the separator.
pub proof fn lemma_lone_catch_all_renders(p: usize, sep: Seq<char>, chunk: Seq<u64>)
    ensures
        ({
            let f = seq!['{'] + (seq!['*', ':', '0'] + decimal(p as nat)) + seq!['}'];
            &&& spec_try_new(f, Some(sep)) is Ok
            &&& spec_interpolate(spec_try_new(f, Some(sep))->Ok_0, chunk) == Ok::<
                Seq<char>,
                InterpolateError,
            >(join(Seq::new(chunk.len(), |i: int| render_number(chunk[i], p)), sep))
        }),
{
    let dp = decimal(p as nat);
    let body = seq!['*', ':', '0'] + dp;
    lemma_decimal_value(p as nat);
    lemma_parse_usize_decimal(p);
    assert forall|i: int| 0 <= i < body.len() implies body[i] != '}' by {
        if i >= 3 {
            assert(is_digit(dp[i - 3]));
        }
    }
    assert(body[0] == '*');
    lemma_lone_placeholder_parses(body);
    assert(is_first_colon(body, 1));
    lemma_first_colon_unique(body, 1);
    assert(body.take(1) =~= seq!['*']);
    assert(body.skip(2) =~= seq!['0'] + dp);
    assert((seq!['0'] + dp).drop_first() =~= dp);
    let ca = PartView::CatchAll { pad: p };
    assert(spec_parse_part(body) == Ok::<PartView, ParseErrorView>(ca));
    let parts = seq![PartView::Str(Seq::empty()), ca];
    assert(parts.drop_last() =~= seq![PartView::Str(Seq::empty())]);
    assert(seq![PartView::Str(Seq::empty())].drop_last() =~= Seq::<PartView>::empty());
    assert(first_error(Seq::<PartView>::empty(), true) is None);
    assert(first_error(seq![PartView::Str(Seq::empty())], true) is None);
    assert(!has_catch_all(seq![PartView::Str(Seq::empty())])) by {
        assert(!(seq![PartView::Str(Seq::empty())][0] is CatchAll));
    }
    assert(parts.last() == ca);
    assert(first_error(parts, true) is None);
    assert(index_pads(Seq::<PartView>::empty()) == Map::<isize, usize>::empty());
    assert(index_pads(seq![PartView::Str(Seq::empty())]) == Map::<isize, usize>::empty());
    assert(index_pads(parts) == Map::<isize, usize>::empty());
    assert(Map::<isize, usize>::empty().dom() =~= Set::<isize>::empty());
    lemma_catch_items_all(chunk, p, chunk.len());
    assert(parts[0] == PartView::Str(Seq::<char>::empty()));
    assert(parts.drop_first() =~= seq![ca]);
    assert(seq![ca][0] == ca);
    assert(seq![ca].drop_first() =~= Seq::<PartView>::empty());
    reveal_with_fuel(render_parts, 3);
    let r = join(Seq::new(chunk.len(), |i: int| render_number(chunk[i], p)), sep);
    assert(Seq::<char>::empty() + (r + Seq::<char>::empty()) =~= r);
}

/// Every part of `parts` is literal text.
pub open spec fn all_literal(parts: Seq<PartView>) -> bool {
    forall|i: int| 0 <= i < parts.len() ==> #[trigger] parts[i] is Str
}

/// The literal text of `parts`, one part after the other.
pub open spec fn literal_text(parts: Seq<PartView>) -> Seq<char>
    decreases parts.len(),
{
    if parts.len() == 0 {
        Seq::empty()
    } else {
        match parts[0] {
            PartView::Str(t) => t + literal_text(parts.drop_first()),
            _ => literal_text(parts.drop_first()),
        }
    }
}

proof fn lemma_all_literal_render_parts(
    parts: Seq<PartView>,
    chunk: Seq<u64>,
    keys: Set<isize>,
    sep: Seq<char>,
)
    requires
        all_literal(parts),
    ensures
        render_parts(parts, chunk, keys, sep) == Ok::<Seq<char>, InterpolateError>(
            literal_text(parts),
        ),
    decreases parts.len(),
{
    if parts.len() > 0 {
        assert(parts[0] is Str);
        let rest = parts.drop_first();
        assert forall|i: int| 0 <= i < rest.len() implies #[trigger] rest[i] is Str by {
            assert(parts[i + 1] is Str);
        }
        lemma_all_literal_render_parts(rest, chunk, keys, sep);
    }
}

/// An interpolator whose parts are all literal text renders that text, the
/// same for every list of chunk coordinates.
pub proof fn lemma_all_literal_renders(v: InterpolatorView, chunk1: Seq<u64>, chunk2: Seq<u64>)
    requires
        all_literal(v.parts),
    ensures
        spec_interpolate(v, chunk1) == Ok::<Seq<char>, InterpolateError>(literal_text(v.parts)),
        spec_interpolate(v, chunk1) == spec_interpolate(v, chunk2),
{
    lemma_all_literal_render_parts(v.parts, chunk1, v.pads.dom(), v.sep);
    lemma_all_literal_render_parts(v.parts, chunk2, v.pads.dom(), v.sep);
}

/// The text between braces reads back as the placeholder it spells: `n`
/// and `n:0p` as index `n`, `-m:0p` as the negative index `-m`, and `*:0p` as
/// the catch-all, each padded to `p` (0 when no width is written).
#[verifier::spinoff_prover]
#[verifier::rlimit(40)]
pub proof fn lemma_placeholder_spellings(n: usize, j: isize, p: usize)
    requires
        j < 0,
    ensures
        spec_parse_part(decimal(n as nat)) == Ok::<PartView, ParseErrorView>(
            PartView::Index { idx: n, pad: 0 },
        ),
        spec_parse_part(decimal(n as nat) + seq![':', '0'] + decimal(p as nat)) == Ok::<
            PartView,
            ParseErrorView,
        >(PartView::Index { idx: n, pad: p }),
        spec_parse_part(seq!['-'] + decimal((-j) as nat) + seq![':', '0'] + decimal(p as nat))
            == Ok::<PartView, ParseErrorView>(PartView::NegIndex { idx: j, pad: p }),
        spec_parse_part(seq!['*', ':', '0'] + decimal(p as nat)) == Ok::<PartView, ParseErrorView>(
            PartView::CatchAll { pad: p },
        ),
{
    lemma_index_placeholder_text(n, p);
    let dn = decimal(n as nat);
    let dp = decimal(p as nat);
    lemma_decimal_value(n as nat);
    lemma_decimal_value(p as nat);
    lemma_parse_usize_decimal(n);
    lemma_parse_usize_decimal(p);
    // a bare index
    assert forall|i: int| !is_first_colon(dn, i) by {
        if 0 <= i < dn.len() {
            assert(is_digit(dn[i]));
        }
    }
    assert(is_digit(dn[0]));
    assert(dn != seq!['*']) by {
        if dn == seq!['*'] {
            assert(dn[0] == '*');
        }
    }
    // a negative index
    let m = (-j) as nat;
    let dm = decimal(m);
    lemma_decimal_value(m);
    let idx_str = seq!['-'] + dm;
    let s = idx_str + seq![':', '0'] + dp;
    assert forall|i: int| 0 <= i < idx_str.len() implies s[i] != ':' by {
        if i > 0 {
            assert(is_digit(dm[i - 1]));
        }
    }
    assert(s[idx_str.len() as int] == ':');
    assert(is_first_colon(s, idx_str.len() as int));
    lemma_first_colon_unique(s, idx_str.len() as int);
    assert(s.take(idx_str.len() as int) =~= idx_str);
    assert(s.skip(idx_str.len() + 1int) =~= seq!['0'] + dp);
    assert((seq!['0'] + dp).drop_first() =~= dp);
    assert(idx_str.drop_first() =~= dm);
    assert(idx_str != seq!['*']) by {
        if idx_str == seq!['*'] {
            assert(idx_str[0] == '*');
        }
    }
    assert(spec_parse_isize(idx_str) == Some(j));
    // the catch-all
    let c = seq!['*', ':', '0'] + dp;
    assert(is_first_colon(c, 1));
    lemma_first_colon_unique(c, 1);
    assert(c.take(1) =~= seq!['*']);
    assert(c.skip(2) =~= seq!['0'] + dp);
}

/// What `Part::from(i)` gives: for `i >= 0` the index `i` counted from the
/// start, for `i < 0` the index `i` counted from the end, unpadded. It reads
/// as the placeholder `{i}` does, and renders coordinate `i` (or `len + i`
/// when negative) whenever that coordinate exists, reporting `i` out of
/// bounds otherwise.
pub proof fn lemma_part_from_isize(
    i: isize,
    r: Part,
    chunk: Seq<u64>,
    keys: Set<isize>,
    sep: Seq<char>,
)
    requires
        call_ensures((<Part as From<isize>>::from), (i,), r),
        chunk.len() <= isize::MAX,
    ensures
        i >= 0 ==> r == (Part::Index { idx: i as usize, pad: 0 }),
        i < 0 ==> r == (Part::NegIndex { idx: i, pad: 0 }),
        i >= 0 ==> spec_parse_part(decimal(i as nat)) == Ok::<PartView, ParseErrorView>(r@),
        i < 0 ==> spec_parse_part(seq!['-'] + decimal((-i) as nat)) == Ok::<PartView, ParseErrorView>(
            r@,
        ),
        0 <= i < chunk.len() ==> crate::interpolator::render_part(r@, chunk, keys, sep) == Ok::<
            Seq<char>,
            InterpolateError,
        >(decimal(chunk[i as int] as nat)),
        -chunk.len() <= i < 0 ==> crate::interpolator::render_part(r@, chunk, keys, sep) == Ok::<
            Seq<char>,
            InterpolateError,
        >(decimal(chunk[chunk.len() + i] as nat)),
        (i >= chunk.len() || i < -chunk.len()) ==> crate::interpolator::render_part(
            r@,
            chunk,
            keys,
            sep,
        ) == Err::<Seq<char>, InterpolateError>(
            InterpolateError::IndexOutOfBounds(i, chunk.len() as usize),
        ),
{
    if i >= 0 {
        lemma_placeholder_spellings(i as usize, -1isize, 0);
        assert(wrap_isize(i as usize) == i);
    } else {
        // the negative spelling without a width
        let m = (-i) as nat;
        let dm = decimal(m);
        lemma_decimal_value(m);
        let t = seq!['-'] + dm;
        assert forall|k: int| !is_first_colon(t, k) by {
            if 0 < k < t.len() {
                assert(is_digit(dm[k - 1]));
            }
        }
        assert(t.drop_first() =~= dm);
        assert(t != seq!['*']) by {
            if t == seq!['*'] {
                assert(t[0] == '*');
            }
        }
    }
    if 0 <= i < chunk.len() {
        lemma_padded_decimal_reads_back(chunk[i as int] as nat, 0);
    }
    if -chunk.len() <= i < 0 {
        lemma_padded_decimal_reads_back(chunk[chunk.len() + i] as nat, 0);
    }
}

/// The index that a placeholder names, as a number: `{i}` names `i` (taken
/// modulo the width of `isize` when it exceeds `isize::MAX`), and `{-j}`
/// names `-j`. A positive and a negative index are different indices.
pub open spec fn named_index(p: PartView) -> int {
    match p {
        PartView::Index { idx, .. } => if idx <= isize::MAX {
            idx as int
        } else {
            idx - usize::MAX - 1
        },
        PartView::NegIndex { idx, .. } => idx as int,
        _ => 0,
    }
}

/// `p` names an index.
pub open spec fn names_index(p: PartView) -> bool {
    p is Index || p is NegIndex
}

/// No two placeholders of `parts` name the same index.
pub open spec fn indices_differ(parts: Seq<PartView>) -> bool {
    forall|a: int, b: int|
        0 <= a < b < parts.len() && names_index(parts[a]) && names_index(parts[b]) ==> named_index(
            #[trigger] parts[a],
        ) != named_index(#[trigger] parts[b])
}

/// `parts` holds at most one catch-all.
pub open spec fn one_catch_all_at_most(parts: Seq<PartView>) -> bool {
    forall|a: int, b: int|
        0 <= a < b < parts.len() ==> !((#[trigger] parts[a] is CatchAll) && (
        #[trigger] parts[b] is CatchAll))
}

proof fn lemma_recorded_keys(parts: Seq<PartView>, k: isize)
    ensures
        index_pads(parts).contains_key(k) <==> exists|j: int|
            0 <= j < parts.len() && names_index(parts[j]) && named_index(#[trigger] parts[j]) == k,
    decreases parts.len(),
{
    if parts.len() > 0 {
        let prefix = parts.drop_last();
        lemma_recorded_keys(prefix, k);
        let last = parts.last();
        assert(last == parts[parts.len() - 1]);
        if names_index(last) {
            assert(crate::interpolator::part_key(last) == Some(named_index(last) as isize));
        }
        if exists|j: int|
            0 <= j < parts.len() && names_index(parts[j]) && named_index(#[trigger] parts[j]) == k {
            let j = choose|j: int|
                0 <= j < parts.len() && names_index(parts[j]) && named_index(#[trigger] parts[j])
                    == k;
            if j < prefix.len() {
                assert(prefix[j] == parts[j]);
            }
        }
        if exists|j: int|
            0 <= j < prefix.len() && names_index(prefix[j]) && named_index(#[trigger] prefix[j])
                == k {
            let j = choose|j: int|
                0 <= j < prefix.len() && names_index(prefix[j]) && named_index(#[trigger] prefix[j])
                    == k;
            assert(prefix[j] == parts[j]);
        }
    }
}

/// A template's parts are accepted exactly when no two placeholders name the
/// same index (a positive and a negative index never clash), at most one
/// catch-all appears, and a catch-all comes with a separator.
pub proof fn lemma_parts_accepted_iff(parts: Seq<PartView>, sep: Option<Seq<char>>)
    ensures
        crate::interpolator::spec_from_parts(parts, sep) is Ok <==> (indices_differ(parts)
            && one_catch_all_at_most(parts) && (sep is Some || !has_catch_all(parts))),
{
    lemma_accepted_iff(parts, sep is Some);
}

/// A positive and a negative index never clash: the parts of `{n}{-m}` are
/// accepted for every `n <= isize::MAX` and every `-m < 0`, with or without a
/// separator.
pub proof fn lemma_positive_and_negative_index_accepted(n: usize, j: isize, sep: Option<Seq<char>>)
    requires
        n <= isize::MAX,
        j < 0,
    ensures
        crate::interpolator::spec_from_parts(
            seq![
                PartView::Str(Seq::empty()),
                PartView::Index { idx: n, pad: 0 },
                PartView::Str(Seq::empty()),
                PartView::NegIndex { idx: j, pad: 0 },
            ],
            sep,
        ) is Ok,
{
    let parts = seq![
        PartView::Str(Seq::empty()),
        PartView::Index { idx: n, pad: 0 },
        PartView::Str(Seq::empty()),
        PartView::NegIndex { idx: j, pad: 0 },
    ];
    assert(indices_differ(parts)) by {
        assert forall|a: int, b: int|
            0 <= a < b < parts.len() && names_index(parts[a]) && names_index(
                parts[b],
            ) implies named_index(#[trigger] parts[a]) != named_index(#[trigger] parts[b]) by {
            assert(a == 1 && b == 3);
        }
    }
    assert(!has_catch_all(parts)) by {
        assert forall|a: int| 0 <= a < parts.len() implies !(#[trigger] parts[a] is CatchAll) by {}
    }
    lemma_parts_accepted_iff(parts, sep);
}

proof fn lemma_accepted_iff(parts: Seq<PartView>, has_sep: bool)
    ensures
        first_error(parts, has_sep) is None <==> (indices_differ(parts) && one_catch_all_at_most(
            parts,
        ) && (has_sep || !has_catch_all(parts))),
    decreases parts.len(),
{
    if parts.len() > 0 {
        let prefix = parts.drop_last();
        let last = parts.last();
        let n = parts.len() - 1;
        assert(last == parts[n]);
        lemma_accepted_iff(prefix, has_sep);
        assert forall|j: int| 0 <= j < prefix.len() implies prefix[j] == parts[j] by {}
        // the pairwise conditions split into those within the prefix and those with the last part
        let differ_prefix = indices_differ(prefix);
        let differ_last = names_index(last) ==> forall|a: int|
            0 <= a < n && names_index(parts[a]) ==> named_index(#[trigger] parts[a]) != named_index(
                last,
            );
        assert(indices_differ(parts) <==> differ_prefix && differ_last) by {
            if indices_differ(parts) {
                assert forall|a: int, b: int|
                    0 <= a < b < prefix.len() && names_index(prefix[a]) && names_index(
                        prefix[b],
                    ) implies named_index(#[trigger] prefix[a]) != named_index(
                    #[trigger] prefix[b],
                ) by {
                    assert(prefix[a] == parts[a] && prefix[b] == parts[b]);
                }
                if names_index(last) {
                    assert forall|a: int| 0 <= a < n && names_index(parts[a]) implies named_index(
                        #[trigger] parts[a],
                    ) != named_index(last) by {
                        assert(named_index(parts[a]) != named_index(parts[n]));
                    }
                }
            }
            if differ_prefix && differ_last {
                assert forall|a: int, b: int|
                    0 <= a < b < parts.len() && names_index(parts[a]) && names_index(
                        parts[b],
                    ) implies named_index(#[trigger] parts[a]) != named_index(
                    #[trigger] parts[b],
                ) by {
                    if b < n {
                        assert(prefix[a] == parts[a] && prefix[b] == parts[b]);
                        assert(named_index(prefix[a]) != named_index(prefix[b]));
                    } else {
                        assert(b == n);
                    }
                }
            }
        }
        let once_last = last is CatchAll ==> !has_catch_all(prefix);
        assert(one_catch_all_at_most(parts) <==> one_catch_all_at_most(prefix) && once_last) by {
            if one_catch_all_at_most(parts) {
                assert forall|a: int, b: int| 0 <= a < b < prefix.len() implies !((
                #[trigger] prefix[a] is CatchAll) && (#[trigger] prefix[b] is CatchAll)) by {
                    assert(prefix[a] == parts[a] && prefix[b] == parts[b]);
                }
                if last is CatchAll && has_catch_all(prefix) {
                    let a = choose|a: int| 0 <= a < prefix.len() && #[trigger] prefix[a] is CatchAll;
                    assert(parts[a] is CatchAll && parts[n] is CatchAll);
                }
            }
            if one_catch_all_at_most(prefix) && once_last {
                assert forall|a: int, b: int| 0 <= a < b < parts.len() implies !((
                #[trigger] parts[a] is CatchAll) && (#[trigger] parts[b] is CatchAll)) by {
                    if b < n {
                        assert(prefix[a] == parts[a] && prefix[b] == parts[b]);
                    } else if parts[a] is CatchAll && parts[b] is CatchAll {
                        assert(prefix[a] is CatchAll);
                    }
                }
            }
        }
        assert(has_catch_all(parts) <==> has_catch_all(prefix) || last is CatchAll) by {
            if has_catch_all(parts) {
                let a = choose|a: int| 0 <= a < parts.len() && #[trigger] parts[a] is CatchAll;
                if a < n {
                    assert(prefix[a] is CatchAll);
                }
            }
            if has_catch_all(prefix) {
                let a = choose|a: int| 0 <= a < prefix.len() && #[trigger] prefix[a] is CatchAll;
                assert(parts[a] is CatchAll);
            }
            if last is CatchAll {
                assert(parts[n] is CatchAll);
            }
        }
        if names_index(last) {
            let k = named_index(last) as isize;
            assert(crate::interpolator::part_key(last) == Some(k));
            lemma_recorded_keys(prefix, k);
            if !differ_last {
                let a = choose|a: int|
                    0 <= a < n && names_index(parts[a]) && named_index(#[trigger] parts[a])
                        == named_index(last);
                assert(prefix[a] == parts[a]);
                assert(names_index(prefix[a]) && named_index(prefix[a]) == k);
            }
            if index_pads(prefix).contains_key(k) {
                let j = choose|j: int|
                    0 <= j < prefix.len() && names_index(prefix[j]) && named_index(
                        #[trigger] prefix[j],
                    ) == k;
                assert(parts[j] == prefix[j]);
                assert(named_index(parts[j]) == named_index(last));
            }
        }
    }
}

} // verus!
