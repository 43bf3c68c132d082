//! A parsed template, checked once, and the rendering of chunk coordinates
//! into keys.
use std::collections::BTreeMap;

use vstd::prelude::*;
use vstd::utf8::encode_utf8;

use crate::decimal::{decimal, decimal_len, padded_decimal, push_padded};
use crate::errors::{InterpolateError, ParseError, ParseErrorView};
use crate::parser::{parse_parts, spec_parse_parts};
use crate::part::{Part, PartView};
use crate::text::string_with_capacity;

verus! {

broadcast use {
    vstd::std_specs::btree::group_btree_axioms,
    vstd::laws_cmp::group_laws_cmp,
    vstd::std_specs::btree::axiom_key_obeys_cmp_spec_meaning,
};

/// A template ready to render chunk coordinates into keys.
#[derive(Debug, Clone)]
pub struct Interpolator {
    parts: Vec<Part>,
    pad_by_idx: BTreeMap<isize, usize>,
    sep: String,
    strs_len: usize,
    max_pad: usize,
}

/// What an [`Interpolator`] holds: its parts, the pad width of each index
/// named by a placeholder, the catch-all separator, the total byte length of
/// its literal text and the largest pad width.
pub struct InterpolatorView {
    pub parts: Seq<PartView>,
    pub pads: Map<isize, usize>,
    pub sep: Seq<char>,
    pub strs_len: usize,
    pub max_pad: usize,
}

impl View for Interpolator {
    type V = InterpolatorView;

    closed spec fn view(&self) -> InterpolatorView {
        InterpolatorView {
            parts: self.parts.deep_view(),
            pads: self.pad_by_idx@,
            sep: self.sep@,
            strs_len: self.strs_len,
            max_pad: self.max_pad,
        }
    }
}

/// `u` as `isize`, wrapping around as `as isize` does.
pub open spec fn wrap_isize(u: usize) -> isize {
    if u <= isize::MAX {
        u as isize
    } else {
        (u - usize::MAX - 1) as isize
    }
}

/// The key under which a placeholder's index is recorded, if it names one.
pub open spec fn part_key(p: PartView) -> Option<isize> {
    match p {
        PartView::Index { idx, .. } => Some(wrap_isize(idx)),
        PartView::NegIndex { idx, .. } => Some(idx),
        _ => None,
    }
}

/// The pad width of every index named by a placeholder of `parts`.
pub open spec fn index_pads(parts: Seq<PartView>) -> Map<isize, usize>
    decreases parts.len(),
{
    if parts.len() == 0 {
        Map::empty()
    } else {
        let rest = index_pads(parts.drop_last());
        match part_key(parts.last()) {
            Some(k) => rest.insert(k, parts.last().padded_to()),
            None => rest,
        }
    }
}

/// Some part of `parts` is a catch-all.
pub open spec fn has_catch_all(parts: Seq<PartView>) -> bool {
    exists|i: int| 0 <= i < parts.len() && #[trigger] parts[i] is CatchAll
}

/// The error that part `p`, following the parts `prefix`, makes.
pub open spec fn part_error(prefix: Seq<PartView>, p: PartView, has_sep: bool) -> Option<
    ParseErrorView,
> {
    match p {
        PartView::Str(_) => None,
        PartView::CatchAll { .. } => if !has_sep {
            Some(ParseErrorView::CatchAllNeedsSeparator)
        } else if has_catch_all(prefix) {
            Some(ParseErrorView::MultipleCatchAll)
        } else {
            None
        },
        _ => {
            let k = part_key(p)->0;
            if index_pads(prefix).contains_key(k) {
                Some(ParseErrorView::DuplicateIndex(k))
            } else {
                None
            }
        },
    }
}

/// The first error among `parts`, in order.
pub open spec fn first_error(parts: Seq<PartView>, has_sep: bool) -> Option<ParseErrorView>
    decreases parts.len(),
{
    if parts.len() == 0 {
        None
    } else {
        match first_error(parts.drop_last(), has_sep) {
            Some(e) => Some(e),
            None => part_error(parts.drop_last(), parts.last(), has_sep),
        }
    }
}

/// The length in bytes of the text `s`, as `str::len` gives it: that of its
/// UTF-8 encoding.
pub open spec fn str_len(s: Seq<char>) -> usize {
    encode_utf8(s).len() as usize
}

/// The total UTF-8 byte length of the literal text of `parts`.
pub open spec fn str_bytes(parts: Seq<PartView>) -> nat
    decreases parts.len(),
{
    if parts.len() == 0 {
        0
    } else {
        str_bytes(parts.drop_last()) + match parts.last() {
            PartView::Str(s) => str_len(s) as nat,
            _ => 0,
        }
    }
}

/// The largest pad width among `parts` (0 if none).
pub open spec fn max_pad_of(parts: Seq<PartView>) -> usize
    decreases parts.len(),
{
    if parts.len() == 0 {
        0
    } else {
        let rest = max_pad_of(parts.drop_last());
        let p = parts.last().padded_to();
        if p > rest {
            p
        } else {
            rest
        }
    }
}

/// What an interpolator built from `parts` and the separator `sep` holds, or
/// the first error among the parts. The byte total of the literal text is
/// capped at `usize::MAX`, a total that text held in memory cannot reach.
pub open spec fn spec_from_parts(parts: Seq<PartView>, sep: Option<Seq<char>>) -> Result<
    InterpolatorView,
    ParseErrorView,
> {
    match first_error(parts, sep is Some) {
        Some(e) => Err(e),
        None => Ok(
            InterpolatorView {
                parts,
                pads: index_pads(parts),
                sep: match sep {
                    Some(s) => s,
                    None => Seq::empty(),
                },
                strs_len: if str_bytes(parts) <= usize::MAX {
                    str_bytes(parts) as usize
                } else {
                    usize::MAX
                },
                max_pad: max_pad_of(parts),
            },
        ),
    }
}

/// What `Interpolator::try_new(format, sep)` gives.
pub open spec fn spec_try_new(format: Seq<char>, sep: Option<Seq<char>>) -> Result<
    InterpolatorView,
    ParseErrorView,
> {
    match spec_parse_parts(format) {
        Err(e) => Err(e),
        Ok(parts) => spec_from_parts(parts, sep),
    }
}

impl InterpolatorView {
    /// The invariant of every interpolator: its records agree with its parts
    /// and no index is named twice.
    pub open spec fn wf(self) -> bool {
        &&& first_error(self.parts, true) is None
        &&& self.pads == index_pads(self.parts)
        &&& self.strs_len == if str_bytes(self.parts) <= usize::MAX {
            str_bytes(self.parts) as usize
        } else {
            usize::MAX
        }
        &&& self.max_pad == max_pad_of(self.parts)
    }
}

/// A chunk coordinate rendered at a pad width.
pub open spec fn render_number(n: u64, pad: usize) -> Seq<char> {
    padded_decimal(n as nat, pad as nat)
}

/// The catch-all renders position `i` of `len` coordinates unless a
/// placeholder names it, counted from the start or from the end.
pub open spec fn kept(len: nat, keys: Set<isize>, i: int) -> bool {
    !keys.contains((i - len) as isize) && !keys.contains(i as isize)
}

/// The catch-all's rendering of the first `n` coordinates that it keeps.
pub open spec fn catch_items(chunk: Seq<u64>, keys: Set<isize>, pad: usize, n: nat) -> Seq<
    Seq<char>,
>
    decreases n,
{
    if n == 0 {
        Seq::empty()
    } else {
        let prev = catch_items(chunk, keys, pad, (n - 1) as nat);
        if kept(chunk.len(), keys, n - 1) {
            prev.push(render_number(chunk[n - 1], pad))
        } else {
            prev
        }
    }
}

/// `items` joined by `sep`.
pub open spec fn join(items: Seq<Seq<char>>, sep: Seq<char>) -> Seq<char>
    decreases items.len(),
{
    if items.len() == 0 {
        Seq::empty()
    } else if items.len() == 1 {
        items[0]
    } else {
        join(items.drop_last(), sep) + sep + items.last()
    }
}

/// The rendering of one part, where `keys` are the indices that placeholders
/// name.
pub open spec fn render_part(p: PartView, chunk: Seq<u64>, keys: Set<isize>, sep: Seq<char>) -> Result<
    Seq<char>,
    InterpolateError,
> {
    match p {
        PartView::Str(s) => Ok(s),
        PartView::Index { idx, pad } => if idx < chunk.len() {
            Ok(render_number(chunk[idx as int], pad))
        } else {
            Err(InterpolateError::IndexOutOfBounds(wrap_isize(idx), chunk.len() as usize))
        },
        PartView::NegIndex { idx, pad } => {
            let at = chunk.len() + idx;
            if 0 <= at < chunk.len() {
                Ok(render_number(chunk[at], pad))
            } else {
                Err(InterpolateError::IndexOutOfBounds(idx, chunk.len() as usize))
            }
        },
        PartView::CatchAll { pad } => Ok(join(catch_items(chunk, keys, pad, chunk.len()), sep)),
    }
}

/// The renderings of `parts`, one after the other, or the first error.
pub open spec fn render_parts(
    parts: Seq<PartView>,
    chunk: Seq<u64>,
    keys: Set<isize>,
    sep: Seq<char>,
) -> Result<Seq<char>, InterpolateError>
    decreases parts.len(),
{
    if parts.len() == 0 {
        Ok(Seq::empty())
    } else {
        match render_part(parts[0], chunk, keys, sep) {
            Err(e) => Err(e),
            Ok(s) => match render_parts(parts.drop_first(), chunk, keys, sep) {
                Err(e) => Err(e),
                Ok(rest) => Ok(s + rest),
            },
        }
    }
}

/// The key that `v` renders for the chunk coordinates `chunk`.
pub open spec fn spec_interpolate(v: InterpolatorView, chunk: Seq<u64>) -> Result<
    Seq<char>,
    InterpolateError,
> {
    render_parts(v.parts, chunk, v.pads.dom(), v.sep)
}

/// The largest of `s` (0 when empty).
pub open spec fn max_of(s: Seq<u64>) -> u64
    decreases s.len(),
{
    if s.len() == 0 {
        0
    } else {
        let rest = max_of(s.drop_last());
        if s.last() > rest {
            s.last()
        } else {
            rest
        }
    }
}

/// The buffer size reserved for rendering `chunk`: room for every coordinate
/// at its widest, the literal text, and the catch-all's separators.
pub open spec fn spec_buf_len(v: InterpolatorView, chunk: Seq<u64>) -> int {
    let max_digits: int = if chunk.len() == 0 {
        0
    } else {
        decimal(max_of(chunk) as nat).len() as int
    };
    let widest: int = if max_digits > v.max_pad {
        max_digits
    } else {
        v.max_pad as int
    };
    let spare: int = if chunk.len() > v.pads.len() + 1 {
        chunk.len() - (v.pads.len() + 1)
    } else {
        0
    };
    widest * chunk.len() + v.strs_len + spare * str_len(v.sep)
}

/// A rendering result with its text as a sequence of characters.
pub open spec fn view_string_result(r: Result<String, InterpolateError>) -> Result<
    Seq<char>,
    InterpolateError,
> {
    match r {
        Ok(s) => Ok(s@),
        Err(e) => Err(e),
    }
}

/// A construction result seen through the views.
pub open spec fn view_interpolator_result(r: Result<Interpolator, ParseError>) -> Result<
    InterpolatorView,
    ParseErrorView,
> {
    match r {
        Ok(i) => Ok(i@),
        Err(e) => Err(e@),
    }
}

/// The separator argument as a sequence of characters.
pub open spec fn view_sep(sep: Option<&str>) -> Option<Seq<char>> {
    match sep {
        Some(s) => Some(s@),
        None => None,
    }
}


impl Interpolator {
    /// Parses `fmt` and checks its parts; `sep` joins the coordinates that a
    /// catch-all placeholder renders.
    pub fn try_new(fmt: &str, sep: Option<&str>) -> (r: Result<Self, ParseError>)
        ensures
            view_interpolator_result(r) == spec_try_new(fmt@, view_sep(sep)),
            r matches Ok(i) ==> i@.wf(),
    {
        let parts = parse_parts(fmt)?;
        Self::from_parts(parts, sep)
    }

    /// Checks `parts` in order and records the index of every placeholder.
    pub(crate) fn from_parts(parts: Vec<Part>, sep: Option<&str>) -> (r: Result<Self, ParseError>)
        ensures
            view_interpolator_result(r) == spec_from_parts(parts.deep_view(), view_sep(sep)),
            r matches Ok(i) ==> i@.wf(),
    {
        let ghost pv = parts.deep_view();
        let ghost has_sep = sep is Some;
        let mut pad_by_idx: BTreeMap<isize, usize> = BTreeMap::new();
        let mut has_catchall = false;
        let mut strs_len: usize = 0;
        let mut max_pad: usize = 0;
        let mut i: usize = 0;
        while i < parts.len()
            invariant
                i <= parts.len(),
                pv == parts.deep_view(),
                has_sep == sep is Some,
                first_error(pv.take(i as int), has_sep) is None,
                pad_by_idx@ == index_pads(pv.take(i as int)),
                has_catchall == has_catch_all(pv.take(i as int)),
                strs_len == if str_bytes(pv.take(i as int)) <= usize::MAX {
                    str_bytes(pv.take(i as int)) as usize
                } else {
                    usize::MAX
                },
                max_pad == max_pad_of(pv.take(i as int)),
            decreases parts.len() - i,
        {
            let ghost prefix = pv.take(i as int);
            let ghost next = pv.take(i + 1);
            assert(next.drop_last() =~= prefix);
            assert(next.last() == parts[i as int]@);
            proof {
                lemma_first_error_persists(pv, i + 1, has_sep);
            }
            let part = &parts[i];
            let padded = part.padded_to();
            if padded > max_pad {
                max_pad = padded;
            }
            match part {
                Part::Index { idx, pad } => {
                    if *pad > max_pad {
                        max_pad = *pad;
                    }
                    let key = wrap_index(*idx);
                    if pad_by_idx.insert(key, *pad).is_some() {
                        return Err(ParseError::DuplicateIndex(key));
                    }
                },
                Part::NegIndex { idx, pad } => {
                    if *pad > max_pad {
                        max_pad = *pad;
                    }
                    if pad_by_idx.insert(*idx, *pad).is_some() {
                        return Err(ParseError::DuplicateIndex(*idx));
                    }
                },
                Part::CatchAll { pad } => {
                    if sep.is_none() {
                        return Err(ParseError::CatchAllNeedsSeparator);
                    }
                    if *pad > max_pad {
                        max_pad = *pad;
                    }
                    if has_catchall {
                        return Err(ParseError::MultipleCatchAll);
                    }
                    has_catchall = true;
                },
                Part::String(s) => {
                    strs_len = strs_len.saturating_add(s.as_str().len());
                },
            }
            proof {
                lemma_has_catch_all_push(prefix, next);
            }
            i = i + 1;
        }
        assert(pv.take(parts.len() as int) =~= pv);
        proof {
            lemma_first_error_with_sep(pv, has_sep);
        }
        let sep_text = match sep {
            Some(s) => s.to_owned(),
            None => String::new(),
        };
        Ok(Self { parts, pad_by_idx, sep: sep_text, strs_len, max_pad })
    }
}

impl Interpolator {
    /// The parts of the template, in order.
    pub fn parts(&self) -> (r: &Vec<Part>)
        ensures
            r.deep_view() == self@.parts,
    {
        &self.parts
    }

    /// The separator that the catch-all places between coordinates (empty
    /// when none was given).
    pub fn separator(&self) -> (r: &str)
        ensures
            r@ == self@.sep,
    {
        self.sep.as_str()
    }

    /// Whether the template holds a catch-all placeholder.
    pub fn has_catchall(&self) -> (r: bool)
        ensures
            r == has_catch_all(self@.parts),
    {
        let ghost pv = self.parts.deep_view();
        let mut i: usize = 0;
        while i < self.parts.len()
            invariant
                i <= self.parts.len(),
                pv == self.parts.deep_view(),
                forall|j: int| 0 <= j < i ==> !(#[trigger] pv[j] is CatchAll),
            decreases self.parts.len() - i,
        {
            if let Part::CatchAll { .. } = &self.parts[i] {
                assert(pv[i as int] is CatchAll);
                return true;
            }
            i = i + 1;
        }
        false
    }

    /// The number of bytes to reserve for the key of `chunk_idx`, as
    /// [`spec_buf_len`] gives it, or `None` when that exceeds `usize::MAX`.
    pub fn buf_len(&self, chunk_idx: &[u64]) -> (r: Option<usize>)
        ensures
            r == if spec_buf_len(self@, chunk_idx@) <= usize::MAX {
                Some(spec_buf_len(self@, chunk_idx@) as usize)
            } else {
                None::<usize>
            },
    {
        let len = chunk_idx.len();
        let mut max: u64 = 0;
        let mut j: usize = 0;
        while j < len
            invariant
                j <= len == chunk_idx@.len(),
                max == max_of(chunk_idx@.take(j as int)),
            decreases len - j,
        {
            assert(chunk_idx@.take(j + 1).drop_last() =~= chunk_idx@.take(j as int));
            if chunk_idx[j] > max {
                max = chunk_idx[j];
            }
            j = j + 1;
        }
        assert(chunk_idx@.take(len as int) =~= chunk_idx@);
        let max_digits = if len > 0 {
            decimal_len(max)
        } else {
            0
        };
        let widest = if max_digits > self.max_pad {
            max_digits
        } else {
            self.max_pad
        };
        let count = self.pad_by_idx.len();
        let spare = len.saturating_sub(count.saturating_add(1));
        let sep_bytes = self.sep.as_str().len();
        proof {
            let w = widest as int;
            let l = len as int;
            let sp = spare as int;
            let sb = sep_bytes as int;
            assert(w * l >= 0) by (nonlinear_arith)
                requires
                    w >= 0,
                    l >= 0,
            ;
            assert(sp * sb >= 0) by (nonlinear_arith)
                requires
                    sp >= 0,
                    sb >= 0,
            ;
        }
        let digits_room = match widest.checked_mul(len) {
            Some(v) => v,
            None => {
                return None;
            },
        };
        let sep_room = match spare.checked_mul(sep_bytes) {
            Some(v) => v,
            None => {
                return None;
            },
        };
        match digits_room.checked_add(self.strs_len) {
            Some(v) => v.checked_add(sep_room),
            None => None,
        }
    }

    /// Renders the chunk coordinates `chunk_idx` into a key, as
    /// [`spec_interpolate`] describes: literal text is copied, `{i}` gives
    /// coordinate `i`, `{-i}` coordinate `len - i`, and `{*}` every
    /// coordinate that no placeholder names, joined by the separator; each
    /// number is zero-padded to its placeholder's width. A placeholder whose
    /// index is out of range gives [`InterpolateError::IndexOutOfBounds`].
    pub fn interpolate(&self, chunk_idx: &[u64]) -> (r: Result<String, InterpolateError>)
        requires
            chunk_idx@.len() <= isize::MAX,
            spec_buf_len(self@, chunk_idx@) <= isize::MAX,
        ensures
            view_string_result(r) == spec_interpolate(self@, chunk_idx@),
    {
        let cap = match self.buf_len(chunk_idx) {
            Some(n) => n,
            None => 0,  // excluded by the precondition
        };
        let mut out = string_with_capacity(cap);
        let ghost pv = self.parts.deep_view();
        let ghost keys = self.pad_by_idx@.dom();
        let ghost chunk = chunk_idx@;
        let ghost whole = render_parts(pv, chunk, keys, self.sep@);
        let len = chunk_idx.len();
        assert(pv.skip(0) =~= pv);
        let mut i: usize = 0;
        while i < self.parts.len()
            invariant
                i <= self.parts.len(),
                pv == self.parts.deep_view(),
                keys == self.pad_by_idx@.dom(),
                chunk == chunk_idx@,
                len == chunk.len(),
                len <= isize::MAX,
                whole == render_parts(pv, chunk, keys, self.sep@),
                whole == match render_parts(pv.skip(i as int), chunk, keys, self.sep@) {
                    Ok(rest) => Ok(out@ + rest),
                    Err(e) => Err::<Seq<char>, InterpolateError>(e),
                },
            decreases self.parts.len() - i,
        {
            let ghost rest = pv.skip(i as int);
            assert(rest[0] == pv[i as int]);
            assert(rest.drop_first() =~= pv.skip(i + 1));
            let ghost before = out@;
            let ghost mut piece = Seq::<char>::empty();
            match &self.parts[i] {
                Part::String(s) => {
                    out.append(s.as_str());
                    proof {
                        piece = s@;
                    }
                },
                Part::Index { idx, pad } => {
                    if *idx < len {
                        push_padded(&mut out, chunk_idx[*idx], *pad);
                        proof {
                            piece = render_number(chunk[*idx as int], *pad);
                        }
                    } else {
                        return Err(InterpolateError::IndexOutOfBounds(wrap_index(*idx), len));
                    }
                },
                Part::NegIndex { idx, pad } => {
                    if *idx < 0 {
                        let back = ((-(*idx + 1)) as usize) + 1;
                        if back <= len {
                            let at = len - back;
                            push_padded(&mut out, chunk_idx[at], *pad);
                            proof {
                                piece = render_number(chunk[at as int], *pad);
                            }
                        } else {
                            return Err(InterpolateError::IndexOutOfBounds(*idx, len));
                        }
                    } else {
                        return Err(InterpolateError::IndexOutOfBounds(*idx, len));
                    }
                },
                Part::CatchAll { pad } => {
                    self.push_catch_all(&mut out, chunk_idx, *pad);
                    proof {
                        piece = join(catch_items(chunk, keys, *pad, len as nat), self.sep@);
                    }
                },
            }
            assert(render_part(pv[i as int], chunk, keys, self.sep@) == Ok::<
                Seq<char>,
                InterpolateError,
            >(piece));
            assert(out@ == before + piece);
            proof {
                match render_parts(pv.skip(i + 1), chunk, keys, self.sep@) {
                    Ok(r) => {
                        assert((before + piece) + r =~= before + (piece + r));
                    },
                    Err(_) => {},
                }
            }
            i = i + 1;
        }
        assert(pv.skip(i as int) =~= Seq::<PartView>::empty());
        assert(out@ + Seq::<char>::empty() =~= out@);
        Ok(out)
    }

    /// Appends the catch-all's rendering of `chunk_idx` at pad width `pad`.
    fn push_catch_all(&self, out: &mut String, chunk_idx: &[u64], pad: usize)
        requires
            chunk_idx@.len() <= isize::MAX,
        ensures
            final(out)@ == old(out)@ + join(
                catch_items(chunk_idx@, self@.pads.dom(), pad, chunk_idx@.len()),
                self@.sep,
            ),
    {
        let ghost keys = self.pad_by_idx@.dom();
        let ghost chunk = chunk_idx@;
        let ghost start = out@;
        let len = chunk_idx.len();
        let mut first = true;
        let mut i: usize = 0;
        while i < len
            invariant
                i <= len == chunk.len(),
                len <= isize::MAX,
                chunk == chunk_idx@,
                keys == self.pad_by_idx@.dom(),
                out@ == start + join(catch_items(chunk, keys, pad, i as nat), self.sep@),
                first == (catch_items(chunk, keys, pad, i as nat).len() == 0),
            decreases len - i,
        {
            let ghost items = catch_items(chunk, keys, pad, i as nat);
            let neg_arg = (i as isize) - (len as isize);
            let skip = self.pad_by_idx.contains_key(&neg_arg) || self.pad_by_idx.contains_key(
                &(i as isize),
            );
            if !skip {
                if first {
                    first = false;
                } else {
                    out.append(self.sep.as_str());
                }
                let ghost mid = out@;
                push_padded(out, chunk_idx[i], pad);
                let ghost item = render_number(chunk[i as int], pad);
                assert(items.push(item).drop_last() =~= items);
                assert(out@ =~= start + join(items.push(item), self.sep@));
            }
            i = i + 1;
        }
    }
}

/// `idx as isize`.
fn wrap_index(idx: usize) -> (k: isize)
    ensures
        k == wrap_isize(idx),
{
    if idx <= isize::MAX as usize {
        idx as isize
    } else {
        ((idx - isize::MAX as usize - 1) as isize) + isize::MIN
    }
}

/// An error among the first `i` parts is the first error of all of them.
proof fn lemma_first_error_persists(parts: Seq<PartView>, i: int, has_sep: bool)
    requires
        0 <= i <= parts.len(),
    ensures
        first_error(parts.take(i), has_sep) is Some ==> first_error(parts, has_sep) == first_error(
            parts.take(i),
            has_sep,
        ),
    decreases parts.len() - i,
{
    if i < parts.len() {
        lemma_first_error_persists(parts, i + 1, has_sep);
        assert(parts.take(i + 1).drop_last() =~= parts.take(i));
    } else {
        assert(parts.take(i) =~= parts);
    }
}

/// Parts that need no separator also pass when a separator is given.
pub proof fn lemma_first_error_with_sep(parts: Seq<PartView>, has_sep: bool)
    requires
        first_error(parts, has_sep) is None,
    ensures
        first_error(parts, true) is None,
    decreases parts.len(),
{
    if parts.len() > 0 {
        lemma_first_error_with_sep(parts.drop_last(), has_sep);
    }
}

/// A catch-all among the first parts, one part later.
proof fn lemma_has_catch_all_push(prefix: Seq<PartView>, next: Seq<PartView>)
    requires
        next.len() == prefix.len() + 1,
        next.drop_last() == prefix,
    ensures
        has_catch_all(next) == (has_catch_all(prefix) || next.last() is CatchAll),
{
    if has_catch_all(prefix) {
        let j = choose|j: int| 0 <= j < prefix.len() && #[trigger] prefix[j] is CatchAll;
        assert(next[j] == prefix[j]);
    }
    if has_catch_all(next) {
        let j = choose|j: int| 0 <= j < next.len() && #[trigger] next[j] is CatchAll;
        if j < prefix.len() {
            assert(next[j] == prefix[j]);
        }
    }
    if next.last() is CatchAll {
        assert(next[next.len() - 1] is CatchAll);
    }
}

} // verus!
