//! The buffer size that an interpolator reserves suffices for the key it
//! renders.
use vstd::prelude::*;
use vstd::utf8::{encode_utf8, is_ascii_chars, is_ascii_chars_encode_utf8};

use crate::decimal::{all_digits, decimal, is_digit};
use crate::errors::InterpolateError;
use crate::interpolator::{
    catch_items, first_error, has_catch_all, index_pads, join, kept, max_of, max_pad_of,
    part_error, part_key, render_number, render_part, render_parts,
};
use crate::interpolator::{spec_buf_len, spec_interpolate, str_bytes, str_len, InterpolatorView};
use crate::laws::{in_range, lemma_interpolate_ok_iff_in_range};
use crate::laws::lemma_padded_decimal_reads_back;
use crate::part::PartView;

verus! {

/// The UTF-8 encoding of two texts one after the other.
proof fn lemma_utf8_concat(a: Seq<char>, b: Seq<char>)
    ensures
        encode_utf8(a + b) == encode_utf8(a) + encode_utf8(b),
    decreases a.len(),
{
    if a.len() == 0 {
        assert(a + b =~= b);
        assert(encode_utf8(a) + encode_utf8(b) =~= encode_utf8(b));
    } else {
        assert((a + b).drop_first() =~= a.drop_first() + b);
        assert((a + b)[0] == a[0]);
        lemma_utf8_concat(a.drop_first(), b);
        let e = vstd::utf8::encode_scalar(a[0] as u32);
        assert(e + (encode_utf8(a.drop_first()) + encode_utf8(b)) =~= (e + encode_utf8(
            a.drop_first(),
        )) + encode_utf8(b));
    }
}

/// Digits take one byte each.
proof fn lemma_digits_utf8(d: Seq<char>)
    requires
        all_digits(d),
    ensures
        encode_utf8(d).len() == d.len(),
{
    assert(is_ascii_chars(d)) by {
        assert forall|i| 0 <= i < d.len() implies '\0' <= #[trigger] d[i] <= '\u{7f}' by {
            assert(is_digit(d[i]));
        }
    }
    is_ascii_chars_encode_utf8(d);
}

/// A larger number has at least as many digits.
proof fn lemma_decimal_len_monotone(n: nat, m: nat)
    requires
        n <= m,
    ensures
        decimal(n).len() <= decimal(m).len(),
    decreases n,
{
    crate::decimal::lemma_decimal_value(m);
    if n >= 10 {
        lemma_decimal_len_monotone(n / 10, m / 10);
    }
}

/// No element exceeds the largest.
proof fn lemma_max_of(s: Seq<u64>, i: int)
    requires
        0 <= i < s.len(),
    ensures
        s[i] <= max_of(s),
    decreases s.len(),
{
    if i < s.len() - 1 {
        lemma_max_of(s.drop_last(), i);
    }
}

/// No part pads wider than the widest pad.
proof fn lemma_max_pad_of(parts: Seq<PartView>, i: int)
    requires
        0 <= i < parts.len(),
    ensures
        parts[i].padded_to() <= max_pad_of(parts),
    decreases parts.len(),
{
    if i < parts.len() - 1 {
        lemma_max_pad_of(parts.drop_last(), i);
    }
}

/// Rendering parts is rendering all but the last, then the last.
proof fn lemma_render_parts_snoc(
    parts: Seq<PartView>,
    chunk: Seq<u64>,
    keys: Set<isize>,
    sep: Seq<char>,
)
    requires
        parts.len() > 0,
    ensures
        render_parts(parts, chunk, keys, sep) == match render_parts(
            parts.drop_last(),
            chunk,
            keys,
            sep,
        ) {
            Err(e) => Err(e),
            Ok(a) => match render_part(parts.last(), chunk, keys, sep) {
                Err(e) => Err(e),
                Ok(b) => Ok::<Seq<char>, InterpolateError>(a + b),
            },
        },
    decreases parts.len(),
{
    if parts.len() == 1 {
        assert(parts.drop_first() =~= Seq::<PartView>::empty());
        assert(parts.drop_last() =~= Seq::<PartView>::empty());
        match render_part(parts[0], chunk, keys, sep) {
            Ok(b) => {
                assert(b + Seq::<char>::empty() =~= b);
                assert(Seq::<char>::empty() + b =~= b);
            },
            Err(_) => {},
        }
    } else {
        let rest = parts.drop_first();
        lemma_render_parts_snoc(rest, chunk, keys, sep);
        assert(rest.drop_last() =~= parts.drop_last().drop_first());
        assert(rest.last() == parts.last());
        assert(parts.drop_last()[0] == parts[0]);
        match render_part(parts[0], chunk, keys, sep) {
            Ok(h) => {
                match render_parts(rest.drop_last(), chunk, keys, sep) {
                    Ok(a) => {
                        match render_part(parts.last(), chunk, keys, sep) {
                            Ok(b) => {
                                assert(h + (a + b) =~= (h + a) + b);
                            },
                            Err(_) => {},
                        }
                    },
                    Err(_) => {},
                }
            },
            Err(_) => {},
        }
    }
}

/// A placeholder that names a coordinate.
pub open spec fn is_index(p: PartView) -> bool {
    p is Index || p is NegIndex
}

/// The position among `len` coordinates that an index placeholder names.
pub open spec fn position(p: PartView, len: nat) -> int {
    match p {
        PartView::Index { idx, .. } => idx as int,
        PartView::NegIndex { idx, .. } => len + idx,
        _ => -1,
    }
}

/// No two index placeholders of `parts` name the same position.
pub open spec fn distinct_positions(parts: Seq<PartView>, len: nat) -> bool {
    forall|i: int, j: int|
        0 <= i < j < parts.len() && is_index(parts[i]) && is_index(parts[j]) ==> position(
            #[trigger] parts[i],
            len,
        ) != position(#[trigger] parts[j], len)
}

/// The number of index placeholders in `parts`.
pub open spec fn index_count(parts: Seq<PartView>) -> nat
    decreases parts.len(),
{
    if parts.len() == 0 {
        0
    } else {
        index_count(parts.drop_last()) + if is_index(parts.last()) {
            1nat
        } else {
            0nat
        }
    }
}

/// The number of catch-alls in `parts`.
pub open spec fn catch_count(parts: Seq<PartView>) -> nat
    decreases parts.len(),
{
    if parts.len() == 0 {
        0
    } else {
        catch_count(parts.drop_last()) + if parts.last() is CatchAll {
            1nat
        } else {
            0nat
        }
    }
}

/// Some index placeholder of `parts` names position `i`.
pub open spec fn named(parts: Seq<PartView>, len: nat, i: int) -> bool
    decreases parts.len(),
{
    parts.len() > 0 && (named(parts.drop_last(), len, i) || (is_index(parts.last()) && position(
        parts.last(),
        len,
    ) == i))
}

/// How many of the positions `0..n` satisfy `f`.
pub open spec fn count(n: nat, f: spec_fn(int) -> bool) -> nat
    decreases n,
{
    if n == 0 {
        0
    } else {
        count((n - 1) as nat, f) + if f(n - 1) {
            1nat
        } else {
            0nat
        }
    }
}

proof fn lemma_count_ext(n: nat, f: spec_fn(int) -> bool, g: spec_fn(int) -> bool)
    requires
        forall|i: int| 0 <= i < n ==> #[trigger] f(i) == g(i),
    ensures
        count(n, f) == count(n, g),
    decreases n,
{
    if n > 0 {
        lemma_count_ext((n - 1) as nat, f, g);
    }
}

proof fn lemma_count_bound(n: nat, f: spec_fn(int) -> bool)
    ensures
        count(n, f) <= n,
    decreases n,
{
    if n > 0 {
        lemma_count_bound((n - 1) as nat, f);
    }
}

proof fn lemma_count_complement(n: nat, f: spec_fn(int) -> bool, g: spec_fn(int) -> bool)
    requires
        forall|i: int| 0 <= i < n ==> #[trigger] g(i) == !f(i),
    ensures
        count(n, f) + count(n, g) == n,
    decreases n,
{
    if n > 0 {
        lemma_count_complement((n - 1) as nat, f, g);
    }
}

proof fn lemma_count_add_one(n: nat, f: spec_fn(int) -> bool, g: spec_fn(int) -> bool, p: int)
    requires
        0 <= p < n,
        !f(p),
        forall|i: int| 0 <= i < n ==> #[trigger] g(i) == (f(i) || i == p),
    ensures
        count(n, g) == count(n, f) + 1,
    decreases n,
{
    if p < n - 1 {
        lemma_count_add_one((n - 1) as nat, f, g, p);
    } else {
        lemma_count_ext((n - 1) as nat, f, g);
    }
}

proof fn lemma_named_witness(parts: Seq<PartView>, len: nat, i: int)
    requires
        named(parts, len, i),
    ensures
        exists|j: int|
            0 <= j < parts.len() && is_index(parts[j]) && position(#[trigger] parts[j], len) == i,
    decreases parts.len(),
{
    if named(parts.drop_last(), len, i) {
        lemma_named_witness(parts.drop_last(), len, i);
        let j = choose|j: int|
            0 <= j < parts.len() - 1 && is_index(parts.drop_last()[j]) && position(
                #[trigger] parts.drop_last()[j],
                len,
            ) == i;
        assert(parts[j] == parts.drop_last()[j]);
    } else {
        assert(parts[parts.len() - 1] == parts.last());
    }
}

/// Distinct in-range index placeholders name as many positions as there are
/// of them.
proof fn lemma_named_count(parts: Seq<PartView>, len: nat)
    requires
        distinct_positions(parts, len),
        forall|j: int| 0 <= j < parts.len() && is_index(parts[j]) ==> 0 <= #[trigger] position(parts[j], len) < len,
    ensures
        count(len, |i: int| named(parts, len, i)) == index_count(parts),
    decreases parts.len(),
{
    if parts.len() == 0 {
        assert(count(len, |i: int| named(parts, len, i)) == 0) by {
            lemma_count_ext(len, |i: int| named(parts, len, i), |i: int| false);
            lemma_count_complement(len, |i: int| true, |i: int| false);
            lemma_count_bound(len, |i: int| true);
            lemma_count_all(len);
        }
    } else {
        let prefix = parts.drop_last();
        assert forall|j: int| 0 <= j < prefix.len() && is_index(prefix[j]) implies 0
            <= #[trigger] position(prefix[j], len) < len by {
            assert(prefix[j] == parts[j]);
        }
        assert forall|a: int, b: int|
            0 <= a < b < prefix.len() && is_index(prefix[a]) && is_index(
                prefix[b],
            ) implies position(#[trigger] prefix[a], len) != position(
            #[trigger] prefix[b],
            len,
        ) by {
            assert(prefix[a] == parts[a]);
            assert(prefix[b] == parts[b]);
        }
        lemma_named_count(prefix, len);
        let last = parts.last();
        assert(last == parts[parts.len() - 1]);
        if is_index(last) {
            let p = position(last, len);
            assert(0 <= p < len);
            if named(prefix, len, p) {
                lemma_named_witness(prefix, len, p);
                let j = choose|j: int|
                    0 <= j < prefix.len() && is_index(prefix[j]) && position(
                        #[trigger] prefix[j],
                        len,
                    ) == p;
                assert(prefix[j] == parts[j]);
                assert(false);
            }
            lemma_count_add_one(
                len,
                |i: int| named(prefix, len, i),
                |i: int| named(parts, len, i),
                p,
            );
        } else {
            lemma_count_ext(len, |i: int| named(prefix, len, i), |i: int| named(parts, len, i));
        }
    }
}

proof fn lemma_count_all(n: nat)
    ensures
        count(n, |i: int| true) == n,
    decreases n,
{
    if n > 0 {
        lemma_count_all((n - 1) as nat);
    }
}

/// With every placeholder in range, the catch-all keeps exactly the
/// positions that no placeholder names.
proof fn lemma_kept_named(parts: Seq<PartView>, len: nat, i: int)
    requires
        len <= isize::MAX,
        0 <= i < len,
        forall|j: int| 0 <= j < parts.len() ==> #[trigger] in_range(parts[j], len),
    ensures
        kept(len, index_pads(parts).dom(), i) == !named(parts, len, i),
    decreases parts.len(),
{
    if parts.len() > 0 {
        let prefix = parts.drop_last();
        assert forall|j: int| 0 <= j < prefix.len() implies #[trigger] in_range(prefix[j], len) by {
            assert(prefix[j] == parts[j]);
        }
        lemma_kept_named(prefix, len, i);
        let last = parts.last();
        assert(in_range(parts[parts.len() - 1], len));
        match part_key(last) {
            Some(k) => {
                match last {
                    PartView::Index { idx, .. } => {
                        assert(k == idx as isize);
                    },
                    _ => {},
                }
            },
            None => {},
        }
    }
}

/// The catch-all renders as many items as it keeps positions.
proof fn lemma_catch_items_len(chunk: Seq<u64>, keys: Set<isize>, pad: usize, n: nat)
    ensures
        catch_items(chunk, keys, pad, n).len() == count(n, |i: int| kept(chunk.len(), keys, i)),
    decreases n,
{
    if n > 0 {
        lemma_catch_items_len(chunk, keys, pad, (n - 1) as nat);
    }
}

/// Every item of the catch-all is a padded coordinate.
proof fn lemma_catch_items_digits(chunk: Seq<u64>, keys: Set<isize>, pad: usize, n: nat, w: nat)
    requires
        n <= chunk.len(),
        pad <= w,
        forall|i: int| 0 <= i < chunk.len() ==> decimal(#[trigger] chunk[i] as nat).len() <= w,
    ensures
        forall|j: int|
            0 <= j < catch_items(chunk, keys, pad, n).len() ==> all_digits(
                #[trigger] catch_items(chunk, keys, pad, n)[j],
            ) && catch_items(chunk, keys, pad, n)[j].len() <= w,
    decreases n,
{
    if n > 0 {
        lemma_catch_items_digits(chunk, keys, pad, (n - 1) as nat, w);
        let item = render_number(chunk[n - 1], pad);
        lemma_padded_decimal_reads_back(chunk[n - 1] as nat, pad as nat);
        assert(decimal(chunk[n - 1] as nat).len() <= w);
        let prev = catch_items(chunk, keys, pad, (n - 1) as nat);
        let items = catch_items(chunk, keys, pad, n);
        assert forall|j: int| 0 <= j < items.len() implies all_digits(#[trigger] items[j])
            && items[j].len() <= w by {
            if j < prev.len() {
                assert(items[j] == prev[j]);
            } else {
                assert(items[j] == item);
            }
        }
    }
}

/// The bytes of items joined by a separator.
proof fn lemma_join_bytes(items: Seq<Seq<char>>, sep: Seq<char>, w: nat)
    requires
        items.len() > 0,
        forall|j: int| 0 <= j < items.len() ==> all_digits(#[trigger] items[j]) && items[j].len()
            <= w,
    ensures
        encode_utf8(join(items, sep)).len() <= items.len() * w + (items.len() - 1) * encode_utf8(
            sep,
        ).len(),
    decreases items.len(),
{
    let k = items.len();
    let sb = encode_utf8(sep).len();
    lemma_digits_utf8(items.last());
    assert(all_digits(items[k - 1]));
    if k == 1 {
        assert(join(items, sep) == items[0]);
    } else {
        let prev = items.drop_last();
        assert forall|j: int| 0 <= j < prev.len() implies all_digits(#[trigger] prev[j])
            && prev[j].len() <= w by {
            assert(prev[j] == items[j]);
        }
        lemma_join_bytes(prev, sep, w);
        lemma_utf8_concat(join(prev, sep) + sep, items.last());
        lemma_utf8_concat(join(prev, sep), sep);
        let a = encode_utf8(join(prev, sep)).len();
        assert((k - 1) * w + w + ((k - 2) * sb + sb) == k * w + (k - 1) * sb) by (nonlinear_arith);
    }
}

/// Without duplicates, there are as many recorded indices as index
/// placeholders.
proof fn lemma_index_pads_len(parts: Seq<PartView>)
    requires
        first_error(parts, true) is None,
    ensures
        index_pads(parts).dom().finite(),
        index_pads(parts).dom().len() == index_count(parts),
    decreases parts.len(),
{
    if parts.len() > 0 {
        let prefix = parts.drop_last();
        lemma_index_pads_len(prefix);
        let last = parts.last();
        match part_key(last) {
            Some(k) => {
                assert(part_error(prefix, last, true) is None);
                assert(!index_pads(prefix).contains_key(k));
                assert(index_pads(parts).dom() =~= index_pads(prefix).dom().insert(k));
            },
            None => {
                assert(!is_index(last));
            },
        }
    }
}

proof fn lemma_catch_count_positive(parts: Seq<PartView>)
    requires
        catch_count(parts) > 0,
    ensures
        has_catch_all(parts),
    decreases parts.len(),
{
    let prefix = parts.drop_last();
    if parts.last() is CatchAll {
        assert(parts[parts.len() - 1] is CatchAll);
    } else {
        lemma_catch_count_positive(prefix);
        let j = choose|j: int| 0 <= j < prefix.len() && #[trigger] prefix[j] is CatchAll;
        assert(parts[j] == prefix[j]);
    }
}

/// A template holds at most one catch-all.
proof fn lemma_catch_count_at_most_one(parts: Seq<PartView>)
    requires
        first_error(parts, true) is None,
    ensures
        catch_count(parts) <= 1,
    decreases parts.len(),
{
    if parts.len() > 0 {
        let prefix = parts.drop_last();
        lemma_catch_count_at_most_one(prefix);
        if parts.last() is CatchAll {
            assert(part_error(prefix, parts.last(), true) is None);
            if catch_count(prefix) > 0 {
                lemma_catch_count_positive(prefix);
            }
        }
    }
}

/// The byte length of every literal text of `parts` fits in `usize`.
pub open spec fn literals_fit(parts: Seq<PartView>) -> bool {
    forall|j: int|
        0 <= j < parts.len() ==> (#[trigger] parts[j] matches PartView::Str(t) ==> encode_utf8(
            t,
        ).len() <= usize::MAX)
}

/// The bytes of a rendering: the literal text, at most `w` bytes per index
/// placeholder and at most `c` per catch-all.
proof fn lemma_render_bytes(
    parts: Seq<PartView>,
    chunk: Seq<u64>,
    keys: Set<isize>,
    sep: Seq<char>,
    w: nat,
    c: nat,
)
    requires
        literals_fit(parts),
        forall|j: int| 0 <= j < parts.len() ==> (#[trigger] parts[j]).padded_to() <= w,
        forall|i: int| 0 <= i < chunk.len() ==> decimal(#[trigger] chunk[i] as nat).len() <= w,
        forall|j: int| 0 <= j < parts.len() ==> #[trigger] in_range(parts[j], chunk.len()),
        forall|p: usize|
            p <= w ==> encode_utf8(#[trigger] join(catch_items(chunk, keys, p, chunk.len()), sep)).len()
                <= c,
        render_parts(parts, chunk, keys, sep) is Ok,
    ensures
        encode_utf8(render_parts(parts, chunk, keys, sep)->Ok_0).len() <= str_bytes(parts) + w
            * index_count(parts) + c * catch_count(parts),
    decreases parts.len(),
{
    if parts.len() == 0 {
        assert(encode_utf8(Seq::<char>::empty()).len() == 0);
    } else {
        let prefix = parts.drop_last();
        let last = parts.last();
        assert(last == parts[parts.len() - 1]);
        lemma_render_parts_snoc(parts, chunk, keys, sep);
        assert forall|j: int| 0 <= j < prefix.len() implies (#[trigger] prefix[j] matches PartView::Str(t)
            ==> encode_utf8(t).len() <= usize::MAX) by {
            assert(prefix[j] == parts[j]);
        }
        assert forall|j: int| 0 <= j < prefix.len() implies (#[trigger] prefix[j]).padded_to() <= w by {
            assert(prefix[j] == parts[j]);
        }
        assert forall|j: int| 0 <= j < prefix.len() implies #[trigger] in_range(prefix[j], chunk.len()) by {
            assert(prefix[j] == parts[j]);
        }
        lemma_render_bytes(prefix, chunk, keys, sep, w, c);
        let a = render_parts(prefix, chunk, keys, sep)->Ok_0;
        let b = render_part(last, chunk, keys, sep)->Ok_0;
        lemma_utf8_concat(a, b);
        let ic = index_count(prefix);
        let cc = catch_count(prefix);
        assert(w * (ic + 1) == w * ic + w) by (nonlinear_arith);
        assert(c * (cc + 1) == c * cc + c) by (nonlinear_arith);
        assert(w * ic >= 0 && c * cc >= 0) by (nonlinear_arith);
        match last {
            PartView::Str(t) => {
                assert(encode_utf8(t).len() <= usize::MAX);
            },
            PartView::Index { idx, pad } => {
                lemma_padded_decimal_reads_back(chunk[idx as int] as nat, pad as nat);
                lemma_digits_utf8(b);
                assert(decimal(chunk[idx as int] as nat).len() <= w);
            },
            PartView::NegIndex { idx, pad } => {
                let at = chunk.len() + idx;
                lemma_padded_decimal_reads_back(chunk[at] as nat, pad as nat);
                lemma_digits_utf8(b);
                assert(decimal(chunk[at] as nat).len() <= w);
            },
            PartView::CatchAll { pad } => {
                assert(pad <= w);
            },
        }
    }
}

/// The buffer size that an interpolator reserves, `spec_buf_len`, holds the
/// bytes of the key it renders, when no two placeholders name the same
/// coordinate and the sizes involved fit in `usize`.
pub proof fn lemma_buf_len_suffices(v: InterpolatorView, chunk: Seq<u64>)
    requires
        v.wf(),
        chunk.len() <= isize::MAX,
        spec_interpolate(v, chunk) is Ok,
        distinct_positions(v.parts, chunk.len()),
        literals_fit(v.parts),
        encode_utf8(v.sep).len() <= usize::MAX,
        str_bytes(v.parts) <= usize::MAX,
    ensures
        encode_utf8(spec_interpolate(v, chunk)->Ok_0).len() <= spec_buf_len(v, chunk),
{
    let len = chunk.len();
    let parts = v.parts;
    let keys = v.pads.dom();
    lemma_interpolate_ok_iff_in_range(v, chunk);
    let max_digits: int = if len == 0 {
        0
    } else {
        decimal(max_of(chunk) as nat).len() as int
    };
    let w: nat = (if max_digits > v.max_pad {
        max_digits
    } else {
        v.max_pad as int
    }) as nat;
    assert forall|j: int| 0 <= j < parts.len() implies (#[trigger] parts[j]).padded_to() <= w by {
        lemma_max_pad_of(parts, j);
    }
    assert forall|i: int| 0 <= i < len implies decimal(#[trigger] chunk[i] as nat).len() <= w by {
        lemma_max_of(chunk, i);
        lemma_decimal_len_monotone(chunk[i] as nat, max_of(chunk) as nat);
    }
    let kept_fn = |i: int| kept(len, keys, i);
    let named_fn = |i: int| named(parts, len, i);
    let k = count(len, kept_fn);
    let sb = encode_utf8(v.sep).len();
    let c: nat = if k == 0 {
        0
    } else {
        (k * w + (k - 1) * sb) as nat
    };
    assert forall|p: usize| p <= w implies encode_utf8(
        #[trigger] join(catch_items(chunk, keys, p, len), v.sep),
    ).len() <= c by {
        lemma_catch_items_len(chunk, keys, p, len);
        let items = catch_items(chunk, keys, p, len);
        if k == 0 {
            assert(join(items, v.sep) == Seq::<char>::empty());
            assert(encode_utf8(Seq::<char>::empty()).len() == 0);
        } else {
            lemma_catch_items_digits(chunk, keys, p, len, w);
            lemma_join_bytes(items, v.sep, w);
        }
    }
    lemma_render_bytes(parts, chunk, keys, v.sep, w, c);
    // counting the coordinates
    assert forall|i: int| 0 <= i < len implies #[trigger] kept_fn(i) == !named_fn(i) by {
        lemma_kept_named(parts, len, i);
    }
    lemma_count_complement(len, named_fn, kept_fn);
    assert forall|j: int| 0 <= j < parts.len() && is_index(parts[j]) implies 0
        <= #[trigger] position(parts[j], len) < len by {
        assert(in_range(parts[j], len));
    }
    lemma_named_count(parts, len);
    let ic = index_count(parts);
    assert(k + ic == len);
    lemma_index_pads_len(parts);
    assert(v.pads.len() == ic);
    lemma_catch_count_at_most_one(parts);
    let cc = catch_count(parts);
    assert(str_len(v.sep) == sb);
    assert(v.strs_len == str_bytes(parts));
    let spare: int = if len > v.pads.len() + 1 {
        len - (v.pads.len() + 1)
    } else {
        0
    };
    assert(spec_buf_len(v, chunk) == w * len + str_bytes(parts) + spare * sb);
    assert(spare * sb >= 0) by (nonlinear_arith)
        requires
            spare >= 0,
    ;
    if cc == 0 {
        assert(c * cc == 0) by (nonlinear_arith)
            requires
                cc == 0,
        ;
        assert(w * ic <= w * len) by (nonlinear_arith)
            requires
                ic <= len,
        ;
    } else {
        assert(cc == 1);
        assert(c * cc == c) by (nonlinear_arith)
            requires
                cc == 1,
        ;
        if k == 0 {
            assert(ic == len);
        } else {
            assert(spare == k - 1);
            assert(w * ic + k * w == w * len) by (nonlinear_arith)
                requires
                    ic + k == len,
            ;
        }
    }
}

} // verus!
