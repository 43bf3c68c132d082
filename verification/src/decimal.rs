//! Decimal integers as text: reading indices and pad widths, and writing
//! zero-padded chunk coordinates.
use vstd::prelude::*;

verus! {

/// `c` is one of the ASCII digits `0`..`9`.
pub open spec fn is_digit(c: char) -> bool {
    '0' <= c && c <= '9'
}

/// The numeric value of an ASCII digit.
pub open spec fn digit_value(c: char) -> nat {
    (c as int - '0' as int) as nat
}

/// The ASCII digit for `d < 10`.
pub open spec fn digit_char(d: nat) -> char {
    (d + '0' as int) as char
}

/// Every character of `s` is an ASCII digit.
pub open spec fn all_digits(s: Seq<char>) -> bool {
    forall|i: int| 0 <= i < s.len() ==> #[trigger] is_digit(s[i])
}

/// The value of a string of decimal digits, most significant first.
pub open spec fn digits_value(s: Seq<char>) -> nat
    decreases s.len(),
{
    if s.len() == 0 {
        0
    } else {
        digits_value(s.drop_last()) * 10 + digit_value(s.last())
    }
}

/// The digits of an unsigned number once an optional leading `+` is removed.
pub open spec fn unsigned_digits(s: Seq<char>) -> Seq<char> {
    if s.len() > 0 && s[0] == '+' {
        s.drop_first()
    } else {
        s
    }
}

/// What reading `s` as a `usize` gives: an optional `+`, then at least one
/// decimal digit and nothing else, with a value that fits.
pub open spec fn spec_parse_usize(s: Seq<char>) -> Option<usize> {
    let d = unsigned_digits(s);
    if d.len() > 0 && all_digits(d) && digits_value(d) <= usize::MAX {
        Some(digits_value(d) as usize)
    } else {
        None
    }
}

/// What reading `s` as an `isize` gives: an optional sign, then at least one
/// decimal digit and nothing else, with a value that fits.
pub open spec fn spec_parse_isize(s: Seq<char>) -> Option<isize> {
    if s.len() > 0 && s[0] == '-' {
        let d = s.drop_first();
        if d.len() > 0 && all_digits(d) && digits_value(d) <= isize::MAX + 1 {
            Some((-digits_value(d)) as isize)
        } else {
            None
        }
    } else {
        let d = unsigned_digits(s);
        if d.len() > 0 && all_digits(d) && digits_value(d) <= isize::MAX {
            Some(digits_value(d) as isize)
        } else {
            None
        }
    }
}

/// The shortest decimal spelling of `n`.
pub open spec fn decimal(n: nat) -> Seq<char>
    decreases n,
{
    if n < 10 {
        seq![digit_char(n)]
    } else {
        decimal(n / 10).push(digit_char(n % 10))
    }
}

/// `k` zero digits.
pub open spec fn zeros(k: nat) -> Seq<char> {
    Seq::new(k, |_i: int| '0')
}

/// The decimal spelling of `n`, left-padded with zeros to at least `width`
/// characters.
pub open spec fn padded_decimal(n: nat, width: nat) -> Seq<char> {
    let d = decimal(n);
    if width > d.len() {
        zeros((width - d.len()) as nat) + d
    } else {
        d
    }
}

proof fn lemma_digit_char(d: nat)
    requires
        d < 10,
    ensures
        is_digit(digit_char(d)),
        digit_value(digit_char(d)) == d,
{
    assert((d + '0' as int) as char as int == d + '0' as int);
}

proof fn lemma_digits_value_push(s: Seq<char>, c: char)
    ensures
        digits_value(s.push(c)) == digits_value(s) * 10 + digit_value(c),
{
    assert(s.push(c).drop_last() =~= s);
}

/// The decimal spelling is made of digits, is not empty, and is worth `n`.
pub proof fn lemma_decimal_value(n: nat)
    ensures
        decimal(n).len() >= 1,
        all_digits(decimal(n)),
        digits_value(decimal(n)) == n,
        n > 0 ==> decimal(n)[0] != '0',
    decreases n,
{
    lemma_digit_char(n % 10);
    if n < 10 {
        lemma_digits_value_push(Seq::<char>::empty(), digit_char(n));
        assert(Seq::<char>::empty().push(digit_char(n)) =~= decimal(n));
    } else {
        lemma_decimal_value(n / 10);
        lemma_digits_value_push(decimal(n / 10), digit_char(n % 10));
        assert(n == (n / 10) * 10 + n % 10);
    }
}

/// Reading the decimal spelling of a `usize` gives the number back.
pub proof fn lemma_parse_usize_decimal(n: usize)
    ensures
        spec_parse_usize(decimal(n as nat)) == Some(n),
{
    lemma_decimal_value(n as nat);
    assert(is_digit(decimal(n as nat)[0]));
    assert(unsigned_digits(decimal(n as nat)) == decimal(n as nat));
}

/// Reads an unsigned number from `s[lo..hi]`, as `str::parse::<usize>` does.
pub fn parse_usize(s: &[char], lo: usize, hi: usize) -> (r: Option<usize>)
    requires
        lo <= hi <= s@.len(),
    ensures
        r == spec_parse_usize(s@.subrange(lo as int, hi as int)),
{
    let ghost t = s@.subrange(lo as int, hi as int);
    let mut start = lo;
    if lo < hi && s[lo] == '+' {
        start = lo + 1;
    }
    let ghost d = s@.subrange(start as int, hi as int);
    assert(d =~= unsigned_digits(t));
    match accumulate_digits(s, start, hi, usize::MAX) {
        Some(v) => Some(v),
        None => None,
    }
}

/// Reads a signed number from `s[lo..hi]`, as `str::parse::<isize>` does.
pub fn parse_isize(s: &[char], lo: usize, hi: usize) -> (r: Option<isize>)
    requires
        lo <= hi <= s@.len(),
    ensures
        r == spec_parse_isize(s@.subrange(lo as int, hi as int)),
{
    let ghost t = s@.subrange(lo as int, hi as int);
    if lo < hi && s[lo] == '-' {
        assert(s@.subrange(lo + 1, hi as int) =~= t.drop_first());
        let limit: usize = (isize::MAX as usize) + 1;
        match accumulate_digits(s, lo + 1, hi, limit) {
            Some(v) => {
                if v == limit {
                    Some(isize::MIN)
                } else {
                    Some(-(v as isize))
                }
            },
            None => None,
        }
    } else {
        let mut start = lo;
        if lo < hi && s[lo] == '+' {
            start = lo + 1;
        }
        assert(s@.subrange(start as int, hi as int) =~= unsigned_digits(t));
        match accumulate_digits(s, start, hi, isize::MAX as usize) {
            Some(v) => Some(v as isize),
            None => None,
        }
    }
}

/// The value of the digits `s[lo..hi]` when there is at least one, all are
/// digits and the value is at most `limit`.
fn accumulate_digits(s: &[char], lo: usize, hi: usize, limit: usize) -> (r: Option<usize>)
    requires
        lo <= hi <= s@.len(),
    ensures
        ({
            let d = s@.subrange(lo as int, hi as int);
            r == if d.len() > 0 && all_digits(d) && digits_value(d) <= limit {
                Some(digits_value(d) as usize)
            } else {
                None
            }
        }),
{
    let ghost d = s@.subrange(lo as int, hi as int);
    if lo == hi {
        return None;
    }
    let mut value: usize = 0;
    let mut i = lo;
    let mut overflow = false;
    while i < hi
        invariant
            lo <= i <= hi <= s@.len(),
            d == s@.subrange(lo as int, hi as int),
            all_digits(d.take(i - lo)),
            !overflow ==> value == digits_value(d.take(i - lo)) && value <= limit,
            overflow ==> digits_value(d.take(i - lo)) > limit,
        decreases hi - i,
    {
        let c = s[i];
        if !('0' <= c && c <= '9') {
            assert(d[i - lo] == c);
            assert(!is_digit(d[i - lo]));
            return None;
        }
        let ghost prefix = d.take(i - lo);
        assert(d.take(i - lo + 1) =~= prefix.push(c));
        proof {
            lemma_digits_value_push(prefix, c);
        }
        let dv = (c as u32 - '0' as u32) as usize;
        if !overflow {
            if dv > limit || value > (limit - dv) / 10 {
                overflow = true;
            } else {
                value = value * 10 + dv;
            }
        }
        i = i + 1;
        assert forall|j: int| 0 <= j < d.take(i - lo).len() implies #[trigger] is_digit(
            d.take(i - lo)[j],
        ) by {
            if j < i - 1 - lo {
                assert(d.take(i - lo)[j] == prefix[j]);
            }
        }
    }
    assert(d.take(hi - lo) =~= d);
    if overflow {
        None
    } else {
        Some(value)
    }
}

/// The number of characters in the decimal spelling of `n`.
pub fn decimal_len(n: u64) -> (k: usize)
    ensures
        k == decimal(n as nat).len(),
        1 <= k <= 20,
    decreases n,
{
    if n < 10 {
        1
    } else {
        let k = decimal_len(n / 10);
        proof {
            lemma_decimal_len_bound(n as nat);
        }
        k + 1
    }
}

/// Ten to the power `k`.
pub open spec fn pow10(k: nat) -> nat
    decreases k,
{
    if k == 0 {
        1
    } else {
        10 * pow10((k - 1) as nat)
    }
}

/// `decimal(n)` has at most `k` digits when `n < 10^k`.
proof fn lemma_decimal_len_log(n: nat, k: nat)
    requires
        k >= 1,
        n < pow10(k),
    ensures
        decimal(n).len() <= k,
    decreases k,
{
    if n >= 10 {
        if k == 1 {
            assert(pow10(1) == 10) by {
                reveal_with_fuel(pow10, 2);
            }
        } else {
            let p = pow10((k - 1) as nat);
            assert(n / 10 < p);
            lemma_decimal_len_log(n / 10, (k - 1) as nat);
        }
    }
}

proof fn lemma_decimal_len_bound(n: nat)
    requires
        n <= u64::MAX,
    ensures
        decimal(n).len() <= 20,
{
    assert(pow10(20) == 100000000000000000000nat) by {
        reveal_with_fuel(pow10, 21);
    }
    lemma_decimal_len_log(n, 20);
}

/// Appends the decimal spelling of `n` to `out`.
fn push_decimal(out: &mut String, n: u64)
    ensures
        final(out)@ == old(out)@ + decimal(n as nat),
    decreases n,
{
    if n >= 10 {
        push_decimal(out, n / 10);
    }
    let d = (n % 10) as u8;
    let c = (48u8 + d) as char;
    assert(c == digit_char((n % 10) as nat));
    crate::text::push_char(out, c);
}

/// Appends `n` in decimal, left-padded with zeros to at least `width`
/// characters, as `{n:0width$}` formats it.
pub fn push_padded(out: &mut String, n: u64, width: usize)
    ensures
        final(out)@ == old(out)@ + padded_decimal(n as nat, width as nat),
{
    let k = decimal_len(n);
    let ghost start = out@;
    if width > k {
        let mut j: usize = 0;
        while j < width - k
            invariant
                k < width,
                j <= width - k,
                out@ == start + zeros(j as nat),
            decreases width - k - j,
        {
            crate::text::push_char(out, '0');
            assert(zeros((j + 1) as nat) =~= zeros(j as nat).push('0'));
            j = j + 1;
        }
    }
    push_decimal(out, n);
    assert(out@ =~= start + padded_decimal(n as nat, width as nat));
}

} // verus!
