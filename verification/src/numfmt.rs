//! Rendering of nanosecond quantities for the report: decimal digits,
//! left-padding, and the magnitude-scaled microsecond display.

use vstd::prelude::*;
use vstd::string::StringExecFns;
use vstd::string::StrSliceExecFns;

verus! {

/// The single decimal digit `d` as a one-character string.
pub open spec fn digit_spec(d: int) -> Seq<char> {
    if d == 0 {
        "0"@
    } else if d == 1 {
        "1"@
    } else if d == 2 {
        "2"@
    } else if d == 3 {
        "3"@
    } else if d == 4 {
        "4"@
    } else if d == 5 {
        "5"@
    } else if d == 6 {
        "6"@
    } else if d == 7 {
        "7"@
    } else if d == 8 {
        "8"@
    } else {
        "9"@
    }
}

/// The decimal notation of a non-negative integer, most significant digit first.
pub open spec fn dec_spec(n: int) -> Seq<char>
    decreases n,
{
    if n < 10 {
        digit_spec(n)
    } else {
        dec_spec(n / 10) + digit_spec(n % 10)
    }
}

fn digit_str(d: u128) -> (r: &'static str)
    requires
        d < 10,
    ensures
        r@ == digit_spec(d as int),
{
    if d == 0 {
        "0"
    } else if d == 1 {
        "1"
    } else if d == 2 {
        "2"
    } else if d == 3 {
        "3"
    } else if d == 4 {
        "4"
    } else if d == 5 {
        "5"
    } else if d == 6 {
        "6"
    } else if d == 7 {
        "7"
    } else if d == 8 {
        "8"
    } else {
        "9"
    }
}

/// Decimal notation of `n`.
pub fn dec_of(n: u128) -> (r: String)
    ensures
        r@ == dec_spec(n as int),
    decreases n,
{
    if n < 10 {
        String::from_str(digit_str(n))
    } else {
        let mut r = dec_of(n / 10);
        r.append(digit_str(n % 10));
        r
    }
}

/// `n` spaces.
pub open spec fn spaces_spec(n: int) -> Seq<char>
    decreases n,
{
    if n <= 0 {
        Seq::<char>::empty()
    } else {
        spaces_spec(n - 1) + " "@
    }
}

/// `s` left-padded with spaces to width `w`; `s` unchanged when already that wide.
pub open spec fn pad_left_spec(s: Seq<char>, w: int) -> Seq<char> {
    spaces_spec(w - s.len()) + s
}

/// Left-pad `s` with spaces to width `w`.
pub fn pad_left(s: &str, w: usize) -> (r: String)
    ensures
        r@ == pad_left_spec(s@, w as int),
{
    let l = s.unicode_len();
    if l >= w {
        let mut r = String::new();
        r.append(s);
        proof {
            assert(r@ == pad_left_spec(s@, w as int));
        }
        return r;
    }
    let mut r = String::new();
    let mut i: usize = 0;
    while i < w - l
        invariant
            r@ == spaces_spec(i as int),
            l == s@.len(),
            l < w,
            i <= w - l,
        decreases w - l - i,
    {
        r.append(" ");
        i = i + 1;
    }
    r.append(s);
    r
}

/// The magnitude truncation of the report's display rule: the value is cut to a
/// multiple of the largest power-of-ten divisor `x` with `n > 1000 * x`; below
/// 1000 the value is kept as it is.
pub open spec fn scaled_spec(n: int) -> int {
    if n > 100_000_000 {
        n / 100_000 * 100_000
    } else if n > 10_000_000 {
        n / 10_000 * 10_000
    } else if n > 1_000_000 {
        n / 1_000 * 1_000
    } else if n > 100_000 {
        n / 100 * 100
    } else if n > 10_000 {
        n / 10 * 10
    } else {
        n
    }
}

/// The fractional part `f` (in thousandths) rendered after a decimal point,
/// trailing zeros stripped; empty when `f` is zero.
pub open spec fn frac_spec(f: int) -> Seq<char> {
    if f == 0 {
        Seq::<char>::empty()
    } else if f % 100 == 0 {
        "."@ + digit_spec(f / 100)
    } else if f % 10 == 0 {
        "."@ + digit_spec(f / 100) + digit_spec(f / 10 % 10)
    } else {
        "."@ + digit_spec(f / 100) + digit_spec(f / 10 % 10) + digit_spec(f % 10)
    }
}

/// A nanosecond count displayed in microseconds: the magnitude-truncated value
/// divided by 1000, with the fractional digits that remain.
pub open spec fn ms_spec(n: int) -> Seq<char> {
    dec_spec(scaled_spec(n) / 1000) + frac_spec(scaled_spec(n) % 1000)
}

/// Display a nanosecond quantity in microseconds, truncated to a
/// human-friendly magnitude: the coarser the value, the fewer digits survive.
#[verifier::rlimit(50)]
pub fn ms(nanos: u128) -> (r: String)
    ensures
        r@ == ms_spec(nanos as int),
{
    let scaled: u128 = if nanos > 100_000_000 {
        nanos / 100_000 * 100_000
    } else if nanos > 10_000_000 {
        nanos / 10_000 * 10_000
    } else if nanos > 1_000_000 {
        nanos / 1_000 * 1_000
    } else if nanos > 100_000 {
        nanos / 100 * 100
    } else if nanos > 10_000 {
        nanos / 10 * 10
    } else {
        nanos
    };
    let mut r = dec_of(scaled / 1000);
    let f: u128 = scaled % 1000;
    if f == 0 {
    } else if f % 100 == 0 {
        r.append(".");
        r.append(digit_str(f / 100));
    } else if f % 10 == 0 {
        r.append(".");
        r.append(digit_str(f / 100));
        r.append(digit_str(f / 10 % 10));
    } else {
        r.append(".");
        r.append(digit_str(f / 100));
        r.append(digit_str(f / 10 % 10));
        r.append(digit_str(f % 10));
    }
    r
}

} // verus!
