//! Fixed-point value formatting and the small rendering helpers the
//! notification bodies share.

use vstd::prelude::*;
use vstd::string::StringExecFns;

verus! {

/// Relies on std's `String::push`: appends the given character to the
/// end of the string.
pub assume_specification[ String::push ](s: &mut String, c: char)
    ensures
        final(s)@ == old(s)@.push(c),
;

pub open spec fn spec_digit_char(d: int) -> char {
    if d == 0 {
        '0'
    } else if d == 1 {
        '1'
    } else if d == 2 {
        '2'
    } else if d == 3 {
        '3'
    } else if d == 4 {
        '4'
    } else if d == 5 {
        '5'
    } else if d == 6 {
        '6'
    } else if d == 7 {
        '7'
    } else if d == 8 {
        '8'
    } else {
        '9'
    }
}

/// Decimal digits of a non-negative number, most significant first,
/// without leading zeroes (zero itself is the single digit `0`).
pub open spec fn spec_digits(n: int) -> Seq<char>
    decreases n,
{
    if n < 10 {
        seq![spec_digit_char(n)]
    } else {
        spec_digits(n / 10).push(spec_digit_char(n % 10))
    }
}

/// Digit groups of three separated by commas, counted from the right.
pub open spec fn spec_grouped(s: Seq<char>) -> Seq<char>
    decreases s.len(),
{
    if s.len() <= 3 {
        s
    } else {
        spec_grouped(s.take(s.len() - 3)) + seq![','] + s.skip(s.len() - 3)
    }
}

pub open spec fn spec_pow10(k: nat) -> int
    decreases k,
{
    if k == 0 {
        1
    } else {
        10 * spec_pow10((k - 1) as nat)
    }
}

/// `s` left-padded with zeroes to width `w`.
pub open spec fn spec_zero_pad(s: Seq<char>, w: int) -> Seq<char> {
    if s.len() >= w {
        s
    } else {
        Seq::new((w - s.len()) as nat, |i: int| '0') + s
    }
}

/// A fixed-point number rendered as text: an optional minus sign, the
/// integer part, and, when `radix` is positive, a point followed by
/// exactly `radix` fractional digits. A non-negative integer part is
/// grouped with commas every three digits; a leading minus sign
/// suppresses the grouping, so a negative value carries no commas.
pub open spec fn spec_format_value(val: int, radix: int) -> Seq<char> {
    let a = if val < 0 {
        -val
    } else {
        val
    };
    let d = spec_pow10(radix as nat);
    let int_part: Seq<char> = if val < 0 {
        spec_digits(a / d)
    } else {
        spec_grouped(spec_digits(a / d))
    };
    let sign: Seq<char> = if val < 0 {
        seq!['-']
    } else {
        Seq::empty()
    };
    if radix > 0 {
        sign + int_part + seq!['.'] + spec_zero_pad(spec_digits(a % d), radix)
    } else {
        sign + int_part
    }
}

proof fn lemma_pow10_pos(k: nat)
    ensures
        spec_pow10(k) >= 1,
    decreases k,
{
    if k > 0 {
        lemma_pow10_pos((k - 1) as nat);
    }
}

/// A number below `10^k` has at most `k` digits.
proof fn lemma_digits_len(n: int, k: nat)
    requires
        0 <= n,
        1 <= k,
        n < spec_pow10(k),
    ensures
        1 <= spec_digits(n).len() <= k,
    decreases n,
{
    if n < 10 {
    } else {
        assert(spec_pow10(k) == 10 * spec_pow10((k - 1) as nat));
        lemma_pow10_pos((k - 1) as nat);
        if k == 1 {
            assert(n < 10);
        } else {
            lemma_digits_len(n / 10, (k - 1) as nat);
        }
    }
}

fn digit_char_of(d: i64) -> (r: char)
    requires
        0 <= d < 10,
    ensures
        r == spec_digit_char(d as int),
{
    if d == 0 {
        '0'
    } else if d == 1 {
        '1'
    } else if d == 2 {
        '2'
    } else if d == 3 {
        '3'
    } else if d == 4 {
        '4'
    } else if d == 5 {
        '5'
    } else if d == 6 {
        '6'
    } else if d == 7 {
        '7'
    } else if d == 8 {
        '8'
    } else {
        '9'
    }
}

/// The decimal digits of `n`, most significant first.
fn digits_of(n: i64) -> (r: Vec<char>)
    requires
        n >= 0,
    ensures
        r@ == spec_digits(n as int),
{
    let mut rev: Vec<char> = Vec::new();
    let mut m = n;
    if m == 0 {
        rev.push('0');
        proof {
            assert(rev@.reverse() =~= spec_digits(0));
        }
    } else {
        while m > 0
            invariant
                0 <= m,
                m > 0 ==> spec_digits(n as int) == spec_digits(m as int) + rev@.reverse(),
                m == 0 ==> spec_digits(n as int) == rev@.reverse(),
            decreases m,
        {
            let d = m % 10;
            let c = digit_char_of(d);
            proof {
                assert(rev@.push(c).reverse() =~= seq![c] + rev@.reverse());
                if m >= 10 {
                    assert(spec_digits(m as int) == spec_digits(m as int / 10).push(
                        spec_digit_char(m as int % 10),
                    ));
                    assert(spec_digits(m as int) + rev@.reverse() =~= spec_digits(
                        m as int / 10,
                    ) + rev@.push(c).reverse());
                } else {
                    assert(spec_digits(m as int) =~= seq![c]);
                    assert(spec_digits(m as int) + rev@.reverse() =~= rev@.push(c).reverse());
                }
            }
            rev.push(c);
            m = m / 10;
        }
    }
    // reverse into most-significant-first order
    let mut r: Vec<char> = Vec::new();
    let mut i = rev.len();
    while i > 0
        invariant
            i <= rev@.len(),
            r@ =~= rev@.reverse().take(rev@.len() - i),
        decreases i,
    {
        i -= 1;
        r.push(rev[i]);
        proof {
            assert(r@ =~= rev@.reverse().take(rev@.len() - i));
        }
    }
    proof {
        assert(rev@.reverse().take(rev@.len() as int) =~= rev@.reverse());
    }
    r
}

/// Commas inserted into the leading `upto` characters of a digit string,
/// in groups of three from the right.
fn grouped_upto(v: &Vec<char>, upto: usize) -> (r: Vec<char>)
    requires
        upto <= v@.len(),
    ensures
        r@ == spec_grouped(v@.take(upto as int)),
    decreases upto,
{
    if upto <= 3 {
        let mut r: Vec<char> = Vec::new();
        let mut i: usize = 0;
        while i < upto
            invariant
                i <= upto <= v@.len(),
                r@ =~= v@.take(upto as int).take(i as int),
            decreases upto - i,
        {
            r.push(v[i]);
            i += 1;
        }
        proof {
            assert(v@.take(upto as int).take(upto as int) =~= v@.take(upto as int));
        }
        r
    } else {
        let mut r = grouped_upto(v, upto - 3);
        r.push(',');
        r.push(v[upto - 3]);
        r.push(v[upto - 2]);
        r.push(v[upto - 1]);
        proof {
            let s = v@.take(upto as int);
            assert(s.take(s.len() - 3) =~= v@.take(upto - 3));
            assert(r@ =~= spec_grouped(s.take(s.len() - 3)) + seq![','] + s.skip(s.len() - 3));
        }
        r
    }
}

/// The characters of `v` as a `String`.
pub(crate) fn string_of_chars(v: &Vec<char>) -> (r: String)
    ensures
        r@ == v@,
{
    let mut r = String::new();
    let n = v.len();
    let mut i: usize = 0;
    while i < n
        invariant
            i <= n,
            n == v@.len(),
            r@ =~= v@.take(i as int),
        decreases n - i,
    {
        r.push(v[i]);
        proof {
            assert(v@.take(i + 1) =~= v@.take(i as int).push(v@[i as int]));
        }
        i += 1;
    }
    proof {
        assert(v@.take(n as int) =~= v@);
    }
    r
}

/// Render a fixed-point number: `radix` gives how many of `val`'s low
/// decimal digits form the fractional part. A non-negative integer part
/// is grouped with commas; a negative value carries no commas.
pub fn format_value(val: i64, radix: i64) -> (r: String)
    requires
        val > i64::MIN,
        0 <= radix <= 18,
    ensures
        r@ == spec_format_value(val as int, radix as int),
{
    let a: i64 = if val < 0 {
        -val
    } else {
        val
    };
    // denominator = 10^radix
    let mut denom: i64 = 1;
    let mut k: i64 = 0;
    proof {
        lemma_pow10_bound();
    }
    while k < radix
        invariant
            0 <= k <= radix <= 18,
            denom == spec_pow10(k as nat),
            1 <= denom <= 0x0de0_b6b3_a764_0000i64,
        decreases radix - k,
    {
        proof {
            lemma_pow10_bound();
            lemma_pow10_mono((k + 1) as nat, 18nat);
            assert(spec_pow10((k + 1) as nat) == 10 * spec_pow10(k as nat));
        }
        denom = denom * 10;
        k += 1;
    }
    let int_part = a / denom;
    let frac = a % denom;
    let digs = digits_of(int_part);
    let len = digs.len();
    let mut out = if val < 0 {
        digs
    } else {
        let grouped = grouped_upto(&digs, len);
        proof {
            assert(digs@.take(digs@.len() as int) =~= digs@);
        }
        grouped
    };
    if radix > 0 {
        out.push('.');
        let fd = digits_of(frac);
        proof {
            lemma_pow10_pos(radix as nat);
            lemma_digits_len(frac as int, radix as nat);
        }
        let pad = radix as usize - fd.len();
        let mut j: usize = 0;
        let mut padded: Vec<char> = Vec::new();
        while j < pad
            invariant
                j <= pad,
                padded@ =~= Seq::new(j as nat, |i: int| '0'),
            decreases pad - j,
        {
            padded.push('0');
            proof {
                assert(padded@ =~= Seq::new((j + 1) as nat, |i: int| '0'));
            }
            j += 1;
        }
        let mut fdm = fd;
        padded.append(&mut fdm);
        proof {
            assert(padded@ =~= spec_zero_pad(spec_digits(frac as int), radix as int));
        }
        let mut pm = padded;
        out.append(&mut pm);
    }
    let body = string_of_chars(&out);
    let mut r = String::new();
    if val < 0 {
        r.push('-');
    }
    r.append(body.as_str());
    proof {
        if val < 0 {
            assert(r@ =~= seq!['-'] + body@);
        } else {
            assert(r@ =~= body@);
        }
        assert(r@ =~= spec_format_value(val as int, radix as int));
    }
    r
}

proof fn lemma_pow10_mono(a: nat, b: nat)
    requires
        a <= b,
    ensures
        spec_pow10(a) <= spec_pow10(b),
    decreases b,
{
    if a < b {
        lemma_pow10_mono(a, (b - 1) as nat);
        lemma_pow10_pos((b - 1) as nat);
    }
}

proof fn lemma_pow10_bound()
    ensures
        spec_pow10(18) == 0x0de0_b6b3_a764_0000,
{
    reveal_with_fuel(spec_pow10, 20);
}

pub open spec fn spec_change_char(v: int) -> char {
    if v > 0 {
        '▲'
    } else if v < 0 {
        '▼'
    } else {
        '='
    }
}

/// Arrow marking the direction of a price move.
pub fn get_change_value_char(val: i64) -> (r: char)
    ensures
        r == spec_change_char(val as int),
{
    if val > 0 {
        '▲'
    } else if val < 0 {
        '▼'
    } else {
        '='
    }
}

/// Colour classification of a signed move, for notification rendering.
#[derive(Debug, Clone, Copy, PartialEq, Eq, Structural)]
pub enum ColorClass {
    Positive,
    Negative,
    Neutral,
}

pub open spec fn spec_change_color(v: int) -> ColorClass {
    if v > 0 {
        ColorClass::Positive
    } else if v < 0 {
        ColorClass::Negative
    } else {
        ColorClass::Neutral
    }
}

/// Which colour family a signed move belongs to; the palette itself is
/// the renderer's business.
pub fn get_change_value_color(val: i64) -> (r: ColorClass)
    ensures
        r == spec_change_color(val as int),
{
    if val > 0 {
        ColorClass::Positive
    } else if val < 0 {
        ColorClass::Negative
    } else {
        ColorClass::Neutral
    }
}

/// A change rate in hundredths of a percent, rendered with an explicit
/// sign and two fractional digits.
pub open spec fn spec_signed_rate(centi: int) -> Seq<char> {
    let a = if centi < 0 {
        -centi
    } else {
        centi
    };
    let sign: Seq<char> = if centi < 0 {
        seq!['-']
    } else {
        seq!['+']
    };
    sign + spec_digits(a / 100) + seq!['.'] + spec_zero_pad(spec_digits(a % 100), 2)
}

/// Render a change rate held in hundredths of a percent, as `+0.62` or
/// `-1.50`.
pub fn format_signed_rate(centi: i64) -> (r: String)
    requires
        centi > i64::MIN,
    ensures
        r@ == spec_signed_rate(centi as int),
{
    let a: i64 = if centi < 0 {
        -centi
    } else {
        centi
    };
    let mut out: Vec<char> = Vec::new();
    if centi < 0 {
        out.push('-');
    } else {
        out.push('+');
    }
    let mut digs = digits_of(a / 100);
    out.append(&mut digs);
    out.push('.');
    let fd = digits_of(a % 100);
    proof {
        assert(spec_pow10(2) == 100) by {
            reveal_with_fuel(spec_pow10, 3);
        }
        lemma_digits_len(a as int % 100, 2nat);
    }
    if fd.len() < 2 {
        out.push('0');
    }
    let mut fdm = fd;
    out.append(&mut fdm);
    proof {
        let sign: Seq<char> = if centi < 0 {
            seq!['-']
        } else {
            seq!['+']
        };
        if spec_digits(a as int % 100).len() == 1 {
            assert(spec_zero_pad(spec_digits(a as int % 100), 2) =~= seq!['0'] + spec_digits(
                a as int % 100,
            ));
        }
        assert(out@ =~= spec_signed_rate(centi as int));
    }
    string_of_chars(&out)
}

/// One instrument's summary line: name, price, direction arrow with the
/// absolute move, and the signed change rate, separated by wide spaces.
pub open spec fn spec_share_line(
    name: Seq<char>,
    value: int,
    radix: int,
    change_value: int,
    rate_centi: int,
) -> Seq<char> {
    let a = if change_value < 0 {
        -change_value
    } else {
        change_value
    };
    name + "　"@ + spec_format_value(value, radix) + "　"@ + seq![
        spec_change_char(change_value),
    ] + spec_format_value(a, radix) + "　"@ + spec_signed_rate(rate_centi) + "%"@
}

/// Render one instrument's summary line for a notification body.
pub fn format_share_line(
    name: &str,
    value: i64,
    radix: i64,
    change_value: i64,
    rate_centi: i64,
) -> (r: String)
    requires
        value > i64::MIN,
        change_value > i64::MIN,
        rate_centi > i64::MIN,
        0 <= radix <= 18,
    ensures
        r@ == spec_share_line(
            name@,
            value as int,
            radix as int,
            change_value as int,
            rate_centi as int,
        ),
{
    let a: i64 = if change_value < 0 {
        -change_value
    } else {
        change_value
    };
    let mut r = String::new();
    r.append(name);
    r.append("　");
    r.append(format_value(value, radix).as_str());
    r.append("　");
    r.push(get_change_value_char(change_value));
    r.append(format_value(a, radix).as_str());
    r.append("　");
    r.append(format_signed_rate(rate_centi).as_str());
    r.append("%");
    r
}

/// Formatted threshold values joined by a separator, each followed by a
/// suffix (a currency marker).
pub open spec fn spec_joined_values(vals: Seq<i64>, sep: Seq<char>, suffix: Seq<char>) -> Seq<
    char,
>
    decreases vals.len(),
{
    if vals.len() == 0 {
        Seq::empty()
    } else if vals.len() == 1 {
        spec_format_value(vals[0] as int, 0) + suffix
    } else {
        spec_joined_values(vals.drop_last(), sep, suffix) + sep + spec_format_value(
            vals.last() as int,
            0,
        ) + suffix
    }
}

/// Render a list of whole-unit values, as alarm summaries print them.
pub fn format_value_list(vals: &Vec<i64>, sep: &str, suffix: &str) -> (r: String)
    requires
        forall|i: int| 0 <= i < vals@.len() ==> #[trigger] vals@[i] > i64::MIN,
    ensures
        r@ == spec_joined_values(vals@, sep@, suffix@),
{
    let mut r = String::new();
    let n = vals.len();
    let mut i: usize = 0;
    while i < n
        invariant
            i <= n,
            n == vals@.len(),
            forall|j: int| 0 <= j < n ==> #[trigger] vals@[j] > i64::MIN,
            r@ == spec_joined_values(vals@.take(i as int), sep@, suffix@),
        decreases n - i,
    {
        proof {
            assert(vals@.take(i + 1).drop_last() =~= vals@.take(i as int));
            assert(vals@.take(i + 1).last() == vals@[i as int]);
        }
        if i > 0 {
            r.append(sep);
        }
        r.append(format_value(vals[i], 0).as_str());
        r.append(suffix);
        proof {
            if i == 0 {
                assert(vals@.take(1).len() == 1);
            }
        }
        i += 1;
    }
    proof {
        assert(vals@.take(n as int) =~= vals@);
    }
    r
}

} // verus!
