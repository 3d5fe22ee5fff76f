//! Verified parsers for the numbers and clock readings the quote source
//! prints.

use vstd::prelude::*;

verus! {

pub open spec fn is_digit(c: char) -> bool {
    c == '0' || c == '1' || c == '2' || c == '3' || c == '4' || c == '5' || c == '6' || c == '7'
        || c == '8' || c == '9'
}

pub open spec fn digit_val(c: char) -> int {
    if c == '0' {
        0
    } else if c == '1' {
        1
    } else if c == '2' {
        2
    } else if c == '3' {
        3
    } else if c == '4' {
        4
    } else if c == '5' {
        5
    } else if c == '6' {
        6
    } else if c == '7' {
        7
    } else if c == '8' {
        8
    } else {
        9
    }
}

pub open spec fn all_digits(s: Seq<char>) -> bool {
    forall|i: int| 0 <= i < s.len() ==> is_digit(#[trigger] s[i])
}

/// Value of a non-empty digit string, most significant first.
pub open spec fn digits_val(s: Seq<char>) -> int
    decreases s.len(),
{
    if s.len() == 0 {
        0
    } else {
        digits_val(s.drop_last()) * 10 + digit_val(s.last())
    }
}

/// The integer a decimal string denotes: an optional leading minus sign,
/// then one or more digits. Anything else denotes nothing.
pub open spec fn spec_parse_int(s: Seq<char>) -> Option<int> {
    if s.len() >= 2 && s[0] == '-' && all_digits(s.skip(1)) {
        Some(-digits_val(s.skip(1)))
    } else if s.len() >= 1 && all_digits(s) {
        Some(digits_val(s))
    } else {
        None
    }
}

pub proof fn lemma_digits_val_nonneg(s: Seq<char>)
    requires
        all_digits(s),
    ensures
        digits_val(s) >= 0,
    decreases s.len(),
{
    if s.len() > 0 {
        assert(all_digits(s.drop_last())) by {
            assert(forall|i: int| 0 <= i < s.len() - 1 ==> s.drop_last()[i] == s[i]);
        }
        lemma_digits_val_nonneg(s.drop_last());
        assert(is_digit(s.last()));
    }
}

proof fn lemma_digits_val_take_step(s: Seq<char>, i: int)
    requires
        0 <= i < s.len(),
    ensures
        digits_val(s.take(i + 1)) == digits_val(s.take(i)) * 10 + digit_val(s[i]),
{
    assert(s.take(i + 1).drop_last() =~= s.take(i));
    assert(s.take(i + 1).last() == s[i]);
}

/// Collect the characters of a string into a vector.
pub fn chars_of(s: &str) -> (v: Vec<char>)
    ensures
        v@ == s@,
{
    let mut v: Vec<char> = Vec::new();
    for c in it: s.chars()
        invariant
            it.seq() == s@,
            v@ == it.seq().take(it.index() as int),
    {
        v.push(c);
    }
    proof {
        assert(v@ =~= s@);
    }
    v
}

fn digit_of(c: char) -> (r: Option<u8>)
    ensures
        match r {
            Some(d) => is_digit(c) && d as int == digit_val(c),
            None => !is_digit(c),
        },
{
    match c {
        '0' => Some(0),
        '1' => Some(1),
        '2' => Some(2),
        '3' => Some(3),
        '4' => Some(4),
        '5' => Some(5),
        '6' => Some(6),
        '7' => Some(7),
        '8' => Some(8),
        '9' => Some(9),
        _ => None,
    }
}

/// Magnitude of a digit run, aborting once the value can no longer fit an
/// `i64` of either sign. Returns the exact value of `digits[from..]` when it
/// is at most `2^63`, and `None` when it exceeds that.
fn digits_to_magnitude(digits: &Vec<char>, from: usize) -> (r: Option<i128>)
    requires
        from <= digits@.len(),
        all_digits(digits@.skip(from as int)),
    ensures
        match r {
            Some(v) => v as int == digits_val(digits@.skip(from as int)) && 0 <= v
                <= 0x8000_0000_0000_0000i128,
            None => digits_val(digits@.skip(from as int)) > 0x8000_0000_0000_0000i128,
        },
{
    let ghost whole = digits@.skip(from as int);
    let n = digits.len();
    let mut acc: i128 = 0;
    let mut i: usize = from;
    while i < n
        invariant
            from <= i <= n,
            n == digits@.len(),
            whole == digits@.skip(from as int),
            all_digits(whole),
            acc as int == digits_val(whole.take(i - from)),
            0 <= acc <= 0x8000_0000_0000_0000i128,
        decreases n - i,
    {
        let c = digits[i];
        proof {
            assert(whole[i - from] == digits@[i as int]);
            assert(is_digit(c));
            lemma_digits_val_take_step(whole, i - from);
        }
        let d = match digit_of(c) {
            Some(d) => d,
            None => {
                proof {
                    assert(false);
                }
                0
            },
        };
        acc = acc * 10 + d as i128;
        i += 1;
        if acc > 0x8000_0000_0000_0000i128 {
            proof {
                lemma_digits_rest_monotone(whole, i - from);
            }
            return None;
        }
    }
    proof {
        assert(whole.take(n - from) =~= whole);
    }
    Some(acc)
}

/// Extending a digit run never shrinks its value.
proof fn lemma_digits_rest_monotone(s: Seq<char>, i: int)
    requires
        all_digits(s),
        0 <= i <= s.len(),
    ensures
        digits_val(s) >= digits_val(s.take(i)),
    decreases s.len() - i,
{
    if i < s.len() {
        lemma_digits_rest_monotone(s, i + 1);
        lemma_digits_val_take_step(s, i);
        assert(all_digits(s.take(i))) by {
            assert(forall|j: int| 0 <= j < i ==> s.take(i)[j] == s[j]);
        }
        lemma_digits_val_nonneg(s.take(i));
    } else {
        assert(s.take(i) =~= s);
    }
}

/// Parse a (possibly signed) decimal integer from characters.
pub fn parse_int_chars(v: &Vec<char>) -> (r: Option<i64>)
    ensures
        match spec_parse_int(v@) {
            Some(x) => if i64::MIN <= x <= i64::MAX {
                r matches Some(y) && y as int == x
            } else {
                r is None
            },
            None => r is None,
        },
{
    let n = v.len();
    if n == 0 {
        return None;
    }
    let neg = v[0] == '-';
    let from: usize = if neg {
        1
    } else {
        0
    };
    if n == from {
        return None;
    }
    proof {
        if !neg {
            assert(v@.skip(0) =~= v@);
        }
    }
    // every remaining character must be a digit
    let mut i: usize = from;
    while i < n
        invariant
            from <= i <= n,
            1 <= n == v@.len(),
            neg == (v@[0] == '-'),
            from == if neg {
                1int
            } else {
                0int
            },
            forall|j: int| from <= j < i ==> is_digit(#[trigger] v@[j]),
        decreases n - i,
    {
        if digit_of(v[i]).is_none() {
            proof {
                if neg {
                    assert(!all_digits(v@.skip(1))) by {
                        assert(v@.skip(1)[i - 1] == v@[i as int]);
                    }
                } else {
                    assert(!all_digits(v@));
                    if v@[0] == '-' {
                        assert(!is_digit('-'));
                    }
                }
            }
            return None;
        }
        i += 1;
    }
    proof {
        assert(all_digits(v@.skip(from as int))) by {
            assert(forall|j: int| 0 <= j < v@.skip(from as int).len() ==> v@.skip(
                from as int,
            )[j] == v@[j + from]);
        }
    }
    let mag = match digits_to_magnitude(v, from) {
        Some(m) => m,
        None => {
            proof {
                lemma_digits_val_nonneg(v@.skip(from as int));
                if !neg && v@[0] == '-' {
                    assert(!is_digit('-'));
                }
            }
            return None;
        },
    };
    proof {
        if !neg && v@[0] == '-' {
            assert(!is_digit('-'));
        }
    }
    if neg {
        if mag == 0x8000_0000_0000_0000i128 {
            Some(i64::MIN)
        } else {
            Some(-(mag as i64))
        }
    } else {
        if mag <= i64::MAX as i128 {
            Some(mag as i64)
        } else {
            None
        }
    }
}

/// Parse a decimal integer from a string.
pub fn parse_int(s: &str) -> (r: Option<i64>)
    ensures
        match spec_parse_int(s@) {
            Some(x) => if i64::MIN <= x <= i64::MAX {
                r matches Some(y) && y as int == x
            } else {
                r is None
            },
            None => r is None,
        },
{
    let v = chars_of(s);
    parse_int_chars(&v)
}

/// The same string with every comma removed.
pub open spec fn spec_strip_commas(s: Seq<char>) -> Seq<char> {
    s.filter(|c: char| c != ',')
}

/// The characters of `v` with every comma removed.
fn strip_commas_chars(v: &Vec<char>) -> (w: Vec<char>)
    ensures
        w@ == spec_strip_commas(v@),
{
    let ghost keep = |c: char| c != ',';
    let n = v.len();
    let mut w: Vec<char> = Vec::new();
    proof {
        assert(v@.take(0).filter(keep) =~= Seq::<char>::empty()) by {
            reveal(Seq::filter);
            assert(v@.take(0) =~= Seq::<char>::empty());
        }
    }
    let mut i: usize = 0;
    while i < n
        invariant
            i <= n,
            n == v@.len(),
            keep == (|c: char| c != ','),
            w@ == v@.take(i as int).filter(keep),
        decreases n - i,
    {
        proof {
            crate::seqtools::lemma_filter_take_step(v@, keep, i as int);
        }
        let c = v[i];
        if c != ',' {
            w.push(c);
        }
        i += 1;
    }
    proof {
        assert(v@.take(n as int) =~= v@);
    }
    w
}

/// Parse a decimal integer whose digits may be grouped with commas,
/// as quote tables print them.
pub fn parse_comma_int(s: &str) -> (r: Option<i64>)
    ensures
        match spec_parse_int(spec_strip_commas(s@)) {
            Some(x) => if i64::MIN <= x <= i64::MAX {
                r matches Some(y) && y as int == x
            } else {
                r is None
            },
            None => r is None,
        },
{
    let v = chars_of(s);
    let w = strip_commas_chars(&v);
    parse_int_chars(&w)
}

/// Index of the first full stop, or minus one when there is none.
pub open spec fn first_dot(t: Seq<char>) -> int
    decreases t.len(),
{
    if t.len() == 0 {
        -1
    } else if t[0] == '.' {
        0
    } else if first_dot(t.drop_first()) == -1 {
        -1
    } else {
        first_dot(t.drop_first()) + 1
    }
}

proof fn lemma_first_dot_is(t: Seq<char>, p: int)
    requires
        0 <= p < t.len(),
        t[p] == '.',
        forall|j: int| 0 <= j < p ==> t[j] != '.',
    ensures
        first_dot(t) == p,
    decreases p,
{
    if p > 0 {
        lemma_first_dot_is(t.drop_first(), p - 1);
    }
}

proof fn lemma_first_dot_none(t: Seq<char>)
    requires
        forall|j: int| 0 <= j < t.len() ==> t[j] != '.',
    ensures
        first_dot(t) == -1,
    decreases t.len(),
{
    if t.len() > 0 {
        lemma_first_dot_none(t.drop_first());
    }
}

/// The value, in hundredths, that a comma-grouped decimal with at most
/// two fractional digits denotes: a point value such as `2,343.31`
/// becomes `234331`, and a whole number is scaled by one hundred.
pub open spec fn spec_parse_centi(s: Seq<char>) -> Option<int> {
    let t = spec_strip_commas(s);
    let p = first_dot(t);
    if p == -1 {
        match spec_parse_int(t) {
            Some(v) => Some(100 * v),
            None => None,
        }
    } else {
        let fp = t.skip(p + 1);
        if 1 <= fp.len() <= 2 && all_digits(fp) {
            match spec_parse_int(t.take(p) + fp) {
                Some(v) => Some(
                    v * if fp.len() == 1 {
                        10int
                    } else {
                        1int
                    },
                ),
                None => None,
            }
        } else {
            None
        }
    }
}

/// First position of a full stop, or the length when there is none.
fn find_dot(t: &Vec<char>) -> (r: usize)
    ensures
        r <= t@.len(),
        r < t@.len() ==> t@[r as int] == '.',
        forall|j: int| 0 <= j < r ==> t@[j] != '.',
{
    let n = t.len();
    let mut i: usize = 0;
    while i < n
        invariant
            i <= n,
            n == t@.len(),
            forall|j: int| 0 <= j < i ==> t@[j] != '.',
        decreases n - i,
    {
        if t[i] == '.' {
            return i;
        }
        i += 1;
    }
    i
}

/// Parse a comma-grouped decimal into hundredths.
pub fn parse_comma_centi(s: &str) -> (r: Option<i64>)
    ensures
        match spec_parse_centi(s@) {
            Some(x) => if i64::MIN <= x <= i64::MAX {
                r matches Some(y) && y as int == x
            } else {
                r is None
            },
            None => r is None,
        },
{
    let v = chars_of(s);
    let t = strip_commas_chars(&v);
    let n = t.len();
    let p = find_dot(&t);
    if p == n {
        proof {
            lemma_first_dot_none(t@);
        }
        match parse_int_chars(&t) {
            Some(y) => {
                if -92233720368547758i64 <= y && y <= 92233720368547758i64 {
                    Some(y * 100)
                } else {
                    None
                }
            },
            None => None,
        }
    } else {
        proof {
            lemma_first_dot_is(t@, p as int);
        }
        let flen = n - p - 1;
        if flen < 1 || flen > 2 {
            return None;
        }
        // the characters after the stop must all be digits
        let mut j: usize = p + 1;
        while j < n
            invariant
                p + 1 <= j <= n,
                n == t@.len(),
                t@ == spec_strip_commas(s@),
                first_dot(t@) == p as int,
                1 <= n - p - 1 <= 2,
                forall|m: int| p + 1 <= m < j ==> is_digit(#[trigger] t@[m]),
            decreases n - j,
        {
            if digit_of(t[j]).is_none() {
                proof {
                    assert(!all_digits(t@.skip(p + 1))) by {
                        assert(t@.skip(p + 1)[j - p - 1] == t@[j as int]);
                    }
                }
                return None;
            }
            j += 1;
        }
        proof {
            assert(all_digits(t@.skip(p + 1))) by {
                assert(forall|m: int| 0 <= m < t@.skip(p + 1).len() ==> #[trigger] t@.skip(
                    p + 1,
                )[m] == t@[m + p + 1]);
            }
        }
        // drop the stop and parse the remainder as one integer
        let mut w: Vec<char> = Vec::new();
        let mut k: usize = 0;
        while k < n
            invariant
                k <= n,
                n == t@.len(),
                p < n,
                k <= p ==> w@ == t@.take(k as int),
                k > p ==> w@ == t@.take(p as int) + t@.subrange(p + 1, k as int),
            decreases n - k,
        {
            if k != p {
                w.push(t[k]);
            }
            proof {
                if k < p {
                    assert(t@.take(k + 1) =~= t@.take(k as int).push(t@[k as int]));
                } else if k == p {
                    assert(t@.take(p as int) + t@.subrange(p + 1, p + 1) =~= t@.take(p as int));
                } else {
                    assert(t@.take(p as int) + t@.subrange(p + 1, k + 1) =~= (t@.take(p as int)
                        + t@.subrange(p + 1, k as int)).push(t@[k as int]));
                }
            }
            k += 1;
        }
        proof {
            assert(t@.subrange(p + 1, n as int) =~= t@.skip(p + 1));
        }
        match parse_int_chars(&w) {
            Some(y) => {
                if flen == 2 {
                    Some(y)
                } else {
                    if -922337203685477580i64 <= y && y <= 922337203685477580i64 {
                        Some(y * 10)
                    } else {
                        None
                    }
                }
            },
            None => None,
        }
    }
}

/// A clock reading `HH:MM`, as minutes since midnight: exactly two digits,
/// a colon, and two digits, with the hour below 24 and the minute below 60.
pub open spec fn spec_parse_hhmm(s: Seq<char>) -> Option<int> {
    if s.len() == 5 && is_digit(s[0]) && is_digit(s[1]) && s[2] == ':' && is_digit(s[3])
        && is_digit(s[4]) && digit_val(s[0]) * 10 + digit_val(s[1]) < 24 && digit_val(s[3]) * 10
        + digit_val(s[4]) < 60 {
        Some((digit_val(s[0]) * 10 + digit_val(s[1])) * 60 + digit_val(s[3]) * 10 + digit_val(
            s[4],
        ))
    } else {
        None
    }
}

/// Parse a `HH:MM` clock reading into minutes since midnight.
pub fn parse_hhmm(s: &str) -> (r: Option<i64>)
    ensures
        match spec_parse_hhmm(s@) {
            Some(m) => r matches Some(x) && x as int == m && 0 <= x < 1440,
            None => r is None,
        },
{
    let v = chars_of(s);
    if v.len() != 5 {
        return None;
    }
    let h1 = digit_of(v[0]);
    let h2 = digit_of(v[1]);
    let m1 = digit_of(v[3]);
    let m2 = digit_of(v[4]);
    if v[2] != ':' {
        return None;
    }
    match (h1, h2, m1, m2) {
        (Some(a), Some(b), Some(c), Some(d)) => {
            let hour = a as i64 * 10 + b as i64;
            let minute = c as i64 * 10 + d as i64;
            if hour < 24 && minute < 60 {
                Some(hour * 60 + minute)
            } else {
                None
            }
        },
        _ => None,
    }
}

} // verus!
