//! Reading identifiers and coordinates from attribute text.
use vstd::prelude::*;
use vstd::string::*;

verus! {

/// Largest accepted whole-degree part of a coordinate.
pub const MAX_DEGREES: u64 = 1000000000;

/// Units of a coordinate per degree.
pub const UNITS_PER_DEGREE: i64 = 10000000;

pub open spec fn is_digit(c: char) -> bool {
    '0' <= c && c <= '9'
}

pub open spec fn digit_value(c: char) -> nat {
    (c as int - '0' as int) as nat
}

pub open spec fn all_digits(s: Seq<char>) -> bool {
    forall|i: int| 0 <= i < s.len() ==> is_digit(#[trigger] s[i])
}

/// The number that a string of decimal digits denotes.
pub open spec fn digits_value(s: Seq<char>) -> nat
    decreases s.len(),
{
    if s.len() == 0 {
        0
    } else {
        digits_value(s.drop_last()) * 10 + digit_value(s.last())
    }
}

/// Length of a leading `+`, if any.
pub open spec fn plus_len(s: Seq<char>) -> int {
    if s.len() > 0 && s[0] == '+' {
        1
    } else {
        0
    }
}

/// Length of a leading sign, if any.
pub open spec fn sign_len(s: Seq<char>) -> int {
    if s.len() > 0 && (s[0] == '+' || s[0] == '-') {
        1
    } else {
        0
    }
}

/// An identifier: an optional `+` and one or more digits, at most `usize::MAX`.
pub open spec fn id_value(s: Seq<char>) -> Option<usize> {
    let d = s.subrange(plus_len(s), s.len() as int);
    if d.len() > 0 && all_digits(d) && digits_value(d) <= usize::MAX {
        Some(digits_value(d) as usize)
    } else {
        None
    }
}

/// End of the run of digits that starts at `from`.
pub open spec fn digits_end(s: Seq<char>, from: int) -> int
    decreases s.len() - from,
{
    if 0 <= from < s.len() && is_digit(s[from]) {
        digits_end(s, from + 1)
    } else {
        from
    }
}

/// The `j`-th of seven fraction digits, `'0'` past the end of `f`.
pub open spec fn fraction_digit(f: Seq<char>, j: int) -> char {
    if j < f.len() {
        f[j]
    } else {
        '0'
    }
}

/// The fraction `f` in units of 1e-7, digits past the seventh dropped.
pub open spec fn fraction_units(f: Seq<char>) -> nat {
    digits_value(Seq::new(7, |j: int| fraction_digit(f, j)))
}

/// A coordinate in degrees: an optional sign, digits, and optionally a `.`
/// followed by digits, with at least one digit in all; the whole-degree part
/// at most `MAX_DEGREES`. The value is in units of 1e-7 degree, digits past
/// the seventh after the point dropped.
pub open spec fn coordinate_value(s: Seq<char>) -> Option<i64> {
    let a = sign_len(s);
    let b = digits_end(s, a);
    let whole = s.subrange(a, b);
    let frac = if b < s.len() { s.subrange(b + 1, s.len() as int) } else { Seq::<char>::empty() };
    let shape_ok = (b == s.len() && b > a) || (b < s.len() && s[b] == '.' && all_digits(frac) && (b > a
        || frac.len() > 0));
    if shape_ok && digits_value(whole) <= MAX_DEGREES {
        let units = digits_value(whole) * 10000000 + fraction_units(frac);
        Some(if a == 1 && s[0] == '-' { (-units) as i64 } else { units as i64 })
    } else {
        None
    }
}

proof fn lemma_digits_end(s: Seq<char>, from: int)
    requires
        0 <= from <= s.len(),
    ensures
        from <= digits_end(s, from) <= s.len(),
        all_digits(s.subrange(from, digits_end(s, from))),
        digits_end(s, from) < s.len() ==> !is_digit(s[digits_end(s, from)]),
    decreases s.len() - from,
{
    if from < s.len() && is_digit(s[from]) {
        lemma_digits_end(s, from + 1);
        let e = digits_end(s, from);
        assert forall|i: int| 0 <= i < e - from implies is_digit(#[trigger] s.subrange(from, e)[i]) by {
            if i > 0 {
                assert(s.subrange(from, e)[i] == s.subrange(from + 1, e)[i - 1]);
            }
        }
    }
}

/// The characters of `s`.
pub fn chars_of(s: &str) -> (r: Vec<char>)
    ensures
        r@ == s@,
{
    let n = s.unicode_len();
    let mut r: Vec<char> = Vec::new();
    let mut i: usize = 0;
    while i < n
        invariant
            n == s@.len(),
            i <= n,
            r@ == s@.subrange(0, i as int),
        decreases n - i,
    {
        r.push(s.get_char(i));
        i = i + 1;
        assert(r@ =~= s@.subrange(0, i as int));
    }
    assert(s@.subrange(0, n as int) =~= s@);
    r
}

/// Value of the digits `c[from..to]`, or `cap` where it exceeds `cap`.
fn digits_capped(c: &Vec<char>, from: usize, to: usize, cap: u128) -> (r: u128)
    requires
        from <= to <= c@.len(),
        all_digits(c@.subrange(from as int, to as int)),
        cap <= 0x1_0000_0000_0000_0000_0000_0000,
    ensures
        r as nat == if digits_value(c@.subrange(from as int, to as int)) < cap {
            digits_value(c@.subrange(from as int, to as int))
        } else {
            cap as nat
        },
{
    let mut acc: u128 = 0;
    let mut i: usize = from;
    while i < to
        invariant
            from <= i <= to <= c@.len(),
            all_digits(c@.subrange(from as int, to as int)),
            cap <= 0x1_0000_0000_0000_0000_0000_0000,
            acc as nat == if digits_value(c@.subrange(from as int, i as int)) < cap {
                digits_value(c@.subrange(from as int, i as int))
            } else {
                cap as nat
            },
        decreases to - i,
    {
        let ghost prev = c@.subrange(from as int, i as int);
        let ghost next = c@.subrange(from as int, i + 1);
        assert(next.drop_last() =~= prev);
        assert(c@.subrange(from as int, to as int)[i - from] == c@[i as int]);
        let d = (c[i] as u32 - '0' as u32) as u128;
        assert(d as nat == digit_value(c@[i as int]));
        let v = acc * 10 + d;
        acc = if v < cap { v } else { cap };
        i = i + 1;
    }
    acc
}

/// Reads an identifier.
pub fn parse_id(s: &str) -> (r: Option<usize>)
    ensures
        r == id_value(s@),
{
    let c = chars_of(s);
    let n = c.len();
    let a: usize = if n > 0 && c[0] == '+' { 1 } else { 0 };
    assert(plus_len(s@) == a);
    if a == n {
        return None;
    }
    let mut i: usize = a;
    while i < n
        invariant
            a <= i <= n == c@.len(),
            c@ == s@,
            a == plus_len(s@),
            all_digits(c@.subrange(a as int, i as int)),
        decreases n - i,
    {
        if !(c[i] >= '0' && c[i] <= '9') {
            assert(c@.subrange(a as int, n as int)[i - a] == c@[i as int]);
            assert(!is_digit(c@.subrange(a as int, n as int)[i - a]));
            proof {
                let d = s@.subrange(plus_len(s@), s@.len() as int);
                assert(d =~= c@.subrange(a as int, n as int));
                assert(!all_digits(d));
            }
            return None;
        }
        i = i + 1;
        assert(c@.subrange(a as int, i as int) =~= c@.subrange(a as int, (i - 1) as int).push(c@[i - 1]));
    }
    let cap: u128 = usize::MAX as u128 + 1;
    let v = digits_capped(&c, a, n, cap);
    assert(s@.subrange(plus_len(s@), s@.len() as int) =~= c@.subrange(a as int, n as int));
    if v < cap {
        Some(v as usize)
    } else {
        None
    }
}

/// `10` to the power `j`.
pub open spec fn ten_pow(j: nat) -> nat
    decreases j,
{
    if j == 0 {
        1
    } else {
        10 * ten_pow((j - 1) as nat)
    }
}

proof fn lemma_ten_pow_small(j: nat)
    requires
        j <= 7,
    ensures
        ten_pow(j) <= 10000000,
        ten_pow(7) == 10000000,
{
    assert(ten_pow(0) == 1);
    assert(ten_pow(1) == 10);
    assert(ten_pow(2) == 100);
    assert(ten_pow(3) == 1000);
    assert(ten_pow(4) == 10000);
    assert(ten_pow(5) == 100000);
    assert(ten_pow(6) == 1000000);
    assert(ten_pow(7) == 10000000);
}

/// Reads a coordinate in degrees as units of 1e-7 degree.
pub fn parse_coordinate(s: &str) -> (r: Option<i64>)
    ensures
        r == coordinate_value(s@),
{
    let c = chars_of(s);
    let n = c.len();
    let a: usize = if n > 0 && (c[0] == '+' || c[0] == '-') { 1 } else { 0 };
    assert(sign_len(s@) == a);
    let mut b: usize = a;
    while b < n && c[b] >= '0' && c[b] <= '9'
        invariant
            a <= b <= n == c@.len(),
            digits_end(c@, a as int) == digits_end(c@, b as int),
        decreases n - b,
    {
        b = b + 1;
    }
    assert(digits_end(c@, b as int) == b);
    proof {
        lemma_digits_end(c@, a as int);
    }
    let fs: usize = if b < n { b + 1 } else { n };
    let ghost frac = c@.subrange(fs as int, n as int);
    assert(frac =~= (if b < s@.len() { s@.subrange(b + 1, s@.len() as int) } else { Seq::<char>::empty() }));
    if b < n && c[b] != '.' {
        return None;
    }
    assert(!all_digits(frac) ==> coordinate_value(s@) is None);
    let mut i: usize = fs;
    while i < n
        invariant
            fs <= i <= n == c@.len(),
            !all_digits(frac) ==> coordinate_value(s@) is None,
            frac == c@.subrange(fs as int, n as int),
            all_digits(c@.subrange(fs as int, i as int)),
        decreases n - i,
    {
        if !(c[i] >= '0' && c[i] <= '9') {
            assert(frac[i - fs] == c@[i as int]);
            assert(!all_digits(frac));
            return None;
        }
        i = i + 1;
        assert(c@.subrange(fs as int, i as int) =~= c@.subrange(fs as int, (i - 1) as int).push(c@[i - 1]));
    }
    assert(c@.subrange(fs as int, n as int) =~= frac);
    if b == a && fs == n {
        return None;
    }
    let cap: u128 = MAX_DEGREES as u128 + 1;
    let whole = digits_capped(&c, a, b, cap);
    if whole >= cap {
        return None;
    }
    let mut units: u128 = 0;
    let mut j: usize = 0;
    while j < 7
        invariant
            j <= 7,
            fs <= n == c@.len(),
            frac == c@.subrange(fs as int, n as int),
            units as nat == digits_value(Seq::new(j as nat, |q: int| fraction_digit(frac, q))),
            units < ten_pow(j as nat),
            all_digits(frac),
        decreases 7 - j,
    {
        proof {
            lemma_ten_pow_small(j as nat);
        }
        let ch = if j < n - fs { c[fs + j] } else { '0' };
        assert(ch == fraction_digit(frac, j as int));
        assert(is_digit(ch));
        let d = (ch as u32 - '0' as u32) as u128;
        assert(d <= 9);
        assert(ten_pow((j + 1) as nat) == 10 * ten_pow(j as nat));
        assert(Seq::new((j + 1) as nat, |q: int| fraction_digit(frac, q)).drop_last() =~= Seq::new(
            j as nat,
            |q: int| fraction_digit(frac, q),
        ));
        units = units * 10 + d;
        j = j + 1;
    }
    proof {
        lemma_ten_pow_small(7);
    }
    let value = (whole as i64) * UNITS_PER_DEGREE + units as i64;
    if a == 1 && c[0] == '-' {
        Some(-value)
    } else {
        Some(value)
    }
}

} // verus!
