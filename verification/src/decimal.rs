//! Signed fixed-point decimal with exactly four fractional digits.
//!
//! A value is stored as a scaled 64-bit integer (the real value times
//! 10,000), so that all arithmetic is exact integer arithmetic: no
//! rounding and no floating point anywhere.

use vstd::prelude::*;
use vstd::string::StringExecFns;
use vstd::string::StringSliceAdditionalSpecFns;

verus! {

/// Number of scaled units per whole unit (four fractional digits).
pub const SCALE: i64 = 10_000;

/// A signed fixed-point decimal: the stored integer is the value
/// scaled by 10,000.
#[derive(Debug, Clone, Copy, PartialEq, Eq, Structural)]
pub struct Decimal(pub i64);

impl View for Decimal {
    type V = int;

    open spec fn view(&self) -> int {
        self.0 as int
    }
}

/// True when `v` fits the scaled 64-bit representation.
pub open spec fn dec_in_range(v: int) -> bool {
    i64::MIN <= v <= i64::MAX
}

impl Decimal {
    /// Builds the decimal `integral.fractional` from a whole part and a
    /// count of ten-thousandths; `new(1, 5000)` is 1.5.
    pub fn new(integral: i64, fractional: i64) -> (r: Self)
        requires
            dec_in_range(integral * (SCALE as int)),
            dec_in_range(integral * (SCALE as int) + fractional),
        ensures
            r@ == integral * (SCALE as int) + fractional,
    {
        Decimal(integral * SCALE + fractional)
    }

    /// Exact addition of two decimals.
    pub fn add(self, other: Self) -> (r: Self)
        requires
            dec_in_range(self@ + other@),
        ensures
            r@ == self@ + other@,
    {
        Decimal(self.0 + other.0)
    }

    /// Exact addition that reports an out-of-range sum instead of
    /// requiring the caller to rule it out.
    pub fn checked_add(self, other: Self) -> (r: Option<Self>)
        ensures
            match r {
                Some(d) => dec_in_range(self@ + other@) && d@ == self@ + other@,
                None => !dec_in_range(self@ + other@),
            },
    {
        match self.0.checked_add(other.0) {
            Some(v) => Some(Decimal(v)),
            None => None,
        }
    }
}

/// Why a piece of text fails to parse as a decimal.
#[derive(Debug, Clone, Copy, PartialEq, Eq, Structural)]
pub enum ParseError {
    /// The integral part is empty or not made of decimal digits.
    BadIntegral,
    /// More than one dot appears.
    ExtraDot,
    /// The fractional digit group is not made of decimal digits.
    BadFraction,
    /// The value does not fit the scaled 64-bit representation.
    OutOfRange,
}

/// An ASCII decimal digit.
pub open spec fn is_digit(b: u8) -> bool {
    48 <= b <= 57
}

/// ASCII whitespace ignored around a decimal.
pub open spec fn is_space(b: u8) -> bool {
    b == 32 || b == 9 || b == 10 || b == 13
}

/// Every byte of `s` is a decimal digit.
pub open spec fn all_digits(s: Seq<u8>) -> bool {
    forall|i: int| 0 <= i < s.len() ==> is_digit(#[trigger] s[i])
}

/// The number the digit bytes of `s` spell in base ten.
pub open spec fn digits_val(s: Seq<u8>) -> int
    decreases s.len(),
{
    if s.len() == 0 {
        0
    } else {
        digits_val(s.drop_last()) * 10 + (s.last() - 48)
    }
}

/// Ten to the `n`.
pub open spec fn pow10(n: nat) -> int
    decreases n,
{
    if n == 0 {
        1
    } else {
        10 * pow10((n - 1) as nat)
    }
}

/// `s` without its leading whitespace.
pub open spec fn trim_start(s: Seq<u8>) -> Seq<u8>
    decreases s.len(),
{
    if s.len() > 0 && is_space(s[0]) {
        trim_start(s.drop_first())
    } else {
        s
    }
}

/// `s` without its trailing whitespace.
pub open spec fn trim_end(s: Seq<u8>) -> Seq<u8>
    decreases s.len(),
{
    if s.len() > 0 && is_space(s.last()) {
        trim_end(s.drop_last())
    } else {
        s
    }
}

/// `s` without leading and trailing whitespace.
pub open spec fn trim(s: Seq<u8>) -> Seq<u8> {
    trim_end(trim_start(s))
}

/// Index of the first dot in `s`, or its length if there is none.
pub open spec fn find_dot(s: Seq<u8>) -> int
    decreases s.len(),
{
    if s.len() == 0 {
        0
    } else if s[0] == 46 {
        0
    } else {
        1 + find_dot(s.drop_first())
    }
}

/// The unsigned scaled value that the body `u` (sign already stripped)
/// spells: the integral digits, then optionally a dot and a fractional
/// group of which the first four digits count. Digits past the fourth
/// are truncated, a second dot anywhere is rejected, and a non-digit
/// inside the integral part or the counted fractional group is rejected.
pub open spec fn parse_magnitude(u: Seq<u8>) -> Result<int, ParseError> {
    let d = find_dot(u);
    let ipart = u.take(d);
    if ipart.len() == 0 || !all_digits(ipart) {
        Err(ParseError::BadIntegral)
    } else if d == u.len() {
        Ok(digits_val(ipart) * 10000)
    } else {
        let frac = u.skip(d + 1);
        let d2 = find_dot(frac);
        let seg = frac.take(d2);
        let g = if seg.len() >= 4 {
            seg.take(4)
        } else {
            seg
        };
        if !all_digits(g) {
            Err(ParseError::BadFraction)
        } else if d2 < frac.len() {
            Err(ParseError::ExtraDot)
        } else {
            Ok(digits_val(ipart) * 10000 + digits_val(g) * pow10((4 - g.len()) as nat))
        }
    }
}

/// What parsing the byte text `s` yields: whitespace is trimmed, one
/// optional leading minus sign is honoured, the body gives the unsigned
/// scaled value, and a value outside the 64-bit scaled range is
/// rejected.
pub open spec fn spec_parse(s: Seq<u8>) -> Result<Decimal, ParseError> {
    let t = trim(s);
    if t.len() > 0 && t[0] == 45 {
        match parse_magnitude(t.drop_first()) {
            Ok(m) => if -m >= i64::MIN {
                Ok(Decimal((-m) as i64))
            } else {
                Err(ParseError::OutOfRange)
            },
            Err(e) => Err(e),
        }
    } else {
        match parse_magnitude(t) {
            Ok(m) => if m <= i64::MAX {
                Ok(Decimal(m as i64))
            } else {
                Err(ParseError::OutOfRange)
            },
            Err(e) => Err(e),
        }
    }
}

/// Largest integral magnitude whose scaled value can still fit the
/// 64-bit range: one more and the value is out of range whatever the
/// sign or fraction.
const INT_CAP: u64 = 922_337_203_685_477;

/// Magnitude of the most negative representable scaled value.
const MIN_MAG: u64 = 9_223_372_036_854_775_808;

/// The digit value of a byte sequence never shrinks as the sequence
/// grows to the right.
proof fn lemma_digits_val_grows(s: Seq<u8>, i: int)
    requires
        all_digits(s),
        0 <= i <= s.len(),
    ensures
        digits_val(s) >= digits_val(s.take(i)),
        digits_val(s.take(i)) >= 0,
    decreases s.len() - i,
{
    if i == s.len() {
        assert(s.take(i) =~= s);
        lemma_digits_val_nonneg(s);
    } else {
        assert(s.take(i + 1).drop_last() =~= s.take(i));
        assert(s.take(i + 1).last() == s[i]);
        lemma_digits_val_nonneg(s.take(i));
        lemma_digits_val_grows(s, i + 1);
    }
}

/// The digit value of a digit sequence is never negative.
proof fn lemma_digits_val_nonneg(s: Seq<u8>)
    requires
        all_digits(s),
    ensures
        digits_val(s) >= 0,
    decreases s.len(),
{
    if s.len() > 0 {
        assert(all_digits(s.drop_last()));
        lemma_digits_val_nonneg(s.drop_last());
    }
}

/// True exactly when the byte is ASCII whitespace.
fn is_space_byte(b: u8) -> (r: bool)
    ensures
        r == is_space(b),
{
    b == 32 || b == 9 || b == 10 || b == 13
}

/// Finds the trimmed region of `b`: the bytes between the returned
/// indices are the text without leading and trailing whitespace.
fn trim_indices(b: &[u8]) -> (r: (usize, usize))
    ensures
        0 <= r.0 <= r.1 <= b@.len(),
        trim(b@) == b@.subrange(r.0 as int, r.1 as int),
{
    let n = b.len();
    let mut lo: usize = 0;
    proof {
        assert(b@.subrange(0, n as int) =~= b@);
    }
    while lo < n && is_space_byte(b[lo])
        invariant
            0 <= lo <= n,
            n == b@.len(),
            trim_start(b@) == trim_start(b@.subrange(lo as int, n as int)),
        decreases n - lo,
    {
        proof {
            let s = b@.subrange(lo as int, n as int);
            assert(s[0] == b@[lo as int]);
            assert(s.drop_first() =~= b@.subrange(lo as int + 1, n as int));
        }
        lo += 1;
    }
    proof {
        assert(trim_start(b@) == b@.subrange(lo as int, n as int));
    }
    let mut hi: usize = n;
    while hi > lo && is_space_byte(b[hi - 1])
        invariant
            lo <= hi <= n,
            n == b@.len(),
            trim_end(b@.subrange(lo as int, n as int)) == trim_end(
                b@.subrange(lo as int, hi as int),
            ),
        decreases hi,
    {
        proof {
            let s = b@.subrange(lo as int, hi as int);
            assert(s.last() == b@[hi - 1]);
            assert(s.drop_last() =~= b@.subrange(lo as int, hi as int - 1));
        }
        hi -= 1;
    }
    proof {
        assert(trim(b@) == b@.subrange(lo as int, hi as int));
    }
    (lo, hi)
}

/// Finds the first dot at or after `start`, before `hi`; returns `hi`
/// when there is none.
fn find_dot_from(b: &[u8], start: usize, hi: usize) -> (d: usize)
    requires
        start <= hi <= b@.len(),
    ensures
        start <= d <= hi,
        find_dot(b@.subrange(start as int, hi as int)) == d - start,
        d < hi ==> b@[d as int] == 46,
{
    let mut d: usize = start;
    while d < hi && b[d] != 46
        invariant
            start <= d <= hi <= b@.len(),
            find_dot(b@.subrange(start as int, hi as int)) == d - start + find_dot(
                b@.subrange(d as int, hi as int),
            ),
        decreases hi - d,
    {
        proof {
            let s = b@.subrange(d as int, hi as int);
            assert(s[0] == b@[d as int]);
            assert(s.drop_first() =~= b@.subrange(d as int + 1, hi as int));
        }
        d += 1;
    }
    proof {
        let s = b@.subrange(d as int, hi as int);
        if d < hi {
            assert(s[0] == b@[d as int]);
        }
    }
    d
}

/// Checks that every byte in `from..to` is a decimal digit.
fn check_digits(b: &[u8], from: usize, to: usize) -> (r: bool)
    requires
        from <= to <= b@.len(),
    ensures
        r == all_digits(b@.subrange(from as int, to as int)),
{
    let ghost part = b@.subrange(from as int, to as int);
    let mut i: usize = from;
    while i < to
        invariant
            from <= i <= to <= b@.len(),
            part == b@.subrange(from as int, to as int),
            forall|j: int| from <= j < i ==> is_digit(#[trigger] b@[j]),
        decreases to - i,
    {
        if b[i] < 48 || b[i] > 57 {
            proof {
                assert(part[i - from] == b@[i as int]);
            }
            return false;
        }
        i += 1;
    }
    proof {
        assert forall|j: int| 0 <= j < part.len() implies is_digit(#[trigger] part[j]) by {
            assert(part[j] == b@[from + j]);
        }
    }
    true
}

/// Accumulates the integral digits in `from..to`; reports `None` as soon
/// as the value is certainly out of range whatever the sign or fraction.
fn int_magnitude(b: &[u8], from: usize, to: usize) -> (r: Option<u64>)
    requires
        from <= to <= b@.len(),
        all_digits(b@.subrange(from as int, to as int)),
    ensures
        match r {
            Some(m) => m <= INT_CAP && m == digits_val(b@.subrange(from as int, to as int)),
            None => digits_val(b@.subrange(from as int, to as int)) > INT_CAP as int,
        },
{
    let ghost part = b@.subrange(from as int, to as int);
    let mut m: u64 = 0;
    let mut i: usize = from;
    while i < to
        invariant
            from <= i <= to <= b@.len(),
            part == b@.subrange(from as int, to as int),
            all_digits(part),
            m <= INT_CAP,
            m == digits_val(b@.subrange(from as int, i as int)),
        decreases to - i,
    {
        proof {
            assert(part[i - from] == b@[i as int]);
        }
        let digit = (b[i] - 48) as u64;
        let m2 = m * 10 + digit;
        proof {
            let pre = b@.subrange(from as int, i as int + 1);
            assert(pre.drop_last() =~= b@.subrange(from as int, i as int));
            assert(pre.last() == b@[i as int]);
            assert(pre =~= part.take(i - from + 1));
        }
        if m2 > INT_CAP {
            proof {
                lemma_digits_val_grows(part, i - from + 1);
            }
            return None;
        }
        m = m2;
        i += 1;
    }
    proof {
        assert(b@.subrange(from as int, to as int) == part);
    }
    Some(m)
}

/// Reads the up-to-four fractional digits in `from..to` as a plain
/// number.
fn frac_value(b: &[u8], from: usize, to: usize) -> (gv: u64)
    requires
        from <= to <= b@.len(),
        to - from <= 4,
        all_digits(b@.subrange(from as int, to as int)),
    ensures
        gv == digits_val(b@.subrange(from as int, to as int)),
        gv <= 9999,
{
    let ghost part = b@.subrange(from as int, to as int);
    let mut gv: u64 = 0;
    let mut j: usize = from;
    while j < to
        invariant
            from <= j <= to <= b@.len(),
            to - from <= 4,
            part == b@.subrange(from as int, to as int),
            all_digits(part),
            gv == digits_val(b@.subrange(from as int, j as int)),
            gv <= 9999,
        decreases to - j,
    {
        proof {
            assert(part[j - from] == b@[j as int]);
            let pre = b@.subrange(from as int, j as int + 1);
            assert(pre.drop_last() =~= b@.subrange(from as int, j as int));
            assert(pre.last() == b@[j as int]);
            assert(pre =~= part.take(j - from + 1));
            lemma_small_digits_val(part, j - from + 1);
            lemma_pow10_at_most_four(j - from + 1);
        }
        gv = gv * 10 + (b[j] - 48) as u64;
        j += 1;
    }
    proof {
        assert(b@.subrange(from as int, to as int) == part);
    }
    gv
}

/// Parses a byte text into a decimal, returning exactly what
/// `spec_parse` reads from it.
pub fn parse_bytes(b: &[u8]) -> (r: Result<Decimal, ParseError>)
    ensures
        r == spec_parse(b@),
{
    let (lo, hi) = trim_indices(b);
    let ghost t = b@.subrange(lo as int, hi as int);
    proof {
        if hi > lo {
            assert(t[0] == b@[lo as int]);
        }
    }
    let neg = hi > lo && b[lo] == 45;
    let start = if neg {
        lo + 1
    } else {
        lo
    };
    let ghost body = b@.subrange(start as int, hi as int);
    proof {
        if neg {
            assert(t.drop_first() =~= body);
        }
    }
    let d = find_dot_from(b, start, hi);
    let ghost ipart = body.take(d - start);
    proof {
        assert(ipart =~= b@.subrange(start as int, d as int));
    }
    if d == start {
        return Err(ParseError::BadIntegral);
    }
    if !check_digits(b, start, d) {
        return Err(ParseError::BadIntegral);
    }
    // The counted fractional group: up to four digits after the dot,
    // stopping at a second dot.
    let mut glen: usize = 0;
    let mut gstart: usize = hi;
    let ghost mut g = Seq::<u8>::empty();
    if d < hi {
        gstart = d + 1;
        let ghost frac = b@.subrange(gstart as int, hi as int);
        proof {
            assert(frac =~= body.skip(d - start + 1));
        }
        let e = find_dot_from(b, gstart, hi);
        glen = if e - gstart >= 4 {
            4
        } else {
            e - gstart
        };
        proof {
            let seg = frac.take(e - gstart);
            assert(seg =~= b@.subrange(gstart as int, e as int));
            g = if seg.len() >= 4 {
                seg.take(4)
            } else {
                seg
            };
            assert(g =~= b@.subrange(gstart as int, gstart + glen));
        }
        if !check_digits(b, gstart, gstart + glen) {
            return Err(ParseError::BadFraction);
        }
        if e < hi {
            return Err(ParseError::ExtraDot);
        }
    }
    // Grammar is settled; now the value.
    let m = match int_magnitude(b, start, d) {
        None => {
            proof {
                lemma_digits_val_nonneg(g);
                lemma_pow10_pos((4 - g.len()) as nat);
                assert(digits_val(ipart) * 10000 >= (INT_CAP as int + 1) * 10000)
                    by (nonlinear_arith)
                    requires
                        digits_val(ipart) >= INT_CAP as int + 1,
                ;
                assert(digits_val(g) * pow10((4 - g.len()) as nat) >= 0) by (nonlinear_arith)
                    requires
                        digits_val(g) >= 0,
                        pow10((4 - g.len()) as nat) >= 1,
                ;
            }
            return Err(ParseError::OutOfRange);
        },
        Some(m) => m,
    };
    let gv = frac_value(b, gstart, gstart + glen);
    let mult: u64 = if glen == 0 {
        10000
    } else if glen == 1 {
        1000
    } else if glen == 2 {
        100
    } else if glen == 3 {
        10
    } else {
        1
    };
    proof {
        lemma_pow10_small();
        assert(mult == pow10((4 - g.len()) as nat));
        lemma_digits_val_nonneg(g);
    }
    proof {
        assert(gv * mult <= 9999 * 10000) by (nonlinear_arith)
            requires
                gv <= 9999,
                mult <= 10000,
        ;
    }
    let v64: u64 = m * 10000 + gv * mult;
    proof {
        assert(v64 == digits_val(ipart) * 10000 + digits_val(g) * pow10((4 - g.len()) as nat));
    }
    if neg {
        if v64 > MIN_MAG {
            Err(ParseError::OutOfRange)
        } else if v64 == MIN_MAG {
            Ok(Decimal(i64::MIN))
        } else {
            Ok(Decimal(-(v64 as i64)))
        }
    } else {
        if v64 > i64::MAX as u64 {
            Err(ParseError::OutOfRange)
        } else {
            Ok(Decimal(v64 as i64))
        }
    }
}

/// Ten to a power of at most four is at most ten thousand.
proof fn lemma_pow10_at_most_four(i: int)
    requires
        0 <= i <= 4,
    ensures
        1 <= pow10(i as nat) <= 10000,
{
    lemma_pow10_small();
}

/// Ten to a small power is positive.
proof fn lemma_pow10_pos(n: nat)
    ensures
        pow10(n) >= 1,
    decreases n,
{
    if n > 0 {
        lemma_pow10_pos((n - 1) as nat);
    }
}

/// The powers of ten a four-digit fraction can need.
proof fn lemma_pow10_small()
    ensures
        pow10(0) == 1,
        pow10(1) == 10,
        pow10(2) == 100,
        pow10(3) == 1000,
        pow10(4) == 10000,
{
    assert(pow10(0) == 1);
    assert(pow10(1) == 10);
    assert(pow10(2) == 100);
    assert(pow10(3) == 1000);
    assert(pow10(4) == 10000);
}

/// A digit group of at most four digits stays below ten thousand.
proof fn lemma_small_digits_val(s: Seq<u8>, i: int)
    requires
        all_digits(s),
        0 <= i <= s.len() <= 4,
    ensures
        digits_val(s.take(i)) < pow10(i as nat),
        digits_val(s.take(i)) >= 0,
    decreases i,
{
    if i == 0 {
        assert(s.take(0) =~= Seq::<u8>::empty());
    } else {
        lemma_small_digits_val(s, i - 1);
        assert(s.take(i).drop_last() =~= s.take(i - 1));
        assert(s.take(i).last() == s[i - 1]);
    }
}

impl Decimal {
    /// Parses text into a decimal, reading the text's bytes exactly as
    /// `spec_parse` does.
    pub fn parse(s: &str) -> (r: Result<Decimal, ParseError>)
        ensures
            r == spec_parse(s.spec_bytes()),
    {
        parse_bytes(s.as_bytes())
    }
}

/// The character of one decimal digit.
pub open spec fn digit_char(d: int) -> char {
    if d == 0 {
        '0'
    } else if d == 1 {
        '1'
    } else if d == 2 {
        '2'
    } else if d == 3 {
        '3'
    } else if d == 4 {
        '4'
    } else if d == 5 {
        '5'
    } else if d == 6 {
        '6'
    } else if d == 7 {
        '7'
    } else if d == 8 {
        '8'
    } else {
        '9'
    }
}

/// The decimal digits of `n`, most significant first, with no leading
/// zeros (zero itself is a single digit).
pub open spec fn dec_digits(n: nat) -> Seq<char>
    decreases n,
{
    if n < 10 {
        seq![digit_char(n as int)]
    } else {
        dec_digits(n / 10).push(digit_char((n % 10) as int))
    }
}

/// `s` without its trailing zero digits.
pub open spec fn trim_frac(s: Seq<char>) -> Seq<char>
    decreases s.len(),
{
    if s.len() > 0 && s.last() == '0' {
        trim_frac(s.drop_last())
    } else {
        s
    }
}

/// The four zero-padded digits of a fraction `f` of one whole unit.
pub open spec fn pad4(f: int) -> Seq<char> {
    seq![
        digit_char(f / 1000 % 10),
        digit_char(f / 100 % 10),
        digit_char(f / 10 % 10),
        digit_char(f % 10),
    ]
}

/// The rendered fractional part of `f` ten-thousandths: four padded
/// digits, trailing zeros trimmed, but never fewer than one digit.
pub open spec fn frac_digits(f: int) -> Seq<char> {
    let t = trim_frac(pad4(f));
    if t.len() == 0 {
        seq!['0']
    } else {
        t
    }
}

/// The canonical text of the scaled value `v`: a minus sign for negative
/// values, the whole part without leading zeros, a dot, and the trimmed
/// fractional digits.
pub open spec fn spec_to_text(v: int) -> Seq<char> {
    let mag = if v < 0 {
        -v
    } else {
        v
    };
    let body = dec_digits((mag / 10000) as nat) + seq!['.'] + frac_digits(mag % 10000);
    if v < 0 {
        seq!['-'] + body
    } else {
        body
    }
}

/// Appends the character of one digit.
fn append_digit(out: &mut String, d: u64)
    requires
        d < 10,
    ensures
        final(out)@ == old(out)@ + seq![digit_char(d as int)],
{
    let s = if d == 0 {
        "0"
    } else if d == 1 {
        "1"
    } else if d == 2 {
        "2"
    } else if d == 3 {
        "3"
    } else if d == 4 {
        "4"
    } else if d == 5 {
        "5"
    } else if d == 6 {
        "6"
    } else if d == 7 {
        "7"
    } else if d == 8 {
        "8"
    } else {
        "9"
    };
    proof {
        reveal_strlit("0");
        reveal_strlit("1");
        reveal_strlit("2");
        reveal_strlit("3");
        reveal_strlit("4");
        reveal_strlit("5");
        reveal_strlit("6");
        reveal_strlit("7");
        reveal_strlit("8");
        reveal_strlit("9");
        assert(s@ =~= seq![digit_char(d as int)]);
    }
    out.append(s);
}

/// Appends the decimal digits of `n`, most significant first.
fn append_decimal_digits(out: &mut String, n: u64)
    ensures
        final(out)@ == old(out)@ + dec_digits(n as nat),
    decreases n,
{
    if n >= 10 {
        append_decimal_digits(out, n / 10);
        append_digit(out, n % 10);
        proof {
            assert(final(out)@ =~= old(out)@ + dec_digits(n as nat));
        }
    } else {
        append_digit(out, n);
    }
}

impl Decimal {
    /// Renders the decimal canonically: optional minus sign, the whole
    /// part, a dot, then the fractional digits with trailing zeros
    /// trimmed down to at least one digit.
    pub fn to_text(&self) -> (r: String)
        ensures
            r@ == spec_to_text(self@),
    {
        let mut out = String::new();
        if self.0 < 0 {
            proof {
                reveal_strlit("-");
            }
            out.append("-");
            proof {
                assert(out@ =~= seq!['-']);
            }
        }
        let mag: u64 = if self.0 < 0 {
            let m: i128 = -(self.0 as i128);
            m as u64
        } else {
            self.0 as u64
        };
        append_decimal_digits(&mut out, mag / 10000);
        proof {
            reveal_strlit(".");
        }
        out.append(".");
        let f = mag % 10000;
        let d3 = f / 1000;
        let d2 = f / 100 % 10;
        let d1 = f / 10 % 10;
        let d0 = f % 10;
        let ghost before = out@;
        let ghost padded = pad4(f as int);
        if d0 != 0 {
            append_digit(&mut out, d3);
            append_digit(&mut out, d2);
            append_digit(&mut out, d1);
            append_digit(&mut out, d0);
            proof {
                assert(trim_frac(padded) == padded);
                assert(out@ =~= before + frac_digits(f as int));
            }
        } else if d1 != 0 {
            append_digit(&mut out, d3);
            append_digit(&mut out, d2);
            append_digit(&mut out, d1);
            proof {
                assert(f as int % 10 == 0);
                assert(padded.last() == '0');
                assert(trim_frac(padded) == trim_frac(padded.drop_last()));
                let three = padded.drop_last();
                assert(three.len() == 3);
                assert(three.last() == digit_char(f as int / 10 % 10));
                assert(three.last() != '0');
                assert(trim_frac(three) == three);
                assert(out@ =~= before + frac_digits(f as int));
            }
        } else if d2 != 0 {
            append_digit(&mut out, d3);
            append_digit(&mut out, d2);
            proof {
                assert(padded.last() == '0');
                assert(trim_frac(padded) == trim_frac(padded.drop_last()));
                let three = padded.drop_last();
                assert(three.last() == digit_char(f as int / 10 % 10));
                assert(three.last() == '0');
                assert(trim_frac(three) == trim_frac(three.drop_last()));
                let two = three.drop_last();
                assert(two.last() == digit_char(f as int / 100 % 10));
                assert(two.last() != '0');
                assert(trim_frac(two) == two);
                assert(out@ =~= before + frac_digits(f as int));
            }
        } else if d3 != 0 {
            append_digit(&mut out, d3);
            proof {
                assert(padded.last() == '0');
                assert(trim_frac(padded) == trim_frac(padded.drop_last()));
                let three = padded.drop_last();
                assert(three.last() == '0');
                assert(trim_frac(three) == trim_frac(three.drop_last()));
                let two = three.drop_last();
                assert(two.last() == '0');
                assert(trim_frac(two) == trim_frac(two.drop_last()));
                let one = two.drop_last();
                assert(one.last() == digit_char(f as int / 1000 % 10));
                assert(one.last() != '0');
                assert(trim_frac(one) == one);
                assert(out@ =~= before + frac_digits(f as int));
            }
        } else {
            append_digit(&mut out, 0);
            proof {
                assert(padded.last() == '0');
                assert(trim_frac(padded) == trim_frac(padded.drop_last()));
                let three = padded.drop_last();
                assert(three.last() == '0');
                assert(trim_frac(three) == trim_frac(three.drop_last()));
                let two = three.drop_last();
                assert(two.last() == '0');
                assert(trim_frac(two) == trim_frac(two.drop_last()));
                let one = two.drop_last();
                assert(one.last() == '0');
                assert(trim_frac(one) == trim_frac(one.drop_last()));
                assert(one.drop_last() =~= Seq::<char>::empty());
                assert(trim_frac(one.drop_last()).len() == 0);
                assert(out@ =~= before + frac_digits(f as int));
            }
        }
        proof {
            assert(out@ =~= spec_to_text(self@));
        }
        out
    }
}

/// The bytes of an ASCII character sequence.
pub open spec fn ascii_bytes(cs: Seq<char>) -> Seq<u8> {
    Seq::new(cs.len(), |i: int| cs[i] as u8)
}

/// Each digit character's byte is the digit plus 48.
proof fn lemma_digit_char_byte(k: int)
    requires
        0 <= k <= 9,
    ensures
        digit_char(k) as u8 == 48 + k,
        is_digit(digit_char(k) as u8),
{
}

/// The digit characters of `n`, read back as digit bytes, spell `n`.
proof fn lemma_dec_digits_bytes(n: nat)
    ensures
        dec_digits(n).len() >= 1,
        all_digits(ascii_bytes(dec_digits(n))),
        digits_val(ascii_bytes(dec_digits(n))) == n,
    decreases n,
{
    let bs = ascii_bytes(dec_digits(n));
    if n < 10 {
        lemma_digit_char_byte(n as int);
        assert(bs.len() == 1);
        assert(bs[0] == digit_char(n as int) as u8);
        assert(bs.drop_last() =~= Seq::<u8>::empty());
        assert(digits_val(Seq::<u8>::empty()) == 0);
        assert(digits_val(bs) == n);
        assert forall|i: int| 0 <= i < bs.len() implies is_digit(#[trigger] bs[i]) by {}
    } else {
        lemma_dec_digits_bytes(n / 10);
        lemma_digit_char_byte((n % 10) as int);
        let prev = ascii_bytes(dec_digits(n / 10));
        assert(dec_digits(n) == dec_digits(n / 10).push(digit_char((n % 10) as int)));
        assert(bs.drop_last() =~= prev);
        assert(bs.last() == digit_char((n % 10) as int) as u8);
        assert(digits_val(bs) == digits_val(prev) * 10 + n % 10);
        assert(n / 10 * 10 + n % 10 == n);
        assert forall|i: int| 0 <= i < bs.len() implies is_digit(#[trigger] bs[i]) by {
            if i < bs.len() - 1 {
                assert(bs[i] == prev[i]);
            }
        }
    }
}

/// Digit bytes contain no dot.
proof fn lemma_digits_no_dot(s: Seq<u8>)
    requires
        all_digits(s),
    ensures
        find_dot(s) == s.len(),
    decreases s.len(),
{
    if s.len() > 0 {
        assert(is_digit(s[0]));
        assert forall|i: int| 0 <= i < s.drop_first().len() implies is_digit(
            #[trigger] s.drop_first()[i],
        ) by {
            assert(s.drop_first()[i] == s[i + 1]);
        }
        lemma_digits_no_dot(s.drop_first());
    }
}

/// The first dot after leading digit bytes stands right after them.
proof fn lemma_find_dot_concat(a: Seq<u8>, b: Seq<u8>)
    requires
        all_digits(a),
        b.len() > 0,
        b[0] == 46,
    ensures
        find_dot(a + b) == a.len(),
    decreases a.len(),
{
    if a.len() == 0 {
        assert(a + b =~= b);
    } else {
        assert((a + b)[0] == a[0]);
        assert(is_digit(a[0]));
        assert((a + b).drop_first() =~= a.drop_first() + b);
        assert forall|i: int| 0 <= i < a.drop_first().len() implies is_digit(
            #[trigger] a.drop_first()[i],
        ) by {
            assert(a.drop_first()[i] == a[i + 1]);
        }
        lemma_find_dot_concat(a.drop_first(), b);
    }
}

/// The trimmed fractional digits, scaled back to four places, give the
/// fraction they were rendered from.
proof fn lemma_frac_digits_bytes(f: int)
    requires
        0 <= f < 10000,
    ensures
        1 <= frac_digits(f).len() <= 4,
        all_digits(ascii_bytes(frac_digits(f))),
        digits_val(ascii_bytes(frac_digits(f))) * pow10((4 - frac_digits(f).len()) as nat) == f,
{
    vstd::arithmetic::div_mod::lemma_mod_breakdown(f, 1000, 10);
    vstd::arithmetic::div_mod::lemma_mod_breakdown(f, 100, 10);
    vstd::arithmetic::div_mod::lemma_mod_breakdown(f, 10, 10);
    assert(f % 10000 == f);
    assert(f == 1000 * (f / 1000 % 10) + 100 * (f / 100 % 10) + 10 * (f / 10 % 10) + f % 10);
    let d3 = f / 1000 % 10;
    let d2 = f / 100 % 10;
    let d1 = f / 10 % 10;
    let d0 = f % 10;
    lemma_digit_char_byte(d3);
    lemma_digit_char_byte(d2);
    lemma_digit_char_byte(d1);
    lemma_digit_char_byte(d0);
    lemma_pow10_small();
    let padded = pad4(f);
    let cs = frac_digits(f);
    let bs = ascii_bytes(cs);
    if d0 != 0 {
        assert(padded.last() != '0');
        assert(trim_frac(padded) == padded);
        assert(cs == padded);
        assert(bs.len() == 4);
        lemma_digits_val_four(bs, d3, d2, d1, d0);
    } else if d1 != 0 {
        assert(padded.last() == '0');
        assert(trim_frac(padded) == trim_frac(padded.drop_last()));
        let three = padded.drop_last();
        assert(three.last() == digit_char(d1));
        assert(three.last() != '0');
        assert(trim_frac(three) == three);
        assert(cs == three);
        assert(bs.len() == 3);
        lemma_digits_val_three(bs, d3, d2, d1);
        assert(digits_val(bs) * 10 == f);
    } else if d2 != 0 {
        assert(padded.last() == '0');
        assert(trim_frac(padded) == trim_frac(padded.drop_last()));
        let three = padded.drop_last();
        assert(three.last() == '0');
        assert(trim_frac(three) == trim_frac(three.drop_last()));
        let two = three.drop_last();
        assert(two.last() == digit_char(d2));
        assert(two.last() != '0');
        assert(trim_frac(two) == two);
        assert(cs == two);
        assert(bs.len() == 2);
        lemma_digits_val_two(bs, d3, d2);
        assert(digits_val(bs) * 100 == f);
    } else if d3 != 0 {
        assert(padded.last() == '0');
        assert(trim_frac(padded) == trim_frac(padded.drop_last()));
        let three = padded.drop_last();
        assert(three.last() == '0');
        assert(trim_frac(three) == trim_frac(three.drop_last()));
        let two = three.drop_last();
        assert(two.last() == '0');
        assert(trim_frac(two) == trim_frac(two.drop_last()));
        let one = two.drop_last();
        assert(one.last() == digit_char(d3));
        assert(one.last() != '0');
        assert(trim_frac(one) == one);
        assert(cs == one);
        assert(bs.len() == 1);
        lemma_digits_val_one(bs, d3);
        assert(digits_val(bs) * 1000 == f);
    } else {
        assert(f == 0);
        assert(padded.last() == '0');
        assert(trim_frac(padded) == trim_frac(padded.drop_last()));
        let three = padded.drop_last();
        assert(three.last() == '0');
        assert(trim_frac(three) == trim_frac(three.drop_last()));
        let two = three.drop_last();
        assert(two.last() == '0');
        assert(trim_frac(two) == trim_frac(two.drop_last()));
        let one = two.drop_last();
        assert(one.last() == '0');
        assert(trim_frac(one) == trim_frac(one.drop_last()));
        assert(one.drop_last() =~= Seq::<char>::empty());
        assert(trim_frac(one.drop_last()).len() == 0);
        assert(cs == seq!['0']);
        assert(bs.len() == 1);
        lemma_digits_val_one(bs, 0);
    }
    assert forall|i: int| 0 <= i < bs.len() implies is_digit(#[trigger] bs[i]) by {
        assert(bs[i] == cs[i] as u8);
    }
}

/// The value of one digit byte.
proof fn lemma_digits_val_one(bs: Seq<u8>, a: int)
    requires
        bs.len() == 1,
        bs[0] == 48 + a,
        0 <= a <= 9,
    ensures
        digits_val(bs) == a,
{
    assert(bs.drop_last() =~= Seq::<u8>::empty());
    assert(digits_val(Seq::<u8>::empty()) == 0);
}

/// The value of two digit bytes.
proof fn lemma_digits_val_two(bs: Seq<u8>, a: int, b: int)
    requires
        bs.len() == 2,
        bs[0] == 48 + a,
        bs[1] == 48 + b,
        0 <= a <= 9,
        0 <= b <= 9,
    ensures
        digits_val(bs) == a * 10 + b,
{
    lemma_digits_val_one(bs.drop_last(), a);
}

/// The value of three digit bytes.
proof fn lemma_digits_val_three(bs: Seq<u8>, a: int, b: int, c: int)
    requires
        bs.len() == 3,
        bs[0] == 48 + a,
        bs[1] == 48 + b,
        bs[2] == 48 + c,
        0 <= a <= 9,
        0 <= b <= 9,
        0 <= c <= 9,
    ensures
        digits_val(bs) == a * 100 + b * 10 + c,
{
    lemma_digits_val_two(bs.drop_last(), a, b);
}

/// The value of four digit bytes.
proof fn lemma_digits_val_four(bs: Seq<u8>, a: int, b: int, c: int, d: int)
    requires
        bs.len() == 4,
        bs[0] == 48 + a,
        bs[1] == 48 + b,
        bs[2] == 48 + c,
        bs[3] == 48 + d,
        0 <= a <= 9,
        0 <= b <= 9,
        0 <= c <= 9,
        0 <= d <= 9,
    ensures
        digits_val(bs) == a * 1000 + b * 100 + c * 10 + d,
{
    lemma_digits_val_three(bs.drop_last(), a, b, c);
}

/// Law: the canonical text of any decimal parses back to the very same
/// value. Together with `to_text`'s exact rendering contract this makes
/// parse-then-render idempotent on every valid text with at most four
/// fractional digits.
pub proof fn lemma_to_text_parse_roundtrip(d: Decimal)
    ensures
        spec_parse(ascii_bytes(spec_to_text(d@))) == Ok::<Decimal, ParseError>(d),
{
    let v = d@;
    let mag = if v < 0 {
        -v
    } else {
        v
    };
    let ip = (mag / 10000) as nat;
    let fp = mag % 10000;
    lemma_dec_digits_bytes(ip);
    lemma_frac_digits_bytes(fp);
    let ics = dec_digits(ip);
    let fcs = frac_digits(fp);
    let ib = ascii_bytes(ics);
    let fb = ascii_bytes(fcs);
    let body = ics + seq!['.'] + fcs;
    let bb = ascii_bytes(body);
    assert(bb =~= ib + seq![46u8] + fb);
    let cs = spec_to_text(v);
    let bytes = ascii_bytes(cs);
    if v < 0 {
        assert(bytes =~= seq![45u8] + bb);
        assert(bytes.drop_first() =~= bb);
        assert(bytes[0] == 45);
    } else {
        assert(bytes =~= bb);
        assert(bytes[0] == ib[0]);
        assert(is_digit(bytes[0]));
    }
    assert(bytes.last() == fb.last());
    assert(is_digit(bytes.last()));
    assert(!is_space(bytes[0]));
    assert(!is_space(bytes.last()));
    assert(trim_start(bytes) == bytes);
    assert(trim_end(bytes) == bytes);
    assert(trim(bytes) == bytes);
    // the body parses to the scaled magnitude
    assert(ib + seq![46u8] + fb =~= ib + (seq![46u8] + fb));
    lemma_find_dot_concat(ib, seq![46u8] + fb);
    let dd = find_dot(bb);
    assert(dd == ib.len());
    assert(bb.take(dd) =~= ib);
    assert(bb.skip(dd + 1) =~= fb);
    lemma_digits_no_dot(fb);
    assert(fb.take(find_dot(fb)) =~= fb);
    assert(fb.len() <= 4);
    if fb.len() == 4 {
        assert(fb.take(4) =~= fb);
    }
    assert(parse_magnitude(bb) == Ok::<int, ParseError>(
        digits_val(ib) * 10000 + digits_val(fb) * pow10((4 - fb.len()) as nat),
    ));
    assert(digits_val(ib) * 10000 + digits_val(fb) * pow10((4 - fb.len()) as nat) == ip * 10000
        + fp);
    assert(ip * 10000 + fp == mag);
    if v < 0 {
        assert(-mag == v);
        assert(-mag >= i64::MIN);
        assert(spec_parse(bytes) == Ok::<Decimal, ParseError>(Decimal((-mag) as i64)));
        assert(Decimal((-mag) as i64) == d);
    } else {
        assert(mag <= i64::MAX);
        assert(spec_parse(bytes) == Ok::<Decimal, ParseError>(Decimal(mag as i64)));
        assert(Decimal(mag as i64) == d);
    }
}

/// Every digit character lies in the ASCII digit range.
proof fn lemma_dec_digits_ascii(n: nat)
    ensures
        forall|i: int| 0 <= i < dec_digits(n).len() ==> '0' <= #[trigger] dec_digits(n)[i] <= '9',
    decreases n,
{
    if n >= 10 {
        lemma_dec_digits_ascii(n / 10);
        let cs = dec_digits(n);
        let prev = dec_digits(n / 10);
        assert forall|i: int| 0 <= i < cs.len() implies '0' <= #[trigger] cs[i] <= '9' by {
            if i < cs.len() - 1 {
                assert(cs[i] == prev[i]);
            }
        }
    }
}

/// Trimming trailing zeros keeps every character a digit.
proof fn lemma_trim_frac_ascii(s: Seq<char>)
    requires
        forall|i: int| 0 <= i < s.len() ==> '0' <= #[trigger] s[i] <= '9',
    ensures
        forall|i: int|
            0 <= i < trim_frac(s).len() ==> '0' <= #[trigger] trim_frac(s)[i] <= '9',
    decreases s.len(),
{
    if s.len() > 0 && s.last() == '0' {
        assert(forall|i: int|
            0 <= i < s.drop_last().len() ==> '0' <= #[trigger] s.drop_last()[i] <= '9');
        lemma_trim_frac_ascii(s.drop_last());
        assert(trim_frac(s) == trim_frac(s.drop_last()));
    }
}

/// Law: the canonical text of a decimal is pure ASCII, so its character
/// sequence and its byte encoding agree position for position.
pub proof fn lemma_to_text_ascii(d: Decimal)
    ensures
        vstd::utf8::is_ascii_chars(spec_to_text(d@)),
{
    let v = d@;
    let mag = if v < 0 {
        -v
    } else {
        v
    };
    let ics = dec_digits((mag / 10000) as nat);
    let fcs = frac_digits(mag % 10000);
    lemma_dec_digits_ascii((mag / 10000) as nat);
    lemma_trim_frac_ascii(pad4(mag % 10000));
    let cs = spec_to_text(v);
    let body = ics + seq!['.'] + fcs;
    assert forall|i: int| 0 <= i < cs.len() implies '\0' <= #[trigger] cs[i] <= '\u{7f}' by {
        let j = if v < 0 {
            i - 1
        } else {
            i
        };
        if v < 0 && i == 0 {
            assert(cs[i] == '-');
        } else {
            assert(cs[i] == body[j]);
            if j < ics.len() {
                assert(body[j] == ics[j]);
            } else if j == ics.len() {
                assert(body[j] == '.');
            } else {
                assert(body[j] == fcs[j - ics.len() - 1]);
            }
        }
    }
}

} // verus!

