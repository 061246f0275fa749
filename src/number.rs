//! Numbers of the workflow's JSON values, held exactly as fixed-point decimals
//! with nine fractional digits.
//!
//! Text is read as an optional sign, decimal digits and an optional fraction
//! (`"42"`, `"-3.5"`, `".25"`, `"7."`); digits past the ninth fractional place are
//! dropped. An exponent (`"1e3"`, `"2.5E-2"`) shifts the decimal point of the
//! number so read, dropping digits past the ninth fractional place. The names of
//! infinities are not numbers, and neither is text whose value is out of range; a
//! result of arithmetic outside the representable range has no value either, as an
//! overflowing float has no JSON form.

use vstd::prelude::*;
use crate::text::{chars_of, string_of};

verus! {

/// Units per whole number.
pub const SCALE: i128 = 1_000_000_000;

/// Largest whole part that text may denote.
pub const WHOLE_LIMIT: i128 = 100_000_000_000_000_000_000;

/// Largest magnitude, in units.
pub const MAX_UNITS: i128 = 200_000_000_000_000_000_000_000_000_000;

/// A decimal number: `units / SCALE`.
#[derive(Clone, Copy, Debug, PartialEq, Eq, Structural)]
pub struct Num {
    pub units: i128,
}

impl Num {
    pub open spec fn wf(self) -> bool {
        -MAX_UNITS <= self.units <= MAX_UNITS
    }
}

pub open spec fn is_digit(c: char) -> bool {
    '0' <= c && c <= '9'
}

pub open spec fn digit_value(c: char) -> int {
    c as int - '0' as int
}

pub open spec fn all_digits(s: Seq<char>) -> bool {
    forall|i: int| 0 <= i < s.len() ==> is_digit(#[trigger] s[i])
}

/// The value of a string of decimal digits.
pub open spec fn digits_value(s: Seq<char>) -> int
    decreases s.len(),
{
    if s.len() == 0 {
        0
    } else {
        digits_value(s.drop_last()) * 10 + digit_value(s.last())
    }
}

pub open spec fn pow10(n: nat) -> int
    decreases n,
{
    if n == 0 {
        1
    } else {
        10 * pow10((n - 1) as nat)
    }
}

/// Position of the first `c` in `s`, or `s.len()` when there is none.
pub open spec fn index_of(s: Seq<char>, c: char) -> int
    decreases s.len(),
{
    if s.len() == 0 {
        0
    } else if s[0] == c {
        0
    } else {
        1 + index_of(s.drop_first(), c)
    }
}

/// The units of fractional digits `f`: the first nine, scaled to nine places.
pub open spec fn fraction_units(f: Seq<char>) -> int {
    if f.len() >= 9 {
        digits_value(f.take(9))
    } else {
        digits_value(f) * pow10((9 - f.len()) as nat)
    }
}

/// The magnitude part of decimal text (no sign), in units.
pub open spec fn unsigned_units(b: Seq<char>) -> Option<int> {
    let d = index_of(b, '.');
    let whole = b.take(d);
    let frac = if d < b.len() { b.skip(d + 1) } else { Seq::empty() };
    if all_digits(whole) && all_digits(frac) && whole.len() + frac.len() > 0
        && digits_value(whole) <= WHOLE_LIMIT {
        Some(digits_value(whole) * SCALE + fraction_units(frac))
    } else {
        None
    }
}

/// The number that decimal text without exponent denotes, in units.
pub open spec fn decimal_units(s: Seq<char>) -> Option<int> {
    if s.len() > 0 && s[0] == '-' {
        match unsigned_units(s.drop_first()) {
            Some(u) => Some(-u),
            None => None,
        }
    } else if s.len() > 0 && s[0] == '+' {
        unsigned_units(s.drop_first())
    } else {
        unsigned_units(s)
    }
}

proof fn lemma_pow10_9()
    ensures
        pow10(9) == 1_000_000_000,
{
    reveal_with_fuel(pow10, 10);
}

/// Position of the first exponent mark (`e` or `E`), or `s.len()` when there is none.
pub open spec fn exp_index(s: Seq<char>) -> int
    decreases s.len(),
{
    if s.len() == 0 {
        0
    } else if s[0] == 'e' || s[0] == 'E' {
        0
    } else {
        1 + exp_index(s.drop_first())
    }
}

/// The value of exponent text: an optional sign and at least one digit.
pub open spec fn exponent_value(t: Seq<char>) -> Option<int> {
    let neg = t.len() > 0 && t[0] == '-';
    let d = if t.len() > 0 && (t[0] == '-' || t[0] == '+') { t.drop_first() } else { t };
    if d.len() > 0 && all_digits(d) {
        Some(if neg { -digits_value(d) } else { digits_value(d) })
    } else {
        None
    }
}

/// A magnitude shifted `e` decimal places, truncated.
pub open spec fn shift(m: int, e: int) -> int {
    if e >= 0 {
        m * pow10(e as nat)
    } else {
        m / pow10((-e) as nat)
    }
}

/// Units shifted `e` decimal places, truncated toward zero.
pub open spec fn scale_units(u: int, e: int) -> int {
    if u < 0 { -shift(-u, e) } else { shift(u, e) }
}

/// The number that text denotes, in units: decimal text, optionally followed by an
/// exponent, when the value is in range.
pub open spec fn text_units(s: Seq<char>) -> Option<int> {
    let x = exp_index(s);
    if x >= s.len() {
        decimal_units(s)
    } else {
        match (decimal_units(s.take(x)), exponent_value(s.skip(x + 1))) {
            (Some(u), Some(e)) => if abs(scale_units(u, e)) <= MAX_UNITS {
                Some(scale_units(u, e))
            } else {
                None
            },
            _ => None,
        }
    }
}

proof fn lemma_digits_value_nonneg(s: Seq<char>)
    requires
        all_digits(s),
    ensures
        digits_value(s) >= 0,
    decreases s.len(),
{
    if s.len() > 0 {
        lemma_digits_value_nonneg(s.drop_last());
    }
}

proof fn lemma_digits_value_mono(s: Seq<char>, k: int)
    requires
        all_digits(s),
        0 <= k <= s.len(),
    ensures
        digits_value(s.take(k)) <= digits_value(s),
    decreases s.len(),
{
    if k < s.len() {
        assert(s.drop_last().take(k) =~= s.take(k));
        lemma_digits_value_mono(s.drop_last(), k);
        lemma_digits_value_nonneg(s.drop_last());
    } else {
        assert(s.take(k) =~= s);
    }
}

proof fn lemma_digits_bound(s: Seq<char>)
    requires
        all_digits(s),
    ensures
        digits_value(s) < pow10(s.len()),
    decreases s.len(),
{
    if s.len() > 0 {
        lemma_digits_bound(s.drop_last());
    }
}

proof fn lemma_index_of(s: Seq<char>, c: char)
    ensures
        0 <= index_of(s, c) <= s.len(),
        index_of(s, c) < s.len() ==> s[index_of(s, c)] == c,
        forall|i: int| 0 <= i < index_of(s, c) ==> s[i] != c,
    decreases s.len(),
{
    if s.len() > 0 && s[0] != c {
        lemma_index_of(s.drop_first(), c);
        assert forall|i: int| 0 <= i < index_of(s, c) implies s[i] != c by {
            if i > 0 {
                assert(s[i] == s.drop_first()[i - 1]);
            }
        }
    }
}

proof fn lemma_index_of_unique(s: Seq<char>, c: char, d: int)
    requires
        0 <= d <= s.len(),
        d < s.len() ==> s[d] == c,
        forall|i: int| 0 <= i < d ==> s[i] != c,
    ensures
        index_of(s, c) == d,
    decreases s.len(),
{
    if s.len() > 0 && s[0] != c {
        assert forall|i: int| 0 <= i < d - 1 implies s.drop_first()[i] != c by {
            assert(s[i + 1] != c);
        }
        lemma_index_of_unique(s.drop_first(), c, d - 1);
    }
}

/// Reads decimal digits of `c` from `start`, stopping at the first other character,
/// or as soon as the value passes `WHOLE_LIMIT`.
fn read_whole(c: &Vec<char>, start: usize) -> (r: (usize, i128, bool))
    requires
        start <= c.len(),
    ensures
        start <= r.0 <= c.len(),
        all_digits(c@.subrange(start as int, r.0 as int)),
        r.2 ==> (r.0 == c.len() || !is_digit(c@[r.0 as int])),
        r.2 ==> r.1 == digits_value(c@.subrange(start as int, r.0 as int)),
        r.2 ==> 0 <= r.1 <= WHOLE_LIMIT,
        !r.2 ==> digits_value(c@.subrange(start as int, r.0 as int)) > WHOLE_LIMIT,
{
    let mut i: usize = start;
    let mut acc: i128 = 0;
    while i < c.len() && '0' <= c[i] && c[i] <= '9'
        invariant
            start <= i <= c.len(),
            all_digits(c@.subrange(start as int, i as int)),
            acc == digits_value(c@.subrange(start as int, i as int)),
            0 <= acc <= WHOLE_LIMIT,
        decreases c.len() - i,
    {
        let d = c[i] as u32 - '0' as u32;
        proof {
            assert(c@.subrange(start as int, i + 1).drop_last() =~= c@.subrange(start as int, i as int));
        }
        acc = acc * 10 + d as i128;
        i = i + 1;
        if acc > WHOLE_LIMIT {
            return (i, acc, false);
        }
    }
    (i, acc, true)
}

proof fn lemma_pow10_pos(n: nat)
    ensures
        pow10(n) >= 1,
    decreases n,
{
    if n > 0 {
        lemma_pow10_pos((n - 1) as nat);
    }
}

proof fn lemma_pow10_le(n: nat)
    requires
        n <= 9,
    ensures
        1 <= pow10(n) <= 1_000_000_000,
{
    lemma_pow10_pos(n);
    lemma_pow10_pos((9 - n) as nat);
    lemma_pow10_add(n, (9 - n) as nat);
    lemma_pow10_9();
    assert(pow10(n) <= pow10(n) * pow10((9 - n) as nat)) by (nonlinear_arith)
        requires
            pow10(n) >= 1,
            pow10((9 - n) as nat) >= 1,
    ;
}

/// How `unsigned_units` reads text whose leading digits end at `d`.
proof fn lemma_unsigned_split(b: Seq<char>, d: int)
    requires
        0 <= d <= b.len(),
        all_digits(b.take(d)),
        d == b.len() || !is_digit(b[d]),
    ensures
        d == b.len() ==> unsigned_units(b) == (if d > 0 && digits_value(b.take(d)) <= WHOLE_LIMIT {
            Some(digits_value(b.take(d)) * SCALE + fraction_units(Seq::empty()))
        } else {
            None
        }),
        d < b.len() && b[d] != '.' ==> unsigned_units(b) is None,
        d < b.len() && b[d] == '.' ==> unsigned_units(b) == (if all_digits(b.skip(d + 1))
            && d + b.skip(d + 1).len() > 0 && digits_value(b.take(d)) <= WHOLE_LIMIT {
            Some(digits_value(b.take(d)) * SCALE + fraction_units(b.skip(d + 1)))
        } else {
            None
        }),
{
    lemma_index_of(b, '.');
    let dd = index_of(b, '.');
    if d == b.len() || b[d] == '.' {
        assert forall|k: int| 0 <= k < d implies b[k] != '.' by {
            assert(b[k] == b.take(d)[k]);
        }
        lemma_index_of_unique(b, '.', d);
    } else {
        if dd < d {
            assert(b[dd] == b.take(d)[dd]);
        } else {
            assert(b.take(dd)[d] == b[d]);
        }
    }
}

/// Reads fractional digits of `c` from `start`, keeping the first nine.
fn read_fraction(c: &Vec<char>, start: usize) -> (r: (usize, i128))
    requires
        start <= c.len(),
    ensures
        start <= r.0 <= c.len(),
        all_digits(c@.subrange(start as int, r.0 as int)),
        r.0 == c.len() || !is_digit(c@[r.0 as int]),
        r.1 == fraction_units(c@.subrange(start as int, r.0 as int)),
        0 <= r.1 < SCALE,
{
    let mut i: usize = start;
    let mut acc: i128 = 0;
    while i < c.len() && '0' <= c[i] && c[i] <= '9'
        invariant
            start <= i <= c.len(),
            all_digits(c@.subrange(start as int, i as int)),
            i - start <= 9 ==> acc == digits_value(c@.subrange(start as int, i as int)),
            i - start > 9 ==> acc == digits_value(c@.subrange(start as int, start + 9)),
            0 <= acc < 1_000_000_000,
        decreases c.len() - i,
    {
        if i - start < 9 {
            let d = c[i] as u32 - '0' as u32;
            proof {
                assert(c@.subrange(start as int, i + 1).drop_last() =~= c@.subrange(start as int, i as int));
                lemma_digits_bound(c@.subrange(start as int, i + 1));
                lemma_pow10_le((i + 1 - start) as nat);
            }
            acc = acc * 10 + d as i128;
        } else if i - start == 9 {
            proof {
                assert(c@.subrange(start as int, i as int) =~= c@.subrange(start as int, start + 9));
            }
        }
        i = i + 1;
    }
    let ghost f = c@.subrange(start as int, i as int);
    let k: usize = i - start;
    if k >= 9 {
        proof {
            assert(f.take(9) =~= c@.subrange(start as int, start + 9));
        }
        (i, acc)
    } else {
        proof {
            lemma_digits_bound(f);
            lemma_pow10_le(k as nat);
        }
        let mut m: usize = k;
        let mut out: i128 = acc;
        assert(out == acc * pow10(0));
        while m < 9
            invariant
                k <= m <= 9,
                k == f.len(),
                acc == digits_value(f),
                0 <= acc < pow10(k as nat),
                out == acc * pow10((m - k) as nat),
                0 <= out < pow10(m as nat),
            decreases 9 - m,
        {
            proof {
                assert(pow10((m + 1 - k) as nat) == 10 * pow10((m - k) as nat));
                assert(pow10((m + 1) as nat) == 10 * pow10(m as nat));
                assert(out * 10 == acc * (10 * pow10((m - k) as nat))) by (nonlinear_arith)
                    requires
                        out == acc * pow10((m - k) as nat),
                ;
                lemma_pow10_le(m as nat);
            }
            out = out * 10;
            m = m + 1;
        }
        proof {
            lemma_pow10_9();
        }
        (i, out)
    }
}

proof fn lemma_text_units_range(s: Seq<char>)
    ensures
        decimal_units(s) is Some ==> -(WHOLE_LIMIT * SCALE + SCALE) <= decimal_units(s).unwrap() <= WHOLE_LIMIT * SCALE + SCALE,
{
    assert forall|b: Seq<char>| #[trigger] unsigned_units(b) is Some implies 0
        <= unsigned_units(b).unwrap() <= WHOLE_LIMIT * SCALE + SCALE by {
        let d = index_of(b, '.');
        let whole = b.take(d);
        let frac = if d < b.len() { b.skip(d + 1) } else { Seq::empty() };
        lemma_digits_value_nonneg(whole);
        lemma_digits_value_nonneg(frac);
        lemma_pow10_9();
        if frac.len() >= 9 {
            assert(all_digits(frac.take(9)));
            lemma_digits_bound(frac.take(9));
            lemma_digits_value_nonneg(frac.take(9));
        } else {
            lemma_digits_bound(frac);
            lemma_pow10_le((9 - frac.len()) as nat);
            lemma_pow10_le(frac.len());
            assert(pow10(frac.len()) * pow10((9 - frac.len()) as nat) == pow10(9)) by {
                lemma_pow10_add(frac.len(), (9 - frac.len()) as nat);
            }
            assert(digits_value(frac) * pow10((9 - frac.len()) as nat) < pow10(9)) by (nonlinear_arith)
                requires
                    0 <= digits_value(frac) < pow10(frac.len()),
                    pow10(frac.len()) * pow10((9 - frac.len()) as nat) == pow10(9),
                    pow10((9 - frac.len()) as nat) >= 1,
            ;
            assert(digits_value(frac) * pow10((9 - frac.len()) as nat) >= 0) by (nonlinear_arith)
                requires
                    0 <= digits_value(frac),
                    pow10((9 - frac.len()) as nat) >= 1,
            ;
        }
    }
}

proof fn lemma_pow10_add(a: nat, b: nat)
    ensures
        pow10(a) * pow10(b) == pow10(a + b),
    decreases a,
{
    if a > 0 {
        lemma_pow10_add((a - 1) as nat, b);
        assert(pow10(a) * pow10(b) == 10 * (pow10((a - 1) as nat) * pow10(b))) by (nonlinear_arith)
            requires
                pow10(a) == 10 * pow10((a - 1) as nat),
        ;
    }
}

impl Num {
    /// The number that `s` denotes, if any; see the module's description of the forms read.
    /// The units that decimal text without exponent denotes.
    #[verifier::rlimit(80)]
    fn read_decimal(c: &Vec<char>) -> (r: Option<i128>)
        ensures
            r.is_some() == decimal_units(c@).is_some(),
            r.is_some() ==> r.unwrap() as int == decimal_units(c@).unwrap(),
    {
        proof {
            lemma_text_units_range(c@);
        }
        let mut start: usize = 0;
        let mut neg = false;
        if c.len() > 0 && (c[0] == '-' || c[0] == '+') {
            neg = c[0] == '-';
            start = 1;
        }
        let ghost b = c@.skip(start as int);
        proof {
            if start == 1 {
                assert(c@.drop_first() =~= b);
            } else {
                assert(c@ =~= b);
            }
        }
        let (i, whole, ok) = read_whole(&c, start);
        let ghost d = i - start;
        proof {
            assert(c@.subrange(start as int, i as int) =~= b.take(d));
            if i < c.len() {
                assert(b[d] == c@[i as int]);
            }
        }
        if !ok {
            proof {
                let dd = index_of(b, '.');
                lemma_index_of(b, '.');
                if dd < d {
                    assert(b[dd] == b.take(d)[dd]);
                } else if all_digits(b.take(dd)) {
                    assert(b.take(dd).take(d) =~= b.take(d));
                    lemma_digits_value_mono(b.take(dd), d);
                }
            }
            return None;
        }
        proof {
            lemma_unsigned_split(b, d);
            lemma_digits_value_nonneg(b.take(d));
        }
        if i == c.len() {
            if i == start {
                return None;
            }
            proof {
                lemma_pow10_9();
            }
            let units = whole * SCALE;
            return if neg { Some(-units) } else { Some(units) };
        }
        if c[i] != '.' {
            return None;
        }
        let (j, frac) = read_fraction(&c, i + 1);
        proof {
            assert(c@.subrange(i + 1, j as int) =~= b.skip(d + 1).take(j - i - 1));
            if j < c.len() {
                assert(b.skip(d + 1)[j - i - 1] == c@[j as int]);
                assert(!all_digits(b.skip(d + 1)));
            } else {
                assert(c@.subrange(i + 1, j as int) =~= b.skip(d + 1));
            }
        }
        if j != c.len() || (i == start && j == i + 1) {
            return None;
        }
        let units = whole * SCALE + frac;
        if neg {
            Some(-units)
        } else {
            Some(units)
        }
    }
}

pub open spec fn digit_char(d: int) -> char {
    if d == 0 { '0' } else if d == 1 { '1' } else if d == 2 { '2' } else if d == 3 { '3' }
    else if d == 4 { '4' } else if d == 5 { '5' } else if d == 6 { '6' } else if d == 7 { '7' }
    else if d == 8 { '8' } else { '9' }
}

/// Decimal digits of `n`, without leading zeros (`"0"` for zero).
pub open spec fn nat_text(n: nat) -> Seq<char>
    decreases n,
{
    if n < 10 {
        seq![digit_char(n as int)]
    } else {
        nat_text(n / 10).push(digit_char((n % 10) as int))
    }
}

/// The last `w` decimal digits of `n`, zero-padded.
pub open spec fn digits_width(n: nat, w: nat) -> Seq<char>
    decreases w,
{
    if w == 0 {
        Seq::empty()
    } else {
        digits_width(n / 10, (w - 1) as nat).push(digit_char((n % 10) as int))
    }
}

/// `s` without its trailing zeros.
pub open spec fn strip_zeros(s: Seq<char>) -> Seq<char>
    decreases s.len(),
{
    if s.len() > 0 && s.last() == '0' {
        strip_zeros(s.drop_last())
    } else {
        s
    }
}

pub open spec fn abs(x: int) -> nat {
    if x < 0 { (-x) as nat } else { x as nat }
}

/// The text of a number: sign, whole part, and the fraction without trailing zeros.
pub open spec fn num_text(units: int) -> Seq<char> {
    let m = abs(units);
    let sign = if units < 0 { seq!['-'] } else { Seq::empty() };
    let frac = m % (SCALE as nat);
    sign + nat_text(m / (SCALE as nat)) + if frac == 0 {
        Seq::empty()
    } else {
        seq!['.'] + strip_zeros(digits_width(frac, 9))
    }
}

pub fn digit_to_char(d: u128) -> (c: char)
    requires
        d < 10,
    ensures
        c == digit_char(d as int),
{
    if d == 0 { '0' } else if d == 1 { '1' } else if d == 2 { '2' } else if d == 3 { '3' }
    else if d == 4 { '4' } else if d == 5 { '5' } else if d == 6 { '6' } else if d == 7 { '7' }
    else if d == 8 { '8' } else { '9' }
}

fn push_nat(out: &mut Vec<char>, n: u128)
    ensures
        final(out)@ == old(out)@ + nat_text(n as nat),
    decreases n,
{
    if n >= 10 {
        push_nat(out, n / 10);
    }
    let c = digit_to_char(n % 10);
    out.push(c);
    proof {
        if n >= 10 {
            assert(old(out)@ + nat_text(n as nat) =~= old(out)@ + nat_text((n / 10) as nat) + seq![c]);
        } else {
            assert(old(out)@ + nat_text(n as nat) =~= old(out)@ + seq![c]);
        }
    }
}

fn push_width(out: &mut Vec<char>, n: u128, w: u32)
    ensures
        final(out)@ == old(out)@ + digits_width(n as nat, w as nat),
    decreases w,
{
    if w == 0 {
        assert(old(out)@ + digits_width(n as nat, 0) =~= old(out)@);
        return;
    }
    push_width(out, n / 10, w - 1);
    let c = digit_to_char(n % 10);
    out.push(c);
    assert(old(out)@ + digits_width(n as nat, w as nat) =~= old(out)@ + digits_width((n / 10) as nat, (w - 1) as nat) + seq![c]);
}

impl Num {
    /// The whole number `n`.
    pub fn from_int(n: i64) -> (r: Num)
        ensures
            r.units == n * SCALE,
            r.wf(),
    {
        Num { units: n as i128 * SCALE }
    }

    /// The whole number `n`.
    pub fn from_count(n: usize) -> (r: Num)
        ensures
            r.units == n * SCALE,
            r.wf(),
    {
        Num { units: n as i128 * SCALE }
    }

    /// The sum, when it is in range.
    pub fn checked_add(self, o: Num) -> (r: Option<Num>)
        ensures
            r == (if abs(self.units + o.units) <= MAX_UNITS {
                Some(Num { units: (self.units + o.units) as i128 })
            } else {
                None
            }),
    {
        match self.units.checked_add(o.units) {
            Some(u) => if u > MAX_UNITS || u < -MAX_UNITS { None } else { Some(Num { units: u }) },
            None => None,
        }
    }

    /// The difference, when it is in range.
    pub fn checked_sub(self, o: Num) -> (r: Option<Num>)
        ensures
            r == (if abs(self.units - o.units) <= MAX_UNITS {
                Some(Num { units: (self.units - o.units) as i128 })
            } else {
                None
            }),
    {
        match self.units.checked_sub(o.units) {
            Some(u) => if u > MAX_UNITS || u < -MAX_UNITS { None } else { Some(Num { units: u }) },
            None => None,
        }
    }

    /// The number as a `u64`, when it is a whole number in that range.
    pub fn as_u64(self) -> (r: Option<u64>)
        ensures
            r == (if self.units >= 0 && self.units % SCALE == 0 && self.units / SCALE <= u64::MAX {
                Some((self.units / SCALE) as u64)
            } else {
                None
            }),
    {
        if self.units >= 0 && self.units % SCALE == 0 && self.units / SCALE <= u64::MAX as i128 {
            Some((self.units / SCALE) as u64)
        } else {
            None
        }
    }

    /// The number as an `i64`, when it is a whole number in that range.
    pub fn as_i64(self) -> (r: Option<i64>)
        ensures
            r == (if self.units % SCALE == 0 && i64::MIN <= self.units / SCALE <= i64::MAX {
                Some((self.units / SCALE) as i64)
            } else {
                None
            }),
    {
        if self.units % SCALE == 0 && self.units / SCALE >= i64::MIN as i128 && self.units / SCALE
            <= i64::MAX as i128 {
            Some((self.units / SCALE) as i64)
        } else {
            None
        }
    }

    /// Appends the decimal text of the number.
    #[verifier::rlimit(40)]
    pub fn write_text(self, out: &mut Vec<char>)
        ensures
            final(out)@ == old(out)@ + num_text(self.units as int),
    {
        let m: u128 = if self.units < 0 {
            (-(self.units + 1)) as u128 + 1
        } else {
            self.units as u128
        };
        let ghost start = old(out)@;
        if self.units < 0 {
            out.push('-');
        }
        let ghost sign = if self.units < 0 { seq!['-'] } else { Seq::<char>::empty() };
        assert(out@ == start + sign);
        push_nat(out, m / (SCALE as u128));
        let frac = m % (SCALE as u128);
        if frac != 0 {
            out.push('.');
            let base = out.len();
            push_width(out, frac, 9);
            let ghost full = out@.skip(base as int);
            assert(full =~= digits_width(frac as nat, 9));
            while out.len() > base && out[out.len() - 1] == '0'
                invariant
                    base <= out.len(),
                    out@.subrange(0, base as int) == start + sign + nat_text((m / (SCALE as u128)) as nat) + seq!['.'],
                    strip_zeros(out@.skip(base as int)) == strip_zeros(full),
                decreases out.len(),
            {
                let ghost before = out@;
                out.pop();
                proof {
                    assert(out@.skip(base as int) =~= before.skip(base as int).drop_last());
                    assert(out@.subrange(0, base as int) =~= before.subrange(0, base as int));
                }
            }
            proof {
                assert(out@ =~= out@.subrange(0, base as int) + out@.skip(base as int));
                assert(strip_zeros(out@.skip(base as int)) == out@.skip(base as int));
                assert(out@ =~= start + num_text(self.units as int));
            }
        } else {
            assert(out@ =~= start + num_text(self.units as int));
        }
    }

    /// The decimal text of the number.
    pub fn to_text(self) -> (r: String)
        ensures
            r@ == num_text(self.units as int),
    {
        let mut out: Vec<char> = Vec::new();
        self.write_text(&mut out);
        assert(out@ =~= num_text(self.units as int));
        string_of(out.as_slice())
    }
}

proof fn lemma_exp_index(s: Seq<char>)
    ensures
        0 <= exp_index(s) <= s.len(),
        exp_index(s) < s.len() ==> (s[exp_index(s)] == 'e' || s[exp_index(s)] == 'E'),
        forall|i: int| 0 <= i < exp_index(s) ==> s[i] != 'e' && s[i] != 'E',
    decreases s.len(),
{
    if s.len() > 0 && s[0] != 'e' && s[0] != 'E' {
        lemma_exp_index(s.drop_first());
        assert forall|i: int| 0 <= i < exp_index(s) implies s[i] != 'e' && s[i] != 'E' by {
            if i > 0 {
                assert(s[i] == s.drop_first()[i - 1]);
            }
        }
    }
}

proof fn lemma_exp_index_unique(s: Seq<char>, d: int)
    requires
        0 <= d <= s.len(),
        d < s.len() ==> (s[d] == 'e' || s[d] == 'E'),
        forall|i: int| 0 <= i < d ==> s[i] != 'e' && s[i] != 'E',
    ensures
        exp_index(s) == d,
    decreases s.len(),
{
    if s.len() > 0 && s[0] != 'e' && s[0] != 'E' {
        assert forall|i: int| 0 <= i < d - 1 implies s.drop_first()[i] != 'e' && s.drop_first()[i] != 'E' by {
            assert(s[i + 1] == s.drop_first()[i]);
        }
        lemma_exp_index_unique(s.drop_first(), d - 1);
    }
}

proof fn lemma_pow10_mono(a: nat, b: nat)
    requires
        a <= b,
    ensures
        pow10(a) <= pow10(b),
    decreases b,
{
    if a < b {
        lemma_pow10_mono(a, (b - 1) as nat);
        lemma_pow10_pos((b - 1) as nat);
    }
}

/// The exponent's digits read with saturation: the value, or 101 once it passes 100.
fn read_exponent(c: &Vec<char>, start: usize) -> (r: Option<i32>)
    requires
        start <= c.len(),
    ensures
        r.is_some() == exponent_value(c@.skip(start as int)).is_some(),
        r.is_some() ==> {
            let e = exponent_value(c@.skip(start as int)).unwrap();
            &&& -101 <= r.unwrap() <= 101
            &&& (-100 <= e <= 100 ==> r.unwrap() == e)
            &&& (e > 100 ==> r.unwrap() == 101)
            &&& (e < -100 ==> r.unwrap() == -101)
        },
{
    let ghost t = c@.skip(start as int);
    let mut i: usize = start;
    let mut neg = false;
    if i < c.len() && (c[i] == '-' || c[i] == '+') {
        neg = c[i] == '-';
        i = i + 1;
    }
    let ghost d = c@.skip(i as int);
    proof {
        if i > start {
            assert(t.drop_first() =~= d);
        } else {
            assert(t =~= d);
        }
    }
    let first = i;
    let mut acc: i32 = 0;
    while i < c.len() && '0' <= c[i] && c[i] <= '9'
        invariant
            first <= i <= c.len(),
            all_digits(c@.subrange(first as int, i as int)),
            0 <= acc <= 101,
            acc as int == if digits_value(c@.subrange(first as int, i as int)) > 100 {
                101
            } else {
                digits_value(c@.subrange(first as int, i as int))
            },
        decreases c.len() - i,
    {
        let dg = (c[i] as u32 - '0' as u32) as i32;
        proof {
            assert(c@.subrange(first as int, i + 1).drop_last() =~= c@.subrange(first as int, i as int));
            lemma_digits_value_nonneg(c@.subrange(first as int, i as int));
        }
        acc = if acc > 100 { 101 } else if acc * 10 + dg > 100 { 101 } else { acc * 10 + dg };
        i = i + 1;
    }
    if i < c.len() || i == first {
        proof {
            if i < c.len() {
                assert(d[i - first] == c@[i as int]);
            }
        }
        return None;
    }
    proof {
        assert(c@.subrange(first as int, i as int) =~= d);
        if t.len() > 0 {
            assert(t[0] == c@[start as int]);
        }
        lemma_digits_value_nonneg(d);
    }
    if neg { Some(-acc) } else { Some(acc) }
}

/// `m` shifted `e` places (`-101 <= e <= 101`), when the result stays in range.
fn shift_exec(m: i128, e: i32) -> (r: Option<i128>)
    requires
        0 <= m <= MAX_UNITS,
        -101 <= e <= 101,
    ensures
        r.is_some() == (shift(m as int, e as int) <= MAX_UNITS),
        r.is_some() ==> r.unwrap() as int == shift(m as int, e as int),
{
    if e >= 0 {
        let mut k: i32 = 0;
        let mut v: i128 = m;
        while k < e
            invariant
                0 <= k <= e,
                0 <= m <= MAX_UNITS,
                v as int == (m as int) * pow10(k as nat),
                0 <= v <= MAX_UNITS,
            decreases e - k,
        {
            proof {
                assert(pow10((k + 1) as nat) == 10 * pow10(k as nat));
                assert(m * pow10((k + 1) as nat) == 10 * (m * pow10(k as nat))) by (nonlinear_arith)
                    requires
                        pow10((k + 1) as nat) == 10 * pow10(k as nat),
                ;
            }
            if v > MAX_UNITS / 10 {
                proof {
                    assert(v * 10 > MAX_UNITS);
                    lemma_pow10_mono((k + 1) as nat, e as nat);
                    lemma_pow10_pos((k + 1) as nat);
                    assert(m * pow10((k + 1) as nat) <= m * pow10(e as nat)) by (nonlinear_arith)
                        requires
                            0 <= m,
                            pow10((k + 1) as nat) <= pow10(e as nat),
                    ;
                }
                return None;
            }
            v = v * 10;
            k = k + 1;
        }
        Some(v)
    } else {
        let mut k: i32 = 0;
        let mut v: i128 = m;
        while k < -e
            invariant
                -101 <= e < 0,
                0 <= m <= MAX_UNITS,
                0 <= k <= -e,
                v as int == (m as int) / pow10(k as nat),
                0 <= v <= m,
            decreases -e - k,
        {
            proof {
                lemma_pow10_pos(k as nat);
                assert(pow10((k + 1) as nat) == pow10(k as nat) * 10);
                vstd::arithmetic::div_mod::lemma_div_denominator(m as int, pow10(k as nat), 10);
                vstd::arithmetic::div_mod::lemma_div_pos_is_pos(v as int, 10);
                vstd::arithmetic::div_mod::lemma_div_is_ordered_by_denominator(v as int, 1, 10);
            }
            v = v / 10;
            k = k + 1;
        }
        Some(v)
    }
}

proof fn lemma_saturated_shift(m: int, e: int, es: int)
    requires
        0 <= m,
        m <= WHOLE_LIMIT * SCALE + SCALE,
        (e > 100 && es == 101) || (e < -100 && es == -101),
    ensures
        (shift(m, e) <= MAX_UNITS) == (shift(m, es) <= MAX_UNITS),
        shift(m, e) <= MAX_UNITS ==> shift(m, e) == shift(m, es),
{
    lemma_pow10_9();
    reveal_with_fuel(pow10, 31);
    assert(pow10(30) == 1_000_000_000_000_000_000_000_000_000_000);
    if e > 100 {
        lemma_pow10_mono(31, e as nat);
        lemma_pow10_mono(31, 101);
        if m > 0 {
            assert(m * pow10(e as nat) >= pow10(e as nat)) by (nonlinear_arith)
                requires m >= 1, pow10(e as nat) >= 0;
            assert(m * pow10(101) >= pow10(101)) by (nonlinear_arith)
                requires m >= 1, pow10(101) >= 0;
        } else {
            assert(m * pow10(e as nat) == 0) by (nonlinear_arith)
                requires m == 0;
            assert(m * pow10(101) == 0) by (nonlinear_arith)
                requires m == 0;
        }
    } else {
        lemma_pow10_mono(30, (-e) as nat);
        lemma_pow10_mono(30, 101);
        vstd::arithmetic::div_mod::lemma_basic_div(m as int, pow10((-e) as nat));
        vstd::arithmetic::div_mod::lemma_basic_div(m as int, pow10(101));
    }
}

impl Num {
    /// The number that `s` denotes, if any; see the module's description of the forms read.
    pub fn parse(s: &str) -> (r: Option<Num>)
        ensures
            r.is_some() == text_units(s@).is_some(),
            r.is_some() ==> r.unwrap().units as int == text_units(s@).unwrap(),
            r.is_some() ==> r.unwrap().wf(),
    {
        let c = chars_of(s);
        let mut x: usize = 0;
        while x < c.len() && c[x] != 'e' && c[x] != 'E'
            invariant
                x <= c.len(),
                forall|i: int| 0 <= i < x ==> c@[i] != 'e' && c@[i] != 'E',
            decreases c.len() - x,
        {
            x = x + 1;
        }
        proof {
            lemma_exp_index_unique(c@, x as int);
            lemma_text_units_range(c@);
            lemma_text_units_range(c@.take(x as int));
        }
        if x == c.len() {
            return match Num::read_decimal(&c) {
                Some(u) => Some(Num { units: u }),
                None => None,
            };
        }
        let mut mant: Vec<char> = Vec::new();
        let mut i: usize = 0;
        while i < x
            invariant
                i <= x < c.len(),
                mant@ == c@.take(i as int),
            decreases x - i,
        {
            mant.push(c[i]);
            i = i + 1;
            assert(mant@ =~= c@.take(i as int));
        }
        let u = match Num::read_decimal(&mant) {
            Some(u) => u,
            None => {
                return None;
            },
        };
        let e = match read_exponent(&c, x + 1) {
            Some(e) => e,
            None => {
                return None;
            },
        };
        let m: i128 = if u < 0 { -u } else { u };
        proof {
            let ev = exponent_value(c@.skip(x + 1)).unwrap();
            assert(mant@ == c@.take(x as int));
            if ev > 100 || ev < -100 {
                lemma_saturated_shift(m as int, ev, e as int);
            }
            lemma_pow10_pos(if ev >= 0 { ev as nat } else { (-ev) as nat });
            assert(shift(m as int, ev) >= 0) by {
                if ev >= 0 {
                    assert((m as int) * pow10(ev as nat) >= 0) by (nonlinear_arith)
                        requires m >= 0, pow10(ev as nat) >= 1;
                } else {
                    vstd::arithmetic::div_mod::lemma_div_pos_is_pos(m as int, pow10((-ev) as nat));
                }
            }
            assert(abs(scale_units(u as int, ev)) == shift(m as int, ev));
        }
        match shift_exec(m, e) {
            Some(v) => if u < 0 { Some(Num { units: -v }) } else { Some(Num { units: v }) },
            None => None,
        }
    }
}

} // verus!
