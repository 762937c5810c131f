//! A signed fixed-point monetary value with four decimal digits of
//! precision, stored as an integer number of 1/10,000 units.

use vstd::prelude::*;

verus! {

/// A monetary amount, counted in units of 1/10,000.
///
/// All arithmetic is exact integer arithmetic on the scaled value;
/// operations that would overflow the underlying integer are rejected
/// (they return `None`) rather than wrapping or saturating.
#[derive(Clone, Copy, PartialEq, Eq, Structural, Debug)]
pub struct Amount {
    units: i64,
}

impl View for Amount {
    type V = int;

    closed spec fn view(&self) -> int {
        self.units as int
    }
}

impl Amount {
    /// The zero amount.
    pub fn zero() -> (r: Amount)
        ensures
            r@ == 0,
    {
        Amount { units: 0 }
    }

    /// The raw number of 1/10,000 units.
    pub fn units(&self) -> (r: i64)
        ensures
            r == self@,
    {
        self.units
    }

    /// An amount holding exactly `units` 1/10,000 units.
    pub fn from_units(units: i64) -> (r: Amount)
        ensures
            r@ == units,
    {
        Amount { units }
    }

    /// Exact sum, or `None` if it does not fit the underlying integer.
    pub fn checked_add(self, other: Amount) -> (r: Option<Amount>)
        ensures
            i64::MIN <= self@ + other@ <= i64::MAX ==> (r matches Some(a) && a@ == self@ + other@),
            !(i64::MIN <= self@ + other@ <= i64::MAX) ==> r is None,
    {
        match self.units.checked_add(other.units) {
            Some(u) => Some(Amount { units: u }),
            None => None,
        }
    }

    /// Exact difference, or `None` if it does not fit the underlying integer.
    pub fn checked_sub(self, other: Amount) -> (r: Option<Amount>)
        ensures
            i64::MIN <= self@ - other@ <= i64::MAX ==> (r matches Some(a) && a@ == self@ - other@),
            !(i64::MIN <= self@ - other@ <= i64::MAX) ==> r is None,
    {
        match self.units.checked_sub(other.units) {
            Some(u) => Some(Amount { units: u }),
            None => None,
        }
    }

    /// Strict order on the underlying scaled value.
    pub fn lt(&self, other: &Amount) -> (r: bool)
        ensures
            r == (self@ < other@),
    {
        self.units < other.units
    }
}

/// Whether `c` is a decimal digit.
pub open spec fn is_digit(c: char) -> bool {
    ||| c == '0'
    ||| c == '1'
    ||| c == '2'
    ||| c == '3'
    ||| c == '4'
    ||| c == '5'
    ||| c == '6'
    ||| c == '7'
    ||| c == '8'
    ||| c == '9'
}

/// The value of a decimal digit (0 for any other character).
pub open spec fn digit_val(c: char) -> int {
    if c == '1' {
        1
    } else if c == '2' {
        2
    } else if c == '3' {
        3
    } else if c == '4' {
        4
    } else if c == '5' {
        5
    } else if c == '6' {
        6
    } else if c == '7' {
        7
    } else if c == '8' {
        8
    } else if c == '9' {
        9
    } else {
        0
    }
}

/// The decimal digit with value `d` (for `0 <= d <= 9`).
pub open spec fn digit_char(d: int) -> char {
    if d == 1 {
        '1'
    } else if d == 2 {
        '2'
    } else if d == 3 {
        '3'
    } else if d == 4 {
        '4'
    } else if d == 5 {
        '5'
    } else if d == 6 {
        '6'
    } else if d == 7 {
        '7'
    } else if d == 8 {
        '8'
    } else if d == 9 {
        '9'
    } else {
        '0'
    }
}

/// Whether every character of `s` is a decimal digit.
pub open spec fn all_digits(s: Seq<char>) -> bool {
    forall|i: int| 0 <= i < s.len() ==> is_digit(#[trigger] s[i])
}

/// The number a string of decimal digits stands for.
pub open spec fn digits_val(s: Seq<char>) -> int
    decreases s.len(),
{
    if s.len() == 0 {
        0
    } else {
        digits_val(s.drop_last()) * 10 + digit_val(s.last())
    }
}

/// The position of the first `'.'` in `s`, or `s.len()` if there is
/// none.
pub open spec fn first_dot(s: Seq<char>) -> int
    decreases s.len(),
{
    if s.len() == 0 {
        0
    } else if s[0] == '.' {
        0
    } else {
        1 + first_dot(s.drop_first())
    }
}

/// Ten to the `n`.
pub open spec fn pow10(n: nat) -> int
    decreases n,
{
    if n == 0 {
        1
    } else {
        10 * pow10((n - 1) as nat)
    }
}

/// The number of 1/10,000 units a fractional digit string stands for:
/// the first four digits, padded with zeros on the right, rounded up by
/// one when the fifth digit is five or more (round half up on the
/// magnitude).
pub open spec fn frac_units(fp: Seq<char>) -> int {
    if fp.len() >= 4 {
        digits_val(fp.take(4)) + (if fp.len() > 4 && digit_val(fp[4]) >= 5 {
            1int
        } else {
            0int
        })
    } else {
        digits_val(fp) * pow10((4 - fp.len()) as nat)
    }
}

/// The scaled value an unsigned decimal string stands for: one or more
/// integer digits, optionally followed by `'.'` and one or more
/// fractional digits; anything else is rejected.
pub open spec fn parse_unsigned(s: Seq<char>) -> Option<int> {
    let d = first_dot(s);
    let ip = s.take(d);
    if ip.len() == 0 || !all_digits(ip) {
        None
    } else if d == s.len() {
        Some(digits_val(ip) * 10000)
    } else {
        let fp = s.skip(d + 1);
        if fp.len() == 0 || !all_digits(fp) {
            None
        } else {
            Some(digits_val(ip) * 10000 + frac_units(fp))
        }
    }
}

/// The scaled value a decimal string stands for, with an optional
/// leading minus sign.
pub open spec fn parse_amount(s: Seq<char>) -> Option<int> {
    if s.len() > 0 && s[0] == '-' {
        match parse_unsigned(s.drop_first()) {
            Some(v) => Some(-v),
            None => None,
        }
    } else {
        parse_unsigned(s)
    }
}

/// The canonical digit string of `n >= 0`: no leading zero except for
/// `n == 0` itself.
pub open spec fn digits_of(n: int) -> Seq<char>
    decreases n,
{
    if n <= 9 {
        seq![digit_char(n)]
    } else {
        digits_of(n / 10).push(digit_char(n % 10))
    }
}

/// The four fractional digits of `0 <= f < 10000`.
pub open spec fn frac4(f: int) -> Seq<char> {
    seq![
        digit_char(f / 1000),
        digit_char((f / 100) % 10),
        digit_char((f / 10) % 10),
        digit_char(f % 10),
    ]
}

/// The canonical four-decimal-digit string of an unsigned scaled value.
pub open spec fn format_unsigned(u: int) -> Seq<char> {
    digits_of(u / 10000) + seq!['.'] + frac4(u % 10000)
}

/// The canonical four-decimal-digit string of a scaled value.
pub open spec fn format_units(v: int) -> Seq<char> {
    if v < 0 {
        seq!['-'] + format_unsigned(-v)
    } else {
        format_unsigned(v)
    }
}

proof fn lemma_digits_val_nonneg(s: Seq<char>)
    ensures
        digits_val(s) >= 0,
    decreases s.len(),
{
    if s.len() > 0 {
        lemma_digits_val_nonneg(s.drop_last());
    }
}

proof fn lemma_digits_val_take(s: Seq<char>, k: int)
    requires
        0 <= k <= s.len(),
    ensures
        digits_val(s.take(k)) <= digits_val(s),
    decreases s.len(),
{
    if k < s.len() {
        assert(s.drop_last().take(k) =~= s.take(k));
        lemma_digits_val_take(s.drop_last(), k);
        lemma_digits_val_nonneg(s.drop_last());
    } else {
        assert(s.take(k) =~= s);
    }
}

proof fn lemma_digits_val_push(s: Seq<char>, c: char)
    ensures
        digits_val(s.push(c)) == digits_val(s) * 10 + digit_val(c),
{
    assert(s.push(c).drop_last() =~= s);
}

proof fn lemma_digits_of_val(n: int)
    requires
        n >= 0,
    ensures
        digits_of(n).len() >= 1,
        all_digits(digits_of(n)),
        digits_val(digits_of(n)) == n,
    decreases n,
{
    if n <= 9 {
        assert(digits_val(seq![digit_char(n)].drop_last()) == 0) by {
            assert(seq![digit_char(n)].drop_last() =~= Seq::<char>::empty());
        }
    } else {
        lemma_digits_of_val(n / 10);
        lemma_digits_val_push(digits_of(n / 10), digit_char(n % 10));
        assert forall|i: int| 0 <= i < digits_of(n).len() implies is_digit(
            #[trigger] digits_of(n)[i],
        ) by {
            if i < digits_of(n / 10).len() {
                assert(digits_of(n)[i] == digits_of(n / 10)[i]);
            }
        }
    }
}

proof fn lemma_first_dot_bounds(s: Seq<char>)
    ensures
        0 <= first_dot(s) <= s.len(),
        forall|j: int| 0 <= j < first_dot(s) ==> s[j] != '.',
        first_dot(s) < s.len() ==> s[first_dot(s)] == '.',
    decreases s.len(),
{
    if s.len() > 0 && s[0] != '.' {
        lemma_first_dot_bounds(s.drop_first());
        assert forall|j: int| 0 <= j < first_dot(s) implies s[j] != '.' by {
            if j > 0 {
                assert(s.drop_first()[j - 1] == s[j]);
            }
        }
    }
}

proof fn lemma_first_dot_at(s: Seq<char>, k: int)
    requires
        0 <= k <= s.len(),
        forall|j: int| 0 <= j < k ==> s[j] != '.',
        k < s.len() ==> s[k] == '.',
    ensures
        first_dot(s) == k,
{
    lemma_first_dot_bounds(s);
    if first_dot(s) < k {
        assert(s[first_dot(s)] == '.');
    }
    if first_dot(s) > k && k < s.len() {
        assert(s[k] != '.');
    }
}

proof fn lemma_digits_val_upto4(s: Seq<char>)
    requires
        1 <= s.len() <= 4,
    ensures
        s.len() == 1 ==> digits_val(s) == digit_val(s[0]),
        s.len() == 2 ==> digits_val(s) == digit_val(s[0]) * 10 + digit_val(s[1]),
        s.len() == 3 ==> digits_val(s) == (digit_val(s[0]) * 10 + digit_val(s[1])) * 10
            + digit_val(s[2]),
        s.len() == 4 ==> digits_val(s) == ((digit_val(s[0]) * 10 + digit_val(s[1])) * 10
            + digit_val(s[2])) * 10 + digit_val(s[3]),
    decreases s.len(),
{
    if s.len() == 1 {
        assert(s.drop_last() =~= Seq::<char>::empty());
        assert(digits_val(Seq::<char>::empty()) == 0);
    } else {
        lemma_digits_val_upto4(s.drop_last());
        assert(s.last() == s[s.len() - 1]);
        assert forall|j: int| 0 <= j < s.len() - 1 implies s.drop_last()[j] == s[j] by {}
    }
}

/// Parsing its own canonical four-decimal-digit form gives an amount's
/// scaled value back, for every scaled value: formatting loses nothing
/// and parsing is its exact inverse.
pub proof fn lemma_decimal_round_trip(v: int)
    ensures
        parse_amount(format_units(v)) == Some(v),
{
    if v < 0 {
        let s = seq!['-'] + format_unsigned(-v);
        assert(s[0] == '-');
        assert(s.drop_first() =~= format_unsigned(-v));
        lemma_parse_format_unsigned(-v);
    } else {
        let s = format_unsigned(v);
        lemma_parse_format_unsigned(v);
        assert(s[0] != '-') by {
            lemma_digits_of_val(v / 10000);
            assert(s[0] == digits_of(v / 10000)[0]);
            assert(is_digit(s[0]));
        }
    }
}

proof fn lemma_parse_format_unsigned(u: int)
    requires
        u >= 0,
    ensures
        parse_unsigned(format_unsigned(u)) == Some(u),
{
    let hi = u / 10000;
    let lo = u % 10000;
    let ds = digits_of(hi);
    let fs = frac4(lo);
    let s = ds + seq!['.'] + fs;
    lemma_digits_of_val(hi);
    assert forall|j: int| 0 <= j < ds.len() implies s[j] != '.' by {
        assert(s[j] == ds[j]);
        assert(is_digit(ds[j]));
    }
    assert(s[ds.len() as int] == '.');
    lemma_first_dot_at(s, ds.len() as int);
    let ip = s.take(ds.len() as int);
    assert(ip =~= ds);
    let fp = s.skip(ds.len() as int + 1);
    assert(fp =~= fs);
    assert(0 <= lo < 10000);
    assert(all_digits(fs)) by {
        assert(is_digit(digit_char(lo / 1000)));
        assert(is_digit(digit_char((lo / 100) % 10)));
        assert(is_digit(digit_char((lo / 10) % 10)));
        assert(is_digit(digit_char(lo % 10)));
    }
    assert(fp.len() == 4);
    assert(fp.take(4) =~= fs);
    lemma_digits_val_upto4(fs);
    assert(digits_val(fs) == ((lo / 1000 * 10 + (lo / 100) % 10) * 10 + (lo / 10) % 10) * 10 + lo
        % 10) by {
        assert(0 <= lo / 1000 <= 9);
        assert(digit_val(digit_char(lo / 1000)) == lo / 1000);
    }
    assert(((lo / 1000 * 10 + (lo / 100) % 10) * 10 + (lo / 10) % 10) * 10 + lo % 10 == lo);
    assert(frac_units(fp) == lo);
    assert(digits_val(ip) == hi);
    assert(hi * 10000 + lo == u);
}

proof fn lemma_pow10_pos(n: nat)
    ensures
        pow10(n) >= 1,
    decreases n,
{
    if n > 0 {
        lemma_pow10_pos((n - 1) as nat);
    }
}

proof fn lemma_frac_units_nonneg(fp: Seq<char>)
    ensures
        frac_units(fp) >= 0,
{
    if fp.len() >= 4 {
        lemma_digits_val_nonneg(fp.take(4));
    } else {
        lemma_digits_val_nonneg(fp);
        lemma_pow10_pos((4 - fp.len()) as nat);
        assert(digits_val(fp) * pow10((4 - fp.len()) as nat) >= 0) by (nonlinear_arith)
            requires
                digits_val(fp) >= 0,
                pow10((4 - fp.len()) as nat) >= 1,
        ;
    }
}

/// If the digit string read so far already exceeds the representable
/// magnitude, any successfully parsed value is out of range.
proof fn lemma_parse_magnitude(s: Seq<char>, start: int, upto: int, bound: int)
    requires
        0 <= start <= upto,
        s.len() > 0,
        start == if s[0] == '-' {
            1int
        } else {
            0int
        },
        upto - start <= first_dot(s.skip(start)),
        digits_val(s.skip(start).take(upto - start)) > bound,
        bound >= 0,
    ensures
        parse_amount(s) matches Some(v) ==> (v > bound || v < -bound),
{
    let t = s.skip(start);
    let ip = t.take(first_dot(t));
    lemma_first_dot_bounds(t);
    if s[0] == '-' {
        assert(s.drop_first() =~= t);
    } else {
        assert(t =~= s);
    }
    if parse_amount(s) is Some {
        assert(parse_unsigned(t) is Some);
        assert(ip.take(upto - start) =~= t.take(upto - start));
        lemma_digits_val_take(ip, upto - start);
        assert(digits_val(ip) > bound);
        let vu = match parse_unsigned(t) {
            Some(v) => v,
            None => 0,
        };
        if first_dot(t) == t.len() {
            assert(vu == digits_val(ip) * 10000);
        } else {
            lemma_frac_units_nonneg(t.skip(first_dot(t) + 1));
        }
        assert(vu >= digits_val(ip)) by (nonlinear_arith)
            requires
                digits_val(ip) > 0,
                vu >= digits_val(ip) * 10000,
        ;
    }
}

fn char_digit(c: char) -> (r: Option<u8>)
    ensures
        match r {
            Some(d) => is_digit(c) && d as int == digit_val(c) && d <= 9,
            None => !is_digit(c),
        },
{
    match c {
        '0' => Some(0),
        '1' => Some(1),
        '2' => Some(2),
        '3' => Some(3),
        '4' => Some(4),
        '5' => Some(5),
        '6' => Some(6),
        '7' => Some(7),
        '8' => Some(8),
        '9' => Some(9),
        _ => None,
    }
}

fn digit_to_char(d: u8) -> (c: char)
    requires
        d <= 9,
    ensures
        c == digit_char(d as int),
{
    match d {
        0 => '0',
        1 => '1',
        2 => '2',
        3 => '3',
        4 => '4',
        5 => '5',
        6 => '6',
        7 => '7',
        8 => '8',
        _ => '9',
    }
}

fn digit_at(s: &str, k: usize) -> (d: u8)
    requires
        k < s@.len(),
        is_digit(s@[k as int]),
    ensures
        d as int == digit_val(s@[k as int]),
        d <= 9,
{
    match char_digit(s.get_char(k)) {
        Some(x) => x,
        None => {
            proof {
                assert(false);
            }
            0
        },
    }
}

/// Relies on String::push: it appends the one given character at the
/// end of the string.
#[verifier::external_body]
fn push_char(s: &mut String, c: char)
    ensures
        final(s)@ == old(s)@ + seq![c],
{
    s.push(c);
}

impl Amount {
    /// Parse a decimal string — an optional minus sign, one or more
    /// integer digits, optionally a dot and one or more fractional
    /// digits — rounding to the nearest 1/10,000 unit, half away from
    /// zero. Malformed input, and any value whose scaled magnitude
    /// exceeds the underlying integer's maximum, gives `None`.
    #[verifier::loop_isolation(false)]
    #[verifier::rlimit(100)]
    pub fn from_decimal_str(s: &str) -> (r: Option<Amount>)
        ensures
            ({
                let p = parse_amount(s@);
                match r {
                    Some(a) => p == Some(a@) && -(i64::MAX as int) <= a@ <= i64::MAX as int,
                    None => p is None || (p matches Some(v) && !(-(i64::MAX as int) <= v
                        <= i64::MAX as int)),
                }
            }),
    {
        let len: usize = s.unicode_len();
        if len == 0 {
            return None;
        }
        let neg = s.get_char(0) == '-';
        let start: usize = if neg {
            1
        } else {
            0
        };
        let ghost t = s@.skip(start as int);
        proof {
            if neg {
                assert(s@.drop_first() =~= t);
            } else {
                assert(t =~= s@);
            }
        }
        // locate the dot, if any
        let mut d: usize = start;
        while d < len && s.get_char(d) != '.'
            invariant
                start <= d <= len,
                forall|j: int| start <= j < d ==> s@[j] != '.',
            decreases len - d,
        {
            d += 1;
        }
        proof {
            assert forall|j: int| 0 <= j < d - start implies t[j] != '.' by {
                assert(t[j] == s@[j + start]);
            }
            if d < len {
                assert(t[d - start] == s@[d as int]);
            }
            lemma_first_dot_at(t, d - start);
        }
        if d == start {
            proof {
                assert(t.take(first_dot(t)).len() == 0);
            }
            return None;
        }
        // integer part
        let mut i: usize = start;
        let mut mag: u64 = 0;
        while i < d
            invariant
                start <= i <= d,
                forall|j: int| start <= j < i ==> is_digit(s@[j]),
                mag == digits_val(s@.subrange(start as int, i as int)),
            decreases d - i,
        {
            let c = s.get_char(i);
            let dg = match char_digit(c) {
                Some(x) => x,
                None => {
                    proof {
                        let ip = t.take(first_dot(t));
                        assert(ip[i - start] == s@[i as int]);
                        assert(!all_digits(ip));
                    }
                    return None;
                },
            };
            let ghost pre = s@.subrange(start as int, i as int);
            proof {
                lemma_digits_val_push(pre, s@[i as int]);
                assert(pre.push(s@[i as int]) =~= s@.subrange(start as int, i + 1));
                lemma_digits_val_nonneg(pre);
            }
            let m10 = match mag.checked_mul(10) {
                Some(x) => x,
                None => {
                    proof {
                        assert(t.take(i + 1 - start) =~= s@.subrange(start as int, i + 1));
                        lemma_parse_magnitude(s@, start as int, i + 1, i64::MAX as int);
                    }
                    return None;
                },
            };
            mag = match m10.checked_add(dg as u64) {
                Some(x) => x,
                None => {
                    proof {
                        assert(t.take(i + 1 - start) =~= s@.subrange(start as int, i + 1));
                        lemma_parse_magnitude(s@, start as int, i + 1, i64::MAX as int);
                    }
                    return None;
                },
            };
            i += 1;
        }
        proof {
            assert(t.take(first_dot(t)) =~= s@.subrange(start as int, d as int));
            assert(all_digits(t.take(first_dot(t))));
            if neg {
                assert(s@.drop_first() =~= t);
            } else {
                assert(t =~= s@);
            }
        }
        if d == len {
            // no fractional part
            let total = match mag.checked_mul(10000) {
                Some(x) => x,
                None => {
                    proof {
                        lemma_no_frac_value(t, mag as int);
                    }
                    return None;
                },
            };
            if total > i64::MAX as u64 {
                proof {
                    lemma_no_frac_value(t, mag as int);
                }
                return None;
            }
            proof {
                lemma_no_frac_value(t, mag as int);
            }
            let units: i64 = total as i64;
            if neg {
                return Some(Amount { units: -units });
            }
            return Some(Amount { units });
        }
        // fractional part
        if d + 1 == len {
            proof {
                assert(t.skip(first_dot(t) + 1).len() == 0);
            }
            return None;
        }
        let mut j: usize = d + 1;
        while j < len
            invariant
                d + 1 <= j <= len,
                forall|k: int| d + 1 <= k < j ==> is_digit(s@[k]),
            decreases len - j,
        {
            match char_digit(s.get_char(j)) {
                Some(_) => {},
                None => {
                    proof {
                        let fp = t.skip(first_dot(t) + 1);
                        assert(fp[j - d - 1] == s@[j as int]);
                        assert(!all_digits(fp));
                    }
                    return None;
                },
            }
            j += 1;
        }
        let ghost fp = t.skip(first_dot(t) + 1);
        proof {
            assert(fp =~= s@.subrange(d + 1, len as int));
            assert(all_digits(fp));
        }
        let flen: usize = len - d - 1;
        let mut frac: u64 = (digit_at(s, d + 1) as u64) * 1000;
        if flen >= 2 {
            frac = frac + (digit_at(s, d + 2) as u64) * 100;
        }
        if flen >= 3 {
            frac = frac + (digit_at(s, d + 3) as u64) * 10;
        }
        if flen >= 4 {
            frac = frac + digit_at(s, d + 4) as u64;
        }
        if flen >= 5 {
            if digit_at(s, d + 5) >= 5 {
                frac = frac + 1;
            }
        }
        proof {
            reveal_with_fuel(pow10, 5);
            assert(fp.len() == flen);
            if flen == 1 {
                lemma_digits_val_upto4(fp);
                assert(pow10((4 - fp.len()) as nat) == 1000);
                assert(frac == digit_val(fp[0]) * 1000);
            } else if flen == 2 {
                lemma_digits_val_upto4(fp);
                assert(pow10((4 - fp.len()) as nat) == 100);
                assert(frac == digit_val(fp[0]) * 1000 + digit_val(fp[1]) * 100);
                assert((digit_val(fp[0]) * 10 + digit_val(fp[1])) * 100 == digit_val(fp[0]) * 1000
                    + digit_val(fp[1]) * 100);
            } else if flen == 3 {
                lemma_digits_val_upto4(fp);
                assert(pow10((4 - fp.len()) as nat) == 10);
                assert(frac == digit_val(fp[0]) * 1000 + digit_val(fp[1]) * 100 + digit_val(fp[2])
                    * 10);
                assert(((digit_val(fp[0]) * 10 + digit_val(fp[1])) * 10 + digit_val(fp[2])) * 10
                    == digit_val(fp[0]) * 1000 + digit_val(fp[1]) * 100 + digit_val(fp[2]) * 10);
            } else {
                assert(fp.take(4) =~= seq![s@[d + 1], s@[d + 2], s@[d + 3], s@[d + 4]]);
                lemma_digits_val_upto4(fp.take(4));
                assert(digits_val(fp.take(4)) == ((digit_val(fp[0]) * 10 + digit_val(fp[1])) * 10
                    + digit_val(fp[2])) * 10 + digit_val(fp[3]));
                if flen > 4 {
                    assert(fp[4] == s@[d + 5]);
                }
            }
            assert(frac == frac_units(fp));
        }
        let total = match mag.checked_mul(10000) {
            Some(x) => x,
            None => {
                proof {
                    lemma_with_frac_value(t, mag as int, frac as int);
                }
                return None;
            },
        };
        let total = match total.checked_add(frac) {
            Some(x) => x,
            None => {
                proof {
                    lemma_with_frac_value(t, mag as int, frac as int);
                }
                return None;
            },
        };
        if total > i64::MAX as u64 {
            proof {
                lemma_with_frac_value(t, mag as int, frac as int);
            }
            return None;
        }
        proof {
            lemma_with_frac_value(t, mag as int, frac as int);
        }
        let units: i64 = total as i64;
        if neg {
            Some(Amount { units: -units })
        } else {
            Some(Amount { units })
        }
    }

    /// The canonical four-decimal-digit form of this amount: an
    /// optional minus sign, the integer part with no leading zeros, a
    /// dot, and exactly four fractional digits.
    #[verifier::loop_isolation(false)]
    #[verifier::rlimit(100)]
    pub fn to_decimal_string(&self) -> (r: String)
        ensures
            r@ == format_units(self@),
    {
        let mut out = String::new();
        let neg = self.units < 0;
        let mag: u64 = if self.units < 0 {
            ((-(self.units + 1)) as u64) + 1
        } else {
            self.units as u64
        };
        let ghost sign = if neg {
            seq!['-']
        } else {
            Seq::<char>::empty()
        };
        if neg {
            push_char(&mut out, '-');
        }
        proof {
            assert(out@ =~= sign);
        }
        let ip: u64 = mag / 10000;
        let fp: u64 = mag % 10000;
        let mut digits: Vec<char> = Vec::new();
        if ip == 0 {
            digits.push('0');
            proof {
                assert(digits@.reverse() =~= seq!['0']);
            }
        } else {
            let mut rest: u64 = ip;
            while rest > 0
                invariant
                    0 <= rest <= ip,
                    rest > 0 ==> digits_of(ip as int) == digits_of(rest as int)
                        + digits@.reverse(),
                    rest == 0 ==> digits_of(ip as int) == digits@.reverse(),
                decreases rest,
            {
                let dig = digit_to_char((rest % 10) as u8);
                let ghost before = digits@;
                digits.push(dig);
                proof {
                    assert(digits@.reverse() =~= seq![dig] + before.reverse());
                    if rest / 10 > 0 {
                        assert(digits_of(rest as int) == digits_of(rest as int / 10).push(
                            digit_char(rest as int % 10),
                        ));
                        assert(digits_of(rest as int / 10).push(digit_char(rest as int % 10))
                            + before.reverse() =~= digits_of(rest as int / 10) + (seq![dig]
                            + before.reverse()));
                    } else {
                        assert(digits_of(rest as int) =~= seq![dig]);
                        assert(seq![dig] + before.reverse() =~= digits@.reverse());
                    }
                }
                rest = rest / 10;
            }
        }
        proof {
            assert(digits_of(ip as int) == digits@.reverse());
        }
        let mut k: usize = digits.len();
        while k > 0
            invariant
                0 <= k <= digits@.len(),
                out@ == sign + digits@.skip(k as int).reverse(),
            decreases k,
        {
            k = k - 1;
            let ghost before = out@;
            push_char(&mut out, digits[k]);
            proof {
                assert(digits@.skip(k as int).reverse() =~= digits@.skip(k as int + 1).reverse()
                    + seq![digits@[k as int]]);
                assert(out@ =~= sign + digits@.skip(k as int).reverse());
            }
        }
        proof {
            assert(digits@.skip(0) =~= digits@);
            assert(out@ == sign + digits_of(ip as int));
        }
        push_char(&mut out, '.');
        push_char(&mut out, digit_to_char((fp / 1000) as u8));
        push_char(&mut out, digit_to_char(((fp / 100) % 10) as u8));
        push_char(&mut out, digit_to_char(((fp / 10) % 10) as u8));
        push_char(&mut out, digit_to_char((fp % 10) as u8));
        proof {
            assert(out@ =~= sign + digits_of(ip as int) + seq!['.'] + frac4(fp as int));
            if self@ < 0 {
                assert(mag == -self@);
                assert(out@ =~= format_units(self@));
            } else {
                assert(mag == self@);
                assert(out@ =~= format_units(self@));
            }
        }
        out
    }
}

/// What a digit string with no fractional part stands for, tied to the
/// accumulated magnitude.
proof fn lemma_no_frac_value(t: Seq<char>, mag: int)
    requires
        first_dot(t) == t.len(),
        t.take(first_dot(t)).len() > 0,
        all_digits(t.take(first_dot(t))),
        digits_val(t.take(first_dot(t))) == mag,
    ensures
        parse_unsigned(t) == Some(mag * 10000),
{
}

/// What a digit string with a fractional part stands for, tied to the
/// accumulated magnitude and fraction.
proof fn lemma_with_frac_value(t: Seq<char>, mag: int, frac: int)
    requires
        first_dot(t) < t.len(),
        t.take(first_dot(t)).len() > 0,
        all_digits(t.take(first_dot(t))),
        digits_val(t.take(first_dot(t))) == mag,
        t.skip(first_dot(t) + 1).len() > 0,
        all_digits(t.skip(first_dot(t) + 1)),
        frac_units(t.skip(first_dot(t) + 1)) == frac,
    ensures
        parse_unsigned(t) == Some(mag * 10000 + frac),
{
}

} // verus!
