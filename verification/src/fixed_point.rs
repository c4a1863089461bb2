//! Exact fixed-point decimal arithmetic on a scaled `i128`.
//!
//! A `DecimalFixedPoint` stores `value * 10^-SCALE` as the integer `value`.
//! Parsing and formatting are specified against a mathematical model of
//! decimal digit strings, and arithmetic is checked: it reports overflow
//! instead of wrapping.

use vstd::prelude::*;

verus! {

/// Number of fractional decimal digits kept exactly.
pub const SCALE: usize = 4;

/// `10^SCALE`, the factor between one unit and the stored integer.
pub const EXPONENT: i128 = 10000;

/// `10^n`.
pub open spec fn pow10(n: nat) -> nat
    decreases n,
{
    if n == 0 {
        1
    } else {
        10 * pow10((n - 1) as nat)
    }
}

/// A decimal digit `'0'..='9'`.
pub open spec fn is_digit(c: char) -> bool {
    48 <= c as u32 && c as u32 <= 57
}

/// Numeric value of a decimal digit character.
pub open spec fn digit_val(c: char) -> int {
    c as u32 - 48
}

/// Decimal digit character for a value in `0..=9`.
pub open spec fn digit_char(n: int) -> char {
    (48 + n) as char
}

pub open spec fn all_digits(s: Seq<char>) -> bool {
    forall|i: int| 0 <= i < s.len() ==> is_digit(#[trigger] s[i])
}

/// Value of a digit string, most significant digit first.
pub open spec fn digits_val(s: Seq<char>) -> int
    decreases s.len(),
{
    if s.len() == 0 {
        0
    } else {
        digits_val(s.drop_last()) * 10 + digit_val(s.last())
    }
}

/// A run of `n` zero digits.
pub open spec fn zeros(n: nat) -> Seq<char> {
    Seq::new(n, |i: int| '0')
}

/// Left-pad a digit string with zeros up to `width`.
pub open spec fn zero_pad(s: Seq<char>, width: nat) -> Seq<char> {
    if s.len() >= width {
        s
    } else {
        zeros((width - s.len()) as nat) + s
    }
}

/// The integer denoted by `s` under the rules of decimal integer parsing:
/// an optional leading `+` or `-` sign followed by at least one digit.
pub open spec fn int_from_decimal(s: Seq<char>) -> Option<int> {
    if s.len() == 0 {
        None
    } else if s[0] == '-' || s[0] == '+' {
        let rest = s.subrange(1, s.len() as int);
        if rest.len() > 0 && all_digits(rest) {
            Some(
                if s[0] == '-' {
                    -digits_val(rest)
                } else {
                    digits_val(rest)
                },
            )
        } else {
            None
        }
    } else if all_digits(s) {
        Some(digits_val(s))
    } else {
        None
    }
}

pub open spec fn has_dot(s: Seq<char>) -> bool {
    exists|i: int| 0 <= i < s.len() && s[i] == '.'
}

/// Index of the first `'.'` in `s`, or `s.len()` if there is none.
pub open spec fn first_dot(s: Seq<char>) -> int
    decreases s.len(),
{
    if s.len() == 0 {
        0
    } else if s[0] == '.' {
        0
    } else {
        1 + first_dot(s.subrange(1, s.len() as int))
    }
}

/// Failure modes of [`DecimalFixedPoint::from_str`].
#[derive(Debug, Clone, Copy, PartialEq, Eq, Structural)]
pub enum BigFixedPointParseError {
    /// The fractional part has more digits than [`SCALE`].
    PrecisionExceeded { precision: usize, requested_precision: usize },
    /// More than one decimal separator.
    InvalidFormat,
    /// The digit string is not a decimal integer, or its value does not
    /// fit the backing `i128`.
    InvalidNumberFormat,
}

/// An exact signed decimal with [`SCALE`] fractional digits, stored as a
/// scaled `i128`. The wrapped integer is the number times [`EXPONENT`].
#[derive(Debug, Clone, Copy, PartialEq, Eq, PartialOrd, Structural)]
pub struct DecimalFixedPoint(pub i128);

impl View for DecimalFixedPoint {
    type V = int;

    open spec fn view(&self) -> int {
        self.0 as int
    }
}

/// Outcome of parsing the scaled digit string (sign and digits, already
/// concatenated and padded to full scale).
pub open spec fn spec_parse_digits(digits: Seq<char>) -> Result<
    DecimalFixedPoint,
    BigFixedPointParseError,
> {
    match int_from_decimal(digits) {
        None => Err(BigFixedPointParseError::InvalidNumberFormat),
        Some(v) => if i128::MIN <= v <= i128::MAX {
            Ok(DecimalFixedPoint(v as i128))
        } else {
            Err(BigFixedPointParseError::InvalidNumberFormat)
        },
    }
}

/// What [`DecimalFixedPoint::from_str`] returns on the character sequence
/// `s`: split on the first `'.'`, reject a second separator, reject a
/// fractional part longer than [`SCALE`], right-pad the fraction with
/// zeros and read the concatenation as a signed decimal integer.
pub open spec fn spec_parse(s: Seq<char>) -> Result<
    DecimalFixedPoint,
    BigFixedPointParseError,
> {
    let integer_part = if has_dot(s) {
        s.subrange(0, first_dot(s))
    } else {
        s
    };
    let decimal_part = if has_dot(s) {
        s.subrange(first_dot(s) + 1, s.len() as int)
    } else {
        Seq::<char>::empty()
    };
    if has_dot(decimal_part) {
        Err(BigFixedPointParseError::InvalidFormat)
    } else if decimal_part.len() > SCALE {
        Err(
            BigFixedPointParseError::PrecisionExceeded {
                precision: SCALE,
                requested_precision: decimal_part.len() as usize,
            },
        )
    } else {
        spec_parse_digits(
            integer_part + decimal_part + zeros((SCALE - decimal_part.len()) as nat),
        )
    }
}

/// Digit string of `n`, most significant digit first, no leading zeros
/// (except for `n == 0`, which is `"0"`).
pub open spec fn spec_u_digits(n: nat) -> Seq<char>
    decreases n,
{
    if n < 10 {
        seq![digit_char(n as int)]
    } else {
        spec_u_digits(n / 10).push(digit_char((n % 10) as int))
    }
}

/// What [`DecimalFixedPoint::format`] renders for the scaled integer `v`:
/// sign, integer part, `'.'`, and the fractional part zero-padded to
/// [`SCALE`] digits.
pub open spec fn spec_format(v: int) -> Seq<char> {
    let mag = (if v < 0 { -v } else { v }) as nat;
    let sign: Seq<char> = if v < 0 { seq!['-'] } else { Seq::<char>::empty() };
    sign + spec_u_digits(mag / (EXPONENT as nat)) + seq!['.'] + zero_pad(
        spec_u_digits(mag % (EXPONENT as nat)),
        SCALE as nat,
    )
}

impl DecimalFixedPoint {
    /// The zero value.
    pub fn zero() -> (r: Self)
        ensures
            r@ == 0,
    {
        DecimalFixedPoint(0)
    }

    pub fn is_zero(&self) -> (r: bool)
        ensures
            r == (self@ == 0),
    {
        self.0 == 0
    }

    /// Exact sum, or `None` when it does not fit the backing `i128`.
    pub fn checked_add(self, other: Self) -> (r: Option<Self>)
        ensures
            i128::MIN <= self@ + other@ <= i128::MAX ==> r == Some(
                DecimalFixedPoint((self@ + other@) as i128),
            ),
            !(i128::MIN <= self@ + other@ <= i128::MAX) ==> r is None,
    {
        if self.0 >= 0 && other.0 > i128::MAX - self.0 {
            None
        } else if self.0 < 0 && other.0 < i128::MIN - self.0 {
            None
        } else {
            Some(DecimalFixedPoint(self.0 + other.0))
        }
    }

    /// Exact difference, or `None` when it does not fit the backing `i128`.
    pub fn checked_sub(self, other: Self) -> (r: Option<Self>)
        ensures
            i128::MIN <= self@ - other@ <= i128::MAX ==> r == Some(
                DecimalFixedPoint((self@ - other@) as i128),
            ),
            !(i128::MIN <= self@ - other@ <= i128::MAX) ==> r is None,
    {
        if other.0 <= 0 && self.0 > i128::MAX + other.0 {
            None
        } else if other.0 > 0 && self.0 < i128::MIN + other.0 {
            None
        } else {
            Some(DecimalFixedPoint(self.0 - other.0))
        }
    }

    /// Exact comparison of the mathematical values.
    pub fn le(&self, other: &Self) -> (r: bool)
        ensures
            r == (self@ <= other@),
    {
        self.0 <= other.0
    }

    /// Parses decimal text: an optional sign, an integer part, and an
    /// optional fractional part after a single `'.'`, with at most
    /// [`SCALE`] fractional digits.
    #[verifier::loop_isolation(false)]
    pub fn from_str(s: &str) -> (r: Result<Self, BigFixedPointParseError>)
        ensures
            r == spec_parse(s@),
    {
        let n = s.unicode_len();
        let mut dot: usize = n;
        let mut i: usize = 0;
        while i < n
            invariant
                i <= n,
                dot <= n,
                dot == n ==> forall|j: int| 0 <= j < i ==> s@[j] != '.',
                dot < n ==> dot < i && s@[dot as int] == '.' && forall|j: int|
                    0 <= j < dot ==> s@[j] != '.',
            decreases n - i,
        {
            if dot == n && s.get_char(i) == '.' {
                dot = i;
            }
            i += 1;
        }
        proof {
            if dot == n {
                lemma_first_dot_none(s@);
            } else {
                lemma_first_dot_at(s@, dot as int);
            }
        }
        let ghost integer_part = if has_dot(s@) {
            s@.subrange(0, first_dot(s@))
        } else {
            s@
        };
        let ghost decimal_part = if has_dot(s@) {
            s@.subrange(first_dot(s@) + 1, s@.len() as int)
        } else {
            Seq::<char>::empty()
        };
        if dot < n {
            let mut k: usize = dot + 1;
            while k < n
                invariant
                    dot + 1 <= k <= n,
                    forall|j: int| dot + 1 <= j < k ==> s@[j] != '.',
                decreases n - k,
            {
                if s.get_char(k) == '.' {
                    proof {
                        assert(decimal_part[k - dot - 1] == '.');
                    }
                    return Err(BigFixedPointParseError::InvalidFormat);
                }
                k += 1;
            }
            proof {
                assert(forall|j: int|
                    0 <= j < decimal_part.len() ==> decimal_part[j] == s@[dot + 1 + j]);
            }
        }
        assert(!has_dot(decimal_part));
        let dec_len: usize = if dot < n {
            n - dot - 1
        } else {
            0
        };
        if dec_len > SCALE {
            return Err(
                BigFixedPointParseError::PrecisionExceeded {
                    precision: SCALE,
                    requested_precision: dec_len,
                },
            );
        }
        let int_len: usize = if dot < n {
            dot
        } else {
            n
        };
        let mut digits: Vec<char> = Vec::new();
        let mut a: usize = 0;
        while a < int_len
            invariant
                a <= int_len,
                digits@ == s@.subrange(0, a as int),
            decreases int_len - a,
        {
            digits.push(s.get_char(a));
            proof {
                assert(digits@ =~= s@.subrange(0, a + 1));
            }
            a += 1;
        }
        proof {
            assert(digits@ =~= integer_part);
        }
        if dot < n {
            let mut b: usize = dot + 1;
            while b < n
                invariant
                    dot + 1 <= b <= n,
                    digits@ == integer_part + s@.subrange(dot + 1, b as int),
                decreases n - b,
            {
                digits.push(s.get_char(b));
                proof {
                    assert(digits@ =~= integer_part + s@.subrange(dot + 1, b + 1));
                }
                b += 1;
            }
        }
        proof {
            assert(digits@ =~= integer_part + decimal_part);
        }
        let mut p: usize = dec_len;
        while p < SCALE
            invariant
                dec_len <= p <= SCALE,
                digits@ == integer_part + decimal_part + zeros((p - dec_len) as nat),
            decreases SCALE - p,
        {
            digits.push('0');
            proof {
                assert(digits@ =~= integer_part + decimal_part + zeros((p + 1 - dec_len) as nat));
            }
            p += 1;
        }
        proof {
            assert(dec_len == decimal_part.len());
            assert(digits@ =~= integer_part + decimal_part + zeros(
                (SCALE - decimal_part.len()) as nat,
            ));
        }
        parse_digit_seq(&digits)
    }

    /// Renders the value as decimal text: sign, integer part, `'.'`, and
    /// the fraction zero-padded to [`SCALE`] digits.
    pub fn format(&self) -> (r: String)
        ensures
            r@ == spec_format(self@),
    {
        let v = self.0;
        let mag: u128 = if v == i128::MIN {
            170141183460469231731687303715884105728u128
        } else if v < 0 {
            (-v) as u128
        } else {
            v as u128
        };
        let mut out = String::new();
        if v < 0 {
            out.append("-");
        }
        let ip: u128 = mag / 10000;
        let fp: u128 = mag % 10000;
        proof {
            assert(mag == (if self@ < 0 { -self@ } else { self@ }));
            assert(ip == mag as nat / (EXPONENT as nat));
            assert(fp == mag as nat % (EXPONENT as nat));
            assert(fp < 10000) by (nonlinear_arith)
                requires
                    fp == mag % 10000,
            ;
        }
        append_digits(ip, &mut out);
        out.append(".");
        proof {
            lemma_u_digits_len4(fp as nat);
            reveal_strlit("-");
            reveal_strlit(".");
            reveal_strlit("0");
        }
        if fp < 1000 {
            out.append("0");
        }
        if fp < 100 {
            out.append("0");
        }
        if fp < 10 {
            out.append("0");
        }
        append_digits(fp, &mut out);
        proof {
            assert(zeros(0) =~= Seq::<char>::empty());
            assert(zeros(1) =~= seq!['0']);
            assert(zeros(2) =~= seq!['0', '0']);
            assert(zeros(3) =~= seq!['0', '0', '0']);
            assert(out@ =~= spec_format(self@));
        }
        out
    }
}

/// Reads a signed decimal digit string into a scaled value, rejecting
/// non-digit characters and values outside the `i128` range.
#[verifier::loop_isolation(false)]
fn parse_digit_seq(digits: &Vec<char>) -> (r: Result<
    DecimalFixedPoint,
    BigFixedPointParseError,
>)
    ensures
        r == spec_parse_digits(digits@),
{
    let len = digits.len();
    if len == 0 {
        return Err(BigFixedPointParseError::InvalidNumberFormat);
    }
    let first: char = digits[0];
    let neg = first == '-';
    let start: usize = if neg || first == '+' {
        1
    } else {
        0
    };
    if len == start {
        return Err(BigFixedPointParseError::InvalidNumberFormat);
    }
    let limit: u128 = if neg {
        170141183460469231731687303715884105728u128
    } else {
        170141183460469231731687303715884105727u128
    };
    let ghost rest = digits@.subrange(start as int, len as int);
    let mut acc: u128 = 0;
    let mut i = start;
    while i < len
        invariant
            start <= i <= len,
            all_digits(digits@.subrange(start as int, i as int)),
            acc == digits_val(digits@.subrange(start as int, i as int)),
            acc <= limit,
        decreases len - i,
    {
        let c = digits[i];
        let cv = c as u32;
        let ghost pre = digits@.subrange(start as int, i as int);
        if cv < 48 || cv > 57 {
            proof {
                assert(rest[i - start] == c);
                assert(!is_digit(c));
                assert(!all_digits(rest));
            }
            return Err(BigFixedPointParseError::InvalidNumberFormat);
        }
        let d: u128 = (cv - 48) as u128;
        let ghost cur = digits@.subrange(start as int, i + 1);
        proof {
            assert(cur.drop_last() =~= pre);
            assert(cur.last() == c);
            assert(digits_val(cur) == acc * 10 + d);
            assert(all_digits(cur));
        }
        if acc > (limit - d) / 10 {
            proof {
                assert(acc * 10 + d > limit) by (nonlinear_arith)
                    requires
                        acc > (limit - d) / 10,
                        0 <= d <= 9,
                        d <= limit,
                ;
                if all_digits(rest) {
                    let suf = digits@.subrange(i + 1, len as int);
                    assert(rest =~= cur + suf);
                    assert(forall|j: int|
                        0 <= j < suf.len() ==> suf[j] == rest[j + (i + 1 - start)]);
                    assert(all_digits(suf));
                    lemma_digits_val_append(cur, suf);
                    lemma_digits_val_bounds(suf);
                    lemma_pow10_pos(suf.len());
                    assert(digits_val(rest) > limit) by (nonlinear_arith)
                        requires
                            digits_val(rest) == digits_val(cur) * pow10(suf.len()) + digits_val(
                                suf,
                            ),
                            digits_val(cur) > limit,
                            digits_val(suf) >= 0,
                            pow10(suf.len()) >= 1,
                    ;
                    if start == 1 {
                        assert(digits@[0] == '-' || digits@[0] == '+');
                        if neg {
                            assert(-digits_val(rest) < i128::MIN);
                        } else {
                            assert(digits_val(rest) > i128::MAX);
                        }
                    } else {
                        assert(rest[0] == digits@[0]);
                        assert(is_digit(digits@[0]));
                        assert(digits@[0] != '-' && digits@[0] != '+');
                        assert(rest =~= digits@);
                        assert(digits_val(digits@) > i128::MAX);
                    }
                }
            }
            return Err(BigFixedPointParseError::InvalidNumberFormat);
        }
        proof {
            assert(acc * 10 + d <= limit) by (nonlinear_arith)
                requires
                    acc <= (limit - d) / 10,
                    0 <= d <= 9,
                    d <= limit,
            ;
        }
        acc = acc * 10 + d;
        i += 1;
    }
    proof {
        assert(digits@.subrange(start as int, i as int) =~= rest);
        if start == 1 {
            assert(digits@[0] == '-' || digits@[0] == '+');
            assert(rest.len() > 0);
        } else {
            assert(rest[0] == digits@[0]);
            assert(is_digit(digits@[0]));
            assert(digits@[0] != '-' && digits@[0] != '+');
            assert(rest =~= digits@);
        }
    }
    if neg {
        if acc == 170141183460469231731687303715884105728u128 {
            proof {
                assert(i128::MIN as int == -(acc as int));
            }
            Ok(DecimalFixedPoint(i128::MIN))
        } else {
            Ok(DecimalFixedPoint(-(acc as i128)))
        }
    } else {
        Ok(DecimalFixedPoint(acc as i128))
    }
}

proof fn lemma_pow10_pos(n: nat)
    ensures
        pow10(n) >= 1,
    decreases n,
{
    if n > 0 {
        lemma_pow10_pos((n - 1) as nat);
    }
}

/// A digit string denotes a value within `0 .. 10^len`.
proof fn lemma_digits_val_bounds(s: Seq<char>)
    requires
        all_digits(s),
    ensures
        0 <= digits_val(s) < pow10(s.len()),
    decreases s.len(),
{
    if s.len() == 0 {
    } else {
        let p = s.drop_last();
        assert(forall|i: int| 0 <= i < p.len() ==> p[i] == s[i]);
        lemma_digits_val_bounds(p);
        assert(is_digit(s.last()));
        assert(digits_val(p) * 10 + digit_val(s.last()) < pow10(p.len()) * 10) by (nonlinear_arith)
            requires
                0 <= digits_val(p) < pow10(p.len()),
                0 <= digit_val(s.last()) <= 9,
        ;
        assert(pow10(s.len()) == 10 * pow10(p.len()));
    }
}

/// Concatenating digit strings multiplies the leading value by the power
/// of ten given by the trailing length.
proof fn lemma_digits_val_append(a: Seq<char>, b: Seq<char>)
    ensures
        digits_val(a + b) == digits_val(a) * pow10(b.len()) + digits_val(b),
    decreases b.len(),
{
    if b.len() == 0 {
        assert(a + b =~= a);
        assert(digits_val(b) == 0);
        assert(pow10(b.len()) == 1);
        assert(digits_val(a + b) == digits_val(a));
    } else {
        let b0 = b.drop_last();
        let d = digit_val(b.last());
        lemma_digits_val_append(a, b0);
        assert((a + b).drop_last() =~= a + b0);
        assert((a + b).last() == b.last());
        assert(digits_val(a + b) == digits_val(a + b0) * 10 + d);
        assert(digits_val(b) == digits_val(b0) * 10 + d);
        assert(pow10(b.len()) == 10 * pow10(b0.len()));
        assert(digits_val(a + b) == digits_val(a) * pow10(b.len()) + digits_val(b))
            by (nonlinear_arith)
            requires
                digits_val(a + b) == digits_val(a + b0) * 10 + d,
                digits_val(a + b0) == digits_val(a) * pow10(b0.len()) + digits_val(b0),
                digits_val(b) == digits_val(b0) * 10 + d,
                pow10(b.len()) == 10 * pow10(b0.len()),
        ;
    }
}

/// The digit string of `n` consists of digits and denotes `n`.
proof fn lemma_u_digits_correct(n: nat)
    ensures
        all_digits(spec_u_digits(n)),
        digits_val(spec_u_digits(n)) == n,
        spec_u_digits(n).len() >= 1,
    decreases n,
{
    if n < 10 {
        let s = spec_u_digits(n);
        assert(digit_val(digit_char(n as int)) == n);
        assert(is_digit(digit_char(n as int)));
        assert(s.drop_last() =~= Seq::<char>::empty());
        assert(digits_val(Seq::<char>::empty()) == 0);
        assert(digits_val(s) == 0 * 10 + digit_val(s.last()));
    } else {
        assert(n / 10 < n && 1 <= n / 10) by (nonlinear_arith)
            requires
                n >= 10,
        ;
        lemma_u_digits_correct(n / 10);
        let u = spec_u_digits(n / 10);
        let s = spec_u_digits(n);
        assert(s.drop_last() =~= u);
        assert(s.last() == digit_char((n % 10) as int));
        assert(0 <= n % 10 <= 9) by (nonlinear_arith);
        assert(digit_val(digit_char((n % 10) as int)) == n % 10);
        assert(digits_val(s) == digits_val(u) * 10 + digit_val(s.last()));
        assert((n / 10) * 10 + n % 10 == n) by (nonlinear_arith);
        assert(forall|i: int| 0 <= i < s.len() ==> is_digit(#[trigger] s[i]));
    }
}

/// Without a dot, `first_dot` is the length.
proof fn lemma_first_dot_none(s: Seq<char>)
    requires
        forall|j: int| 0 <= j < s.len() ==> s[j] != '.',
    ensures
        first_dot(s) == s.len(),
        !has_dot(s),
    decreases s.len(),
{
    if s.len() > 0 {
        let t = s.subrange(1, s.len() as int);
        assert(forall|j: int| 0 <= j < t.len() ==> t[j] == s[j + 1]);
        lemma_first_dot_none(t);
    }
}

/// `first_dot` finds the first dot.
proof fn lemma_first_dot_at(s: Seq<char>, k: int)
    requires
        0 <= k < s.len(),
        s[k] == '.',
        forall|j: int| 0 <= j < k ==> s[j] != '.',
    ensures
        first_dot(s) == k,
        has_dot(s),
    decreases k,
{
    if k > 0 {
        let t = s.subrange(1, s.len() as int);
        assert(forall|j: int| 0 <= j < t.len() ==> t[j] == s[j + 1]);
        lemma_first_dot_at(t, k - 1);
    }
}

proof fn lemma_zeros_val(n: nat)
    ensures
        all_digits(zeros(n)),
        digits_val(zeros(n)) == 0,
    decreases n,
{
    if n > 0 {
        lemma_zeros_val((n - 1) as nat);
        assert(zeros(n).drop_last() =~= zeros((n - 1) as nat));
        assert(zeros(n).last() == '0');
    }
}

/// Two digit characters with the same value are the same character.
proof fn lemma_digit_char_injective(c1: char, c2: char)
    requires
        is_digit(c1),
        is_digit(c2),
        digit_val(c1) == digit_val(c2),
    ensures
        c1 == c2,
{
    vstd::utf8::char_u32_cast(c1, c1 as u32);
    vstd::utf8::char_u32_cast(c2, c2 as u32);
}

/// Digit strings of equal length and equal value are equal.
proof fn lemma_digits_val_injective(x: Seq<char>, y: Seq<char>)
    requires
        all_digits(x),
        all_digits(y),
        x.len() == y.len(),
        digits_val(x) == digits_val(y),
    ensures
        x == y,
    decreases x.len(),
{
    if x.len() == 0 {
        assert(x =~= y);
    } else {
        let px = x.drop_last();
        let py = y.drop_last();
        assert(forall|i: int| 0 <= i < px.len() ==> px[i] == x[i]);
        assert(forall|i: int| 0 <= i < py.len() ==> py[i] == y[i]);
        let v = digits_val(x);
        assert(v == digits_val(px) * 10 + digit_val(x.last()));
        assert(v == digits_val(py) * 10 + digit_val(y.last()));
        lemma_digits_val_bounds(px);
        lemma_digits_val_bounds(py);
        assert(digits_val(px) == digits_val(py) && digit_val(x.last()) == digit_val(y.last()))
            by (nonlinear_arith)
            requires
                digits_val(px) * 10 + digit_val(x.last()) == digits_val(py) * 10 + digit_val(
                    y.last(),
                ),
                0 <= digit_val(x.last()) <= 9,
                0 <= digit_val(y.last()) <= 9,
                digits_val(px) >= 0,
                digits_val(py) >= 0,
        ;
        lemma_digit_char_injective(x.last(), y.last());
        lemma_digits_val_injective(px, py);
        assert(x =~= y);
    }
}

/// A digit string without a redundant leading zero is recovered from
/// its value.
proof fn lemma_canonical_digits_inverse(x: Seq<char>)
    requires
        all_digits(x),
        x.len() >= 1,
        x[0] != '0' || x.len() == 1,
    ensures
        digits_val(x) >= 0,
        spec_u_digits(digits_val(x) as nat) == x,
    decreases x.len(),
{
    lemma_digits_val_bounds(x);
    if x.len() == 1 {
        let c = x[0];
        assert(x.drop_last() =~= Seq::<char>::empty());
        assert(digits_val(Seq::<char>::empty()) == 0);
        assert(digits_val(x) == digit_val(c));
        assert(spec_u_digits(digits_val(x) as nat) == seq![digit_char(digit_val(c))]);
        vstd::utf8::char_u32_cast(c, c as u32);
        assert(digit_char(digit_val(c)) == c);
        assert(x =~= seq![c]);
    } else {
        let p = x.drop_last();
        let d = digit_val(x.last());
        assert(forall|i: int| 0 <= i < p.len() ==> p[i] == x[i]);
        lemma_canonical_digits_inverse(p);
        // The leading digit is at least one, so the prefix value is positive.
        let head = seq![p[0]];
        let tail = p.subrange(1, p.len() as int);
        assert(p =~= head + tail);
        lemma_digits_val_append(head, tail);
        lemma_digits_val_bounds(tail);
        lemma_pow10_pos(tail.len());
        assert(head.drop_last() =~= Seq::<char>::empty());
        assert(digits_val(Seq::<char>::empty()) == 0);
        assert(head.last() == p[0]);
        assert(digits_val(head) == digit_val(p[0]));
        assert(digit_val(p[0]) >= 1) by {
            if p[0] as u32 == 48 {
                vstd::utf8::char_u32_cast(p[0], p[0] as u32);
                vstd::utf8::char_u32_cast('0', '0' as u32);
                assert(('0' as u32) == 48);
                assert(p[0] == '0');
            }
        };
        assert(digits_val(p) >= 1) by (nonlinear_arith)
            requires
                digits_val(p) == digits_val(head) * pow10(tail.len()) + digits_val(tail),
                digits_val(head) >= 1,
                digits_val(tail) >= 0,
                pow10(tail.len()) >= 1,
        ;
        let v = digits_val(x);
        assert(v == digits_val(p) * 10 + d);
        assert(v >= 10 && v / 10 == digits_val(p) && v % 10 == d) by (nonlinear_arith)
            requires
                v == digits_val(p) * 10 + d,
                digits_val(p) >= 1,
                0 <= d <= 9,
        ;
        assert(spec_u_digits(v as nat) == spec_u_digits((v as nat) / 10).push(
            digit_char(((v as nat) % 10) as int),
        ));
        vstd::utf8::char_u32_cast(x.last(), x.last() as u32);
        assert(digit_char(d) == x.last());
        assert(spec_u_digits(v as nat) =~= x);
    }
}

/// Text round trip: canonical decimal text within scale and width — an
/// optional `-` (not written before zero), an integer part without a
/// redundant leading zero, a `.` and at most [`SCALE`] fraction digits —
/// parses, and formatting the parsed value gives the text back with its
/// fraction right-padded with zeros to full scale. Text with a `+`
/// sign, a redundant leading zero or a `-` before zero normalizes to a
/// different spelling and is left out.
pub proof fn lemma_parse_format_round_trip(neg: bool, int_part: Seq<char>, frac: Seq<char>)
    requires
        all_digits(int_part),
        int_part.len() >= 1,
        int_part[0] != '0' || int_part.len() == 1,
        all_digits(frac),
        frac.len() <= SCALE,
        neg ==> digits_val(int_part) + digits_val(frac) > 0,
        ({
            let sign: Seq<char> = if neg {
                seq!['-']
            } else {
                Seq::<char>::empty()
            };
            spec_parse(sign + int_part + seq!['.'] + frac) is Ok
        }),
    ensures
        ({
            let sign: Seq<char> = if neg {
                seq!['-']
            } else {
                Seq::<char>::empty()
            };
            let s = sign + int_part + seq!['.'] + frac;
            spec_parse(s) matches Ok(d) && spec_format(d@) == s + zeros(
                (SCALE - frac.len()) as nat,
            )
        }),
{
    reveal_with_fuel(pow10, 5);
    assert(pow10(4) == 10000);
    let sign: Seq<char> = if neg {
        seq!['-']
    } else {
        Seq::<char>::empty()
    };
    let x = sign + int_part;
    let s = sign + int_part + seq!['.'] + frac;
    assert(s =~= x + seq!['.'] + frac);
    assert forall|j: int| 0 <= j < x.len() implies x[j] != '.' by {
        if neg && j == 0 {
            assert(x[0] == '-');
        } else {
            assert(x[j] == int_part[j - sign.len()]);
            assert(is_digit(int_part[j - sign.len()]));
        }
    }
    assert(s[x.len() as int] == '.');
    lemma_first_dot_at(s, x.len() as int);
    let integer_part = s.subrange(0, x.len() as int);
    let decimal_part = s.subrange(x.len() as int + 1, s.len() as int);
    assert(integer_part =~= x);
    assert(decimal_part =~= frac);
    assert(!has_dot(frac));
    let pad = (SCALE - frac.len()) as nat;
    let d_seq = integer_part + decimal_part + zeros(pad);
    let fracfull = frac + zeros(pad);
    lemma_zeros_val(pad);
    assert forall|j: int| 0 <= j < fracfull.len() implies is_digit(#[trigger] fracfull[j]) by {
        if j < frac.len() {
            assert(fracfull[j] == frac[j]);
        } else {
            assert(fracfull[j] == zeros(pad)[j - frac.len()]);
        }
    }
    assert(fracfull.len() == 4);
    lemma_digits_val_append(frac, zeros(pad));
    lemma_digits_val_bounds(fracfull);
    let vi = digits_val(int_part);
    let vf = digits_val(fracfull);
    lemma_digits_val_bounds(int_part);
    lemma_digits_val_bounds(frac);
    let rest = int_part + fracfull;
    lemma_digits_val_append(int_part, fracfull);
    assert(digits_val(rest) == vi * 10000 + vf);
    assert forall|j: int| 0 <= j < rest.len() implies is_digit(#[trigger] rest[j]) by {
        if j < int_part.len() {
            assert(rest[j] == int_part[j]);
        } else {
            assert(rest[j] == fracfull[j - int_part.len()]);
        }
    }
    let m = vi * 10000 + vf;
    assert(m >= 0 && m / 10000 == vi && m % 10000 == vf) by (nonlinear_arith)
        requires
            m == vi * 10000 + vf,
            vi >= 0,
            0 <= vf < 10000,
    ;
    if neg {
        assert(d_seq[0] == '-');
        let after_sign = d_seq.subrange(1, d_seq.len() as int);
        assert(after_sign =~= rest);
        lemma_digits_val_append(frac, zeros(pad));
        assert(vf == digits_val(frac) * pow10(pad));
        assert(m > 0) by (nonlinear_arith)
            requires
                m == vi * 10000 + digits_val(frac) * pow10(pad),
                vi >= 0,
                digits_val(frac) >= 0,
                vi + digits_val(frac) > 0,
                pow10(pad) >= 1,
        ;
        assert(int_from_decimal(d_seq) == Some(-m));
    } else {
        assert(d_seq =~= rest);
        assert(is_digit(d_seq[0]));
        assert(d_seq[0] != '-' && d_seq[0] != '+');
        assert(int_from_decimal(d_seq) == Some(m));
    }
    let v: int = if neg {
        -m
    } else {
        m
    };
    assert(spec_parse(s) == spec_parse_digits(d_seq));
    assert(spec_parse(s) is Ok);
    assert(i128::MIN <= v <= i128::MAX);
    let d = DecimalFixedPoint(v as i128);
    assert(spec_parse(s) == Ok::<DecimalFixedPoint, BigFixedPointParseError>(d));
    assert(d@ == v);
    // Formatting the value.
    let mag = (if v < 0 {
        -v
    } else {
        v
    }) as nat;
    assert(mag == m);
    lemma_canonical_digits_inverse(int_part);
    assert(spec_u_digits((mag / 10000) as nat) == int_part);
    let u = spec_u_digits(vf as nat);
    lemma_u_digits_correct(vf as nat);
    lemma_u_digits_len4(vf as nat);
    let padded = zero_pad(u, SCALE as nat);
    assert forall|j: int| 0 <= j < padded.len() implies is_digit(#[trigger] padded[j]) by {
        if u.len() < 4 {
            let z = zeros((4 - u.len()) as nat);
            lemma_zeros_val((4 - u.len()) as nat);
            if j < z.len() {
                assert(padded[j] == z[j]);
            } else {
                assert(padded[j] == u[j - z.len()]);
            }
        }
    }
    assert(padded.len() == 4);
    if u.len() < 4 {
        lemma_zeros_val((4 - u.len()) as nat);
        lemma_digits_val_append(zeros((4 - u.len()) as nat), u);
    }
    assert(digits_val(padded) == vf);
    lemma_digits_val_injective(padded, fracfull);
    assert(spec_format(d@) =~= sign + int_part + seq!['.'] + fracfull);
    assert(spec_format(d@) =~= s + zeros(pad));
}

/// Round trip: formatting any representable value and parsing the text
/// back yields the same value.
pub proof fn lemma_format_parse_round_trip(v: i128)
    ensures
        spec_parse(spec_format(v as int)) == Ok::<
            DecimalFixedPoint,
            BigFixedPointParseError,
        >(DecimalFixedPoint(v)),
{
    let e: nat = EXPONENT as nat;
    reveal_with_fuel(pow10, 5);
    assert(pow10(4) == 10000);
    let mag = (if (v as int) < 0 {
        -(v as int)
    } else {
        v as int
    }) as nat;
    let ip = mag / e;
    let fp = mag % e;
    lemma_u_digits_correct(ip);
    lemma_u_digits_correct(fp);
    let a = spec_u_digits(ip);
    let f = spec_u_digits(fp);
    assert(fp < 10000 && ip * 10000 + fp == mag) by (nonlinear_arith)
        requires
            fp == mag % 10000,
            ip == mag / 10000,
    ;
    lemma_u_digits_len4(fp);
    let pad = zero_pad(f, SCALE as nat);
    let z = zeros((SCALE - f.len()) as nat);
    lemma_zeros_val((SCALE - f.len()) as nat);
    lemma_digits_val_append(z, f);
    assert forall|j: int| 0 <= j < pad.len() implies is_digit(#[trigger] pad[j]) by {
        if f.len() < 4 {
            if j < z.len() {
                assert(pad[j] == z[j]);
            } else {
                assert(pad[j] == f[j - z.len()]);
            }
        }
    }
    assert(digits_val(pad) == fp);
    assert(pad.len() == 4);
    let sign: Seq<char> = if v < 0 {
        seq!['-']
    } else {
        Seq::<char>::empty()
    };
    let x = sign + a;
    let s = spec_format(v as int);
    assert(s =~= x + seq!['.'] + pad);
    assert forall|j: int| 0 <= j < x.len() implies x[j] != '.' by {
        if v < 0 && j == 0 {
            assert(x[0] == '-');
        } else {
            assert(x[j] == a[j - sign.len()]);
            assert(is_digit(a[j - sign.len()]));
        }
    }
    assert(s[x.len() as int] == '.');
    lemma_first_dot_at(s, x.len() as int);
    let integer_part = s.subrange(0, x.len() as int);
    let decimal_part = s.subrange(x.len() as int + 1, s.len() as int);
    assert(integer_part =~= x);
    assert(decimal_part =~= pad);
    assert(!has_dot(pad));
    let d = x + pad;
    assert(integer_part + decimal_part + zeros((SCALE - decimal_part.len()) as nat) =~= d);
    lemma_digits_val_append(a, pad);
    assert(digits_val(a + pad) == ip * pow10(4) + fp) by (nonlinear_arith)
        requires
            digits_val(a + pad) == digits_val(a) * pow10(pad.len()) + digits_val(pad),
            digits_val(a) == ip,
            digits_val(pad) == fp,
            pad.len() == 4,
            pow10(4) == pow10(pad.len()),
    ;
    assert(digits_val(a + pad) == mag);
    assert forall|j: int| 0 <= j < (a + pad).len() implies is_digit(#[trigger] (a + pad)[j]) by {
        if j < a.len() {
            assert((a + pad)[j] == a[j]);
        } else {
            assert((a + pad)[j] == pad[j - a.len()]);
        }
    }
    if v < 0 {
        assert(d[0] == '-');
        let rest = d.subrange(1, d.len() as int);
        assert(rest =~= a + pad);
        assert(int_from_decimal(d) == Some(-(mag as int)));
        assert(-(mag as int) == v as int);
    } else {
        assert(x =~= a);
        assert(d =~= a + pad);
        assert(is_digit(d[0]));
        assert(d[0] != '-' && d[0] != '+');
        assert(int_from_decimal(d) == Some(mag as int));
        assert(mag as int == v as int);
    }
}

/// The digit string of a small value has as many digits as its magnitude
/// calls for.
proof fn lemma_u_digits_len4(n: nat)
    requires
        n < 10000,
    ensures
        n < 10 ==> spec_u_digits(n).len() == 1,
        10 <= n < 100 ==> spec_u_digits(n).len() == 2,
        100 <= n < 1000 ==> spec_u_digits(n).len() == 3,
        1000 <= n ==> spec_u_digits(n).len() == 4,
    decreases n,
{
    if n >= 10 {
        assert(n / 10 < 1000) by (nonlinear_arith)
            requires
                n < 10000,
        ;
        assert(10 <= n < 100 ==> 1 <= n / 10 < 10) by (nonlinear_arith);
        assert(100 <= n < 1000 ==> 10 <= n / 10 < 100) by (nonlinear_arith);
        assert(1000 <= n < 10000 ==> 100 <= n / 10 < 1000) by (nonlinear_arith);
        lemma_u_digits_len4(n / 10);
    }
}

/// Appends the decimal digit string of `n` to `out`.
fn append_digits(n: u128, out: &mut String)
    ensures
        final(out)@ == old(out)@ + spec_u_digits(n as nat),
    decreases n,
{
    if n >= 10 {
        proof {
            assert(n / 10 < n) by (nonlinear_arith)
                requires
                    n >= 10,
            ;
        }
        append_digits(n / 10, out);
        let d = digit_str((n % 10) as u8);
        out.append(d);
        proof {
            assert(old(out)@ + spec_u_digits(n as nat / 10) + seq![
                digit_char((n as nat % 10) as int),
            ] =~= old(out)@ + spec_u_digits(n as nat));
        }
    } else {
        let d = digit_str(n as u8);
        out.append(d);
    }
}

/// The one-character string for a decimal digit value.
fn digit_str(d: u8) -> (r: &'static str)
    requires
        d < 10,
    ensures
        r@ == seq![digit_char(d as int)],
{
    let r: &'static str = match d {
        0 => "0",
        1 => "1",
        2 => "2",
        3 => "3",
        4 => "4",
        5 => "5",
        6 => "6",
        7 => "7",
        8 => "8",
        _ => "9",
    };
    proof {
        reveal_strlit("0");
        reveal_strlit("1");
        reveal_strlit("2");
        reveal_strlit("3");
        reveal_strlit("4");
        reveal_strlit("5");
        reveal_strlit("6");
        reveal_strlit("7");
        reveal_strlit("8");
        reveal_strlit("9");
        assert(r@ =~= seq![digit_char(d as int)]);
    }
    r
}

} // verus!
