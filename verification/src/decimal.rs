//! Exact decimal numbers for prices and sizes.
//!
//! The feed transmits prices and sizes as decimal strings such as
//! `"10101.10"`. The book only ever compares these quantities and tests them
//! against zero, so they are kept exactly, as a sign plus a magnitude counted
//! in units of 10^-18 (`atto`). A `Decimal` therefore stands for the number
//! `value() / 10^18`, and comparing two decimals is integer comparison of
//! their `value()`s.

use vstd::arithmetic::mul::lemma_mul_inequality;
use vstd::prelude::*;
use vstd::string::StrSliceExecFns;

verus! {

/// Number of 10^-18 units in one whole unit.
pub const ATTO_PER_UNIT: u128 = 1_000_000_000_000_000_000;

/// Largest whole part a decimal string may carry: 10^19 - 1.
pub const MAX_WHOLE: u128 = 9_999_999_999_999_999_999;

/// Largest number of fractional digits a decimal string may carry.
pub const MAX_FRAC_DIGITS: usize = 18;

/// A signed decimal number with 18 fractional digits of precision.
///
/// `atto` is the magnitude in units of 10^-18; `neg` is the sign. The zero
/// produced by parsing is canonical: its `neg` is false.
#[derive(Clone, Copy, Debug, PartialEq, Eq, Structural)]
pub struct Decimal {
    pub neg: bool,
    pub atto: u128,
}

impl Decimal {
    /// The represented number, scaled by 10^18 to an integer.
    pub open spec fn value(self) -> int {
        if self.neg {
            -(self.atto as int)
        } else {
            self.atto as int
        }
    }

    /// Whether this decimal is (positive or negative) zero.
    pub open spec fn spec_is_zero(self) -> bool {
        self.value() == 0
    }

    /// Tests the represented number against zero.
    pub fn is_zero(&self) -> (r: bool)
        ensures
            r == self.spec_is_zero(),
    {
        self.atto == 0
    }

    /// Compares two decimals by represented value.
    pub fn le(&self, other: &Decimal) -> (r: bool)
        ensures
            r == (self.value() <= other.value()),
    {
        match (self.neg, other.neg) {
            (true, false) => true,
            (false, true) => self.atto == 0 && other.atto == 0,
            (false, false) => self.atto <= other.atto,
            (true, true) => other.atto <= self.atto,
        }
    }
}

/// Whether `c` is a decimal digit.
pub open spec fn is_digit(c: char) -> bool {
    '0' <= c && c <= '9'
}

/// The numeric value of a digit character.
pub open spec fn digit_val(c: char) -> int {
    c as u32 - '0' as u32
}

/// Whether every character of `s` is a decimal digit.
pub open spec fn all_digits(s: Seq<char>) -> bool {
    forall|i: int| 0 <= i < s.len() ==> is_digit(#[trigger] s[i])
}

/// The number written by a digit string, read left to right.
pub open spec fn digits_val(s: Seq<char>) -> int
    decreases s.len(),
{
    if s.len() == 0 {
        0
    } else {
        10 * digits_val(s.drop_last()) + digit_val(s.last())
    }
}

/// 10 to the power `n`.
pub open spec fn pow10(n: nat) -> int
    decreases n,
{
    if n == 0 {
        1
    } else {
        10 * pow10((n - 1) as nat)
    }
}

/// Index of the first `'.'` in `s`, or `s.len()` if there is none.
pub open spec fn dot_index(s: Seq<char>) -> int
    decreases s.len(),
{
    if s.len() == 0 {
        0
    } else if s[0] == '.' {
        0
    } else {
        1 + dot_index(s.drop_first())
    }
}

pub proof fn lemma_dot_index(s: Seq<char>)
    ensures
        0 <= dot_index(s) <= s.len(),
        forall|j: int| 0 <= j < dot_index(s) ==> #[trigger] s[j] != '.',
        dot_index(s) < s.len() ==> s[dot_index(s)] == '.',
    decreases s.len(),
{
    if s.len() > 0 && s[0] != '.' {
        lemma_dot_index(s.drop_first());
        assert forall|j: int| 0 <= j < dot_index(s) implies #[trigger] s[j] != '.' by {
            if j > 0 {
                assert(s.drop_first()[j - 1] != '.');
            }
        }
        if dot_index(s) < s.len() {
            assert(s[dot_index(s)] == s.drop_first()[dot_index(s) - 1]);
        }
    }
}

pub proof fn lemma_digits_val_nonneg(s: Seq<char>)
    requires
        all_digits(s),
    ensures
        digits_val(s) >= 0,
    decreases s.len(),
{
    if s.len() > 0 {
        assert(all_digits(s.drop_last()));
        lemma_digits_val_nonneg(s.drop_last());
        assert(is_digit(s[s.len() - 1]));
    }
}

/// Reading further digits never shrinks the value already read.
pub proof fn lemma_digits_val_prefix_le(s: Seq<char>, i: int)
    requires
        all_digits(s),
        0 <= i <= s.len(),
    ensures
        digits_val(s.take(i)) <= digits_val(s),
    decreases s.len() - i,
{
    if i < s.len() {
        lemma_digits_val_prefix_le(s, i + 1);
        let t = s.take(i + 1);
        assert(t.drop_last() =~= s.take(i));
        assert(all_digits(s.take(i)));
        lemma_digits_val_nonneg(s.take(i));
        assert(is_digit(s[i]));
        assert(digits_val(t) == 10 * digits_val(s.take(i)) + digit_val(s[i]));
    } else {
        assert(s.take(i) =~= s);
    }
}

pub proof fn lemma_pow10_pos(n: nat)
    ensures
        pow10(n) >= 1,
    decreases n,
{
    if n > 0 {
        lemma_pow10_pos((n - 1) as nat);
    }
}

pub proof fn lemma_pow10_mono(a: nat, b: nat)
    requires
        a <= b,
    ensures
        pow10(a) <= pow10(b),
    decreases b,
{
    if a < b {
        lemma_pow10_mono(a, (b - 1) as nat);
        lemma_pow10_pos((b - 1) as nat);
    }
}

/// `pow10(18)` written out, for bounds on `atto` arithmetic.
pub proof fn lemma_pow10_atto()
    ensures
        pow10(18) == ATTO_PER_UNIT,
{
    assert(pow10(18) == 1_000_000_000_000_000_000) by {
        reveal_with_fuel(pow10, 19);
    }
}

pub proof fn lemma_pow10_add(a: nat, b: nat)
    ensures
        pow10(a) * pow10(b) == pow10(a + b),
    decreases a,
{
    if a == 0 {
        assert(pow10(0) * pow10(b) == pow10(b));
    } else {
        lemma_pow10_add((a - 1) as nat, b);
        let p = pow10((a - 1) as nat);
        let q = pow10(b);
        assert(p * q == pow10(((a - 1) + b) as nat));
        assert(pow10(a + b) == 10 * pow10((a + b - 1) as nat));
        assert((10 * p) * q == 10 * (p * q)) by (nonlinear_arith);
    }
}

/// The decimal-string grammar accepted by [`parse`](Decimal::parse): an
/// optional leading minus sign, then digits with at most one point between
/// them. At least one digit must be present; the whole part must not exceed
/// [`MAX_WHOLE`] and at most [`MAX_FRAC_DIGITS`] fractional digits are kept.
/// The parsed zero is canonical: its sign is positive.
pub open spec fn spec_parse_decimal(s: Seq<char>) -> Option<Decimal> {
    let neg = s.len() > 0 && s[0] == '-';
    let body = if neg { s.drop_first() } else { s };
    let k = dot_index(body);
    let whole = body.take(k);
    let frac = if k < body.len() { body.skip(k + 1) } else { Seq::<char>::empty() };
    if all_digits(whole) && all_digits(frac) && whole.len() + frac.len() > 0 && frac.len()
        <= MAX_FRAC_DIGITS && digits_val(whole) <= MAX_WHOLE {
        let units = digits_val(whole) * ATTO_PER_UNIT + digits_val(frac) * pow10(
            (MAX_FRAC_DIGITS - frac.len()) as nat,
        );
        let atto = units as u128;
        Some(Decimal { neg: neg && atto != 0, atto })
    } else {
        None
    }
}

/// 10 to the power `e`, computed in `u128`.
fn pow10_u128(e: usize) -> (r: u128)
    requires
        e <= 18,
    ensures
        r == pow10(e as nat),
{
    let mut r: u128 = 1;
    let mut j: usize = 0;
    while j < e
        invariant
            j <= e <= 18,
            r == pow10(j as nat),
        decreases e - j,
    {
        proof {
            lemma_pow10_mono(j as nat, 17);
            lemma_pow10_atto();
            lemma_pow10_mono(17, 18);
        }
        r = r * 10;
        j = j + 1;
    }
    r
}

impl Decimal {
    /// Parses a decimal string, by the grammar of [`spec_parse_decimal`].
    #[verifier::rlimit(30)]
    pub fn parse(s: &str) -> (r: Option<Decimal>)
        ensures
            r == spec_parse_decimal(s@),
    {
        let len = s.unicode_len();
        let mut i: usize = 0;
        let mut neg = false;
        if len > 0 {
            if s.get_char(0) == '-' {
                neg = true;
                i = 1;
            }
        }
        let start = i;
        let ghost body = if neg { s@.drop_first() } else { s@ };
        let ghost k = dot_index(body);
        proof {
            lemma_dot_index(body);
            assert(forall|j: int| 0 <= j < body.len() ==> body[j] == s@[j + start]);
            assert(body.take(0) =~= Seq::<char>::empty());
        }
        // Scan the whole part.
        let mut whole_val: u128 = 0;
        loop
            invariant
                len == s@.len(),
                start <= i <= len,
                start == (if neg { 1int } else { 0int }),
                neg == (s@.len() > 0 && s@[0] == '-'),
                body == (if neg { s@.drop_first() } else { s@ }),
                k == dot_index(body),
                all_digits(body.take(i - start)),
                whole_val == digits_val(body.take(i - start)),
                whole_val <= MAX_WHOLE,
            ensures
                i == len || !is_digit(body[i - start]),
            decreases len - i,
        {
            if i >= len {
                break ;
            }
            let c = s.get_char(i);
            if !(c >= '0' && c <= '9') {
                break ;
            }
            let d = (c as u32 - '0' as u32) as u128;
            let ghost p: int = i - start;
            proof {
                assert(is_digit(body[p]));
                assert(body.take(p + 1).drop_last() =~= body.take(p));
                assert(all_digits(body.take(p + 1)));
                assert(digits_val(body.take(p + 1)) == 10 * whole_val + d);
            }
            if whole_val > (MAX_WHOLE - d) / 10 {
                // The whole part is too large for the grammar: no digit that
                // may still follow can bring it back under the bound.
                proof {
                    lemma_dot_index(body);
                    assert(10 * whole_val + d > MAX_WHOLE);
                    if k <= p {
                        assert(is_digit(body.take(p + 1)[k]));
                        assert(body[k] == '.');
                    }
                    assert(p + 1 <= k);
                    if all_digits(body.take(k)) {
                        lemma_digits_val_prefix_le(body.take(k), p + 1);
                        assert(body.take(k).take(p + 1) =~= body.take(p + 1));
                        assert(digits_val(body.take(k)) > MAX_WHOLE);
                    }
                }
                return None;
            }
            whole_val = whole_val * 10 + d;
            i = i + 1;
        }
        let whole_len = i - start;
        if i == len {
            // No fractional part.
            proof {
                lemma_dot_index(body);
                assert(body.len() == len - start);
                assert(body.take(whole_len as int) =~= body);
                if k < body.len() {
                    assert(is_digit(body[k]));
                    assert(body[k] == '.');
                }
                assert(k == body.len());
                assert(body.take(k) =~= body.take(whole_len as int));
            }
            if whole_len == 0 {
                return None;
            }
            proof {
                lemma_pow10_atto();
                lemma_mul_inequality(whole_val as int, MAX_WHOLE as int, ATTO_PER_UNIT as int);
            }
            let units = whole_val * ATTO_PER_UNIT;
            let dec = Decimal { neg: if units == 0 { false } else { neg }, atto: units };
            proof {
                let sneg = s@.len() > 0 && s@[0] == '-';
                let sbody = if sneg {
                    s@.drop_first()
                } else {
                    s@
                };
                assert(sneg == neg);
                assert(sbody == body);
                let sfrac = if k < sbody.len() {
                    sbody.skip(k + 1)
                } else {
                    Seq::<char>::empty()
                };
                assert(sfrac =~= Seq::<char>::empty());
                assert(digits_val(sfrac) == 0);
                assert(all_digits(sfrac));
                assert(digits_val(body.take(k)) == whole_val);
                let su: int = digits_val(body.take(k)) * ATTO_PER_UNIT + digits_val(sfrac) * pow10(
                    (MAX_FRAC_DIGITS - sfrac.len()) as nat,
                );
                assert(digits_val(sfrac) * pow10((MAX_FRAC_DIGITS - sfrac.len()) as nat) == 0);
                assert(su == whole_val * ATTO_PER_UNIT);
                assert(units == su);
                assert(spec_parse_decimal(s@) == Some(dec));
            }
            return Some(dec);
        }
        // A character stopped the whole part: it must be the point.
        let c = s.get_char(i);
        proof {
            assert(c == body[whole_len as int]);
        }
        if c != '.' {
            proof {
                lemma_dot_index(body);
                if k <= whole_len as int {
                    if k < whole_len as int {
                        assert(is_digit(body.take(whole_len as int)[k]));
                    }
                    assert(body[k] == '.');
                }
                assert(whole_len < k);
                assert(!is_digit(body.take(k)[whole_len as int]));
            }
            return None;
        }
        proof {
            lemma_dot_index(body);
            assert(body[whole_len as int] == '.');
            if k < whole_len as int {
                assert(is_digit(body.take(whole_len as int)[k]));
                assert(body[k] == '.');
            }
            if k > whole_len as int {
                assert(body[whole_len as int] != '.');
            }
            assert(k == whole_len as int);
            assert(body.take(k) =~= body.take(whole_len as int));
        }
        i = i + 1;
        let fs = i;
        let ghost frac = body.skip(k + 1);
        proof {
            assert(forall|j: int| 0 <= j < frac.len() ==> frac[j] == s@[j + fs]);
            assert(frac.len() == len - fs);
            assert(frac.take(0) =~= Seq::<char>::empty());
        }
        if len - fs > MAX_FRAC_DIGITS {
            return None;
        }
        // Scan the fractional part.
        let mut frac_val: u128 = 0;
        loop
            invariant
                len == s@.len(),
                fs <= i <= len,
                len - fs <= MAX_FRAC_DIGITS,
                neg == (s@.len() > 0 && s@[0] == '-'),
                body == (if neg { s@.drop_first() } else { s@ }),
                k == dot_index(body),
                k + 1 <= body.len(),
                fs == k + 1 + (if neg { 1int } else { 0int }),
                frac == body.skip(k + 1),
                frac.len() == len - fs,
                forall|j: int| 0 <= j < frac.len() ==> frac[j] == s@[j + fs],
                all_digits(body.take(k)),
                all_digits(frac.take(i - fs)),
                frac_val == digits_val(frac.take(i - fs)),
                frac_val < pow10((i - fs) as nat),
            ensures
                i == len,
            decreases len - i,
        {
            if i >= len {
                break ;
            }
            let c2 = s.get_char(i);
            let ghost p: int = i - fs;
            proof {
                assert(c2 == frac[p]);
            }
            if !(c2 >= '0' && c2 <= '9') {
                proof {
                    assert(!all_digits(frac));
                }
                return None;
            }
            let d = (c2 as u32 - '0' as u32) as u128;
            proof {
                lemma_pow10_mono((p + 1) as nat, 18);
                lemma_pow10_atto();
                assert(frac.take(p + 1).drop_last() =~= frac.take(p));
                assert(all_digits(frac.take(p + 1)));
            }
            frac_val = frac_val * 10 + d;
            i = i + 1;
        }
        let n2 = len - fs;
        proof {
            assert(frac.take(n2 as int) =~= frac);
        }
        if whole_len == 0 && n2 == 0 {
            return None;
        }
        let mult = pow10_u128(MAX_FRAC_DIGITS - n2);
        let ghost rest: nat = (MAX_FRAC_DIGITS - n2) as nat;
        proof {
            lemma_pow10_atto();
            lemma_mul_inequality(whole_val as int, MAX_WHOLE as int, ATTO_PER_UNIT as int);
            lemma_pow10_pos(rest);
            lemma_pow10_add(n2 as nat, rest);
            lemma_mul_inequality(frac_val as int, pow10(n2 as nat) - 1, pow10(rest));
            assert((pow10(n2 as nat) - 1) * pow10(rest) == pow10(n2 as nat) * pow10(rest) - pow10(
                rest,
            )) by (nonlinear_arith);
            assert(frac_val * mult < pow10(18));
        }
        let units = whole_val * ATTO_PER_UNIT + frac_val * mult;
        let dec = Decimal { neg: if units == 0 { false } else { neg }, atto: units };
        proof {
            assert(spec_parse_decimal(s@) == Some(dec));
        }
        Some(dec)
    }
}


/// Parsing yields a canonical decimal: zero never carries a sign.
pub proof fn lemma_parse_canonical(s: Seq<char>, d: Decimal)
    requires
        spec_parse_decimal(s) == Some(d),
    ensures
        d.atto == 0 ==> !d.neg,
{
}

/// Canonical decimals with the same value are the same decimal, so value
/// equality and plain equality agree on parsed decimals.
pub proof fn lemma_canonical_value_eq(a: Decimal, b: Decimal)
    requires
        a.atto == 0 ==> !a.neg,
        b.atto == 0 ==> !b.neg,
        a.value() == b.value(),
    ensures
        a == b,
{
}

} // verus!
