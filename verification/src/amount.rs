//! The fixed-point currency amount.
//!
//! An `Amount` holds money as a signed 64-bit count of hundredths of a
//! unit, so that arithmetic is exact integer arithmetic. It is parsed
//! from decimal text, added and scaled in place, and rendered with
//! exactly two digits after the decimal point.

use vstd::prelude::*;

verus! {

use vstd::string::{StrSliceExecFns, StringExecFns};
use vstd::std_specs::cmp::PartialOrdSpec;
use crate::decimal::{
    is_digit_char, digit_val, digit_char, dec_digits, digits_val, display_chars, fits_i64,
    frac_cents, spec_parse, valid_decimal_body, body_cents, seq_is_digits, lemma_first_dot_at,
    lemma_first_dot_none,
};

/// The largest whole count of units whose cents still fit: `i64::MAX / 100`.
const UNITS_CAP: u64 = 92233720368547758;

/// `i64::MAX`, as an unsigned magnitude.
const MAX_POS_CENTS: u64 = 9223372036854775807;

/// The magnitude of `i64::MIN`: the largest magnitude a negative amount may have.
const MAX_NEG_CENTS: u64 = 9223372036854775808;

/// Why a decimal string was rejected: it is not a decimal numeral at
/// all, or it denotes a value outside the 64-bit cents range.
#[derive(Copy, Clone, Debug, PartialEq, Eq, Structural)]
pub enum AmountParseError {
    Invalid,
    OutOfRange,
}

/// A monetary value held as a signed count of hundredths (cents).
#[derive(Copy, Clone, Debug, Eq, Hash, PartialEq, Ord, Structural)]
pub struct Amount {
    pub as_int: i64,
}

impl Amount {
    /// The zero amount.
    pub fn new() -> (r: Self)
        ensures
            r.as_int == 0,
    {
        Amount { as_int: 0 }
    }

    /// Parses a decimal string into an amount, rejecting with
    /// `Invalid` anything that is not an optionally signed decimal
    /// numeral, and with `OutOfRange` any numeral whose value in cents
    /// does not fit the 64-bit representation. Fractional digits beyond
    /// the second round half away from zero.
    #[verifier::loop_isolation(false)]
    #[verifier::rlimit(100)]
    pub fn from_str_checked(input: &str) -> (r: Result<Amount, AmountParseError>)
        ensures
            match r {
                Ok(a) => spec_parse(input@) == Some(a.as_int as int),
                Err(AmountParseError::Invalid) => spec_parse(input@) is None,
                Err(AmountParseError::OutOfRange) => spec_parse(input@) matches Some(c)
                    && !fits_i64(c),
            },
    {
        let n: usize = input.unicode_len();
        let mut neg: bool = false;
        let mut start: usize = 0;
        if n > 0 {
            let c0 = input.get_char(0);
            if c0 == '-' {
                neg = true;
                start = 1;
            } else if c0 == '+' {
                start = 1;
            }
        }
        let ghost sv = input@;
        let ghost body = sv.subrange(start as int, n as int);
        proof {
            if start == 1 {
                assert(body =~= sv.drop_first());
            } else {
                assert(body =~= sv);
            }
        }
        // Find the first decimal point; `dot == n` means there is none.
        let mut dot: usize = n;
        let mut i: usize = start;
        while i < n
            invariant
                start <= i <= n,
                dot == n ==> forall|j: int| start <= j < i ==> #[trigger] sv[j] != '.',
                dot < n ==> start <= dot < i && sv[dot as int] == '.' && (forall|j: int|
                    start <= j < dot ==> #[trigger] sv[j] != '.'),
                dot <= n,
            decreases n - i,
        {
            if dot == n {
                let c = input.get_char(i);
                if c == '.' {
                    dot = i;
                }
            }
            i = i + 1;
        }
        proof {
            if dot < n {
                let dr = dot - start as int;
                assert(body[dr] == '.');
                assert forall|j: int| 0 <= j < dr implies #[trigger] body[j] != '.' by {
                    assert(body[j] == sv[start + j]);
                }
                lemma_first_dot_at(body, dr);
            } else {
                assert forall|j: int| 0 <= j < body.len() implies #[trigger] body[j] != '.' by {
                    assert(body[j] == sv[start + j]);
                }
                lemma_first_dot_none(body);
            }
        }
        // An empty body, or a body that is only the point, has no digits.
        if start >= n {
            return Err(AmountParseError::Invalid);
        }
        if dot < n && n - start < 2 {
            return Err(AmountParseError::Invalid);
        }
        // The whole-unit digits, before the point.
        let int_end: usize = if dot < n {
            dot
        } else {
            n
        };
        let ghost ip = sv.subrange(start as int, int_end as int);
        let mut acc: u64 = 0;
        let mut too_big: bool = false;
        let mut k: usize = start;
        while k < int_end
            invariant
                start <= k <= int_end,
                forall|j: int| start <= j < k ==> is_digit_char(#[trigger] sv[j]),
                !too_big ==> acc <= UNITS_CAP && acc as nat == digits_val(
                    sv.subrange(start as int, k as int),
                ),
                too_big ==> digits_val(sv.subrange(start as int, k as int)) > UNITS_CAP,
            decreases int_end - k,
        {
            let c = input.get_char(k);
            match digit_of(c) {
                Some(d) => {
                    proof {
                        let pre = sv.subrange(start as int, k as int);
                        let cur = sv.subrange(start as int, k as int + 1);
                        assert(cur.drop_last() =~= pre);
                        assert(cur.last() == sv[k as int]);
                    }
                    if too_big {
                    } else {
                        let nv: u64 = acc * 10 + d as u64;
                        if nv > UNITS_CAP {
                            too_big = true;
                        } else {
                            acc = nv;
                        }
                    }
                },
                None => {
                    proof {
                        if dot < n {
                            let dr = dot - start as int;
                            assert(body.subrange(0, dr)[k - start as int] == sv[k as int]);
                            assert(!valid_decimal_body(body));
                        } else {
                            assert(body[k - start as int] == sv[k as int]);
                            assert(!valid_decimal_body(body));
                        }
                    }
                    return Err(AmountParseError::Invalid);
                },
            }
            k = k + 1;
        }
        // The fractional digits, after the point: the first two give the
        // cents, a third of five or more rounds up, the rest only need to
        // be digits.
        let mut f1: u8 = 0;
        let mut f2: u8 = 0;
        let mut carry: u8 = 0;
        let ghost fp = sv.subrange(dot as int + 1, n as int);
        if dot < n {
            let mut j: usize = dot + 1;
            while j < n
                invariant
                    dot + 1 <= j <= n,
                    forall|q: int| dot + 1 <= q < j ==> is_digit_char(#[trigger] sv[q]),
                    j >= dot + 2 ==> f1 < 10 && f1 as nat == digit_val(sv[dot as int + 1]),
                    j < dot + 2 ==> f1 == 0,
                    j >= dot + 3 ==> f2 < 10 && f2 as nat == digit_val(sv[dot as int + 2]),
                    j < dot + 3 ==> f2 == 0,
                    j >= dot + 4 ==> carry == (if digit_val(sv[dot as int + 3]) >= 5 {
                        1u8
                    } else {
                        0u8
                    }),
                    j < dot + 4 ==> carry == 0,
                    carry <= 1,
                decreases n - j,
            {
                let c = input.get_char(j);
                match digit_of(c) {
                    Some(d) => {
                        let pos: usize = j - dot;
                        if pos == 1 {
                            f1 = d;
                        } else if pos == 2 {
                            f2 = d;
                        } else if pos == 3 {
                            if d >= 5 {
                                carry = 1;
                            }
                        }
                    },
                    None => {
                        proof {
                            let dr = dot - start as int;
                            assert(body.subrange(dr + 1, body.len() as int) =~= fp);
                            assert(fp[j - dot as int - 1] == sv[j as int]);
                            assert(!valid_decimal_body(body));
                        }
                        return Err(AmountParseError::Invalid);
                    },
                }
                j = j + 1;
            }
        }
        let fc: u64 = 10 * (f1 as u64) + (f2 as u64) + (carry as u64);
        proof {
            if dot < n {
                let dr = dot - start as int;
                assert(body.subrange(0, dr) =~= ip);
                assert(body.subrange(dr + 1, body.len() as int) =~= fp);
                assert(seq_is_digits(ip)) by {
                    assert forall|j: int| 0 <= j < ip.len() implies is_digit_char(
                        #[trigger] ip[j],
                    ) by {
                        assert(ip[j] == sv[start + j]);
                    }
                }
                assert(seq_is_digits(fp)) by {
                    assert forall|j: int| 0 <= j < fp.len() implies is_digit_char(
                        #[trigger] fp[j],
                    ) by {
                        assert(fp[j] == sv[dot + 1 + j]);
                    }
                }
                assert(valid_decimal_body(body));
                assert(fc as nat == frac_cents(fp)) by {
                    if fp.len() >= 1 {
                        assert(fp[0] == sv[dot as int + 1]);
                    }
                    if fp.len() >= 2 {
                        assert(fp[1] == sv[dot as int + 2]);
                    }
                    if fp.len() >= 3 {
                        assert(fp[2] == sv[dot as int + 3]);
                    }
                }
                assert(body_cents(body) == 100 * digits_val(ip) + frac_cents(fp));
            } else {
                assert(body =~= ip);
                assert(seq_is_digits(body)) by {
                    assert forall|j: int| 0 <= j < body.len() implies is_digit_char(
                        #[trigger] body[j],
                    ) by {
                        assert(body[j] == sv[start + j]);
                    }
                }
                assert(valid_decimal_body(body));
                assert(fc == 0);
                assert(body_cents(body) == 100 * digits_val(ip) + fc);
            }
        }
        let ghost cents = body_cents(body);
        proof {
            assert(cents == 100 * digits_val(ip) + fc);
            assert(spec_parse(sv) == Some(
                if neg {
                    -(cents as int)
                } else {
                    cents as int
                },
            ));
        }
        if too_big {
            proof {
                assert(cents >= 100 * (UNITS_CAP + 1));
            }
            return Err(AmountParseError::OutOfRange);
        }
        let total: u64 = acc * 100 + fc;
        proof {
            assert(total as nat == cents);
        }
        if neg {
            if total <= MAX_NEG_CENTS {
                let v: i64 = (-(total as i128)) as i64;
                proof {
                    assert(v as int == -(total as int));
                }
                Ok(Amount { as_int: v })
            } else {
                Err(AmountParseError::OutOfRange)
            }
        } else {
            if total <= MAX_POS_CENTS {
                Ok(Amount { as_int: total as i64 })
            } else {
                Err(AmountParseError::OutOfRange)
            }
        }
    }

    /// Parses a decimal string that is known to be a valid numeral in
    /// range; on anything else the process aborts, as a caller who
    /// skips validation has asked for.
    pub fn new_from_str(input: &str) -> (r: Self)
        requires
            spec_parse(input@) matches Some(c) && fits_i64(c),
        ensures
            spec_parse(input@) == Some(r.as_int as int),
    {
        match Self::from_str_checked(input) {
            Ok(a) => a,
            Err(_) => unreached(),
        }
    }

    /// Adds another amount in place.
    pub fn add_assign(&mut self, other: Amount)
        requires
            fits_i64(old(self).as_int + other.as_int),
        ensures
            final(self).as_int == old(self).as_int + other.as_int,
    {
        self.as_int = self.as_int + other.as_int;
    }

    /// Adds another amount, reporting `None` instead of overflowing.
    pub fn checked_add(self, other: Amount) -> (r: Option<Amount>)
        ensures
            match r {
                Some(a) => a.as_int == self.as_int + other.as_int,
                None => !fits_i64(self.as_int + other.as_int),
            },
    {
        match self.as_int.checked_add(other.as_int) {
            Some(v) => Some(Amount { as_int: v }),
            None => None,
        }
    }

    /// Scales this amount by an integer in place.
    pub fn mul_assign(&mut self, multiplier: i64)
        requires
            fits_i64(old(self).as_int * multiplier),
        ensures
            final(self).as_int == old(self).as_int * multiplier,
    {
        self.as_int = self.as_int * multiplier;
    }

    /// A new amount, this one scaled by an integer.
    pub fn mul(self, rhs: i64) -> (r: Amount)
        requires
            fits_i64(self.as_int * rhs),
        ensures
            r.as_int == self.as_int * rhs,
    {
        Amount { as_int: self.as_int * rhs }
    }

    /// Scales by an integer, reporting `None` instead of overflowing.
    pub fn checked_mul(self, rhs: i64) -> (r: Option<Amount>)
        ensures
            match r {
                Some(a) => a.as_int == self.as_int * rhs,
                None => !fits_i64(self.as_int * rhs),
            },
    {
        match self.as_int.checked_mul(rhs) {
            Some(v) => Some(Amount { as_int: v }),
            None => None,
        }
    }

    /// Renders the amount with exactly two digits after the decimal
    /// point, zero-padded below one unit, with a leading minus sign for
    /// negative values.
    pub fn display(&self) -> (r: String)
        ensures
            r@ == display_chars(self.as_int as int),
    {
        let neg: bool = self.as_int < 0;
        let abs: u64 = if self.as_int < 0 {
            proof {
                assert(0 <= -(self.as_int as i128) <= u64::MAX);
            }
            (-(self.as_int as i128)) as u64
        } else {
            self.as_int as u64
        };
        let mut r = String::new();
        if neg {
            r.append("-");
        }
        push_decimal(&mut r, abs / 100);
        r.append(".");
        push_digit_char(&mut r, ((abs / 10) % 10) as u8);
        push_digit_char(&mut r, (abs % 10) as u8);
        proof {
            reveal_strlit("-");
            reveal_strlit(".");
            assert(("-")@ =~= seq!['-']);
            assert((".")@ =~= seq!['.']);
            assert(r@ =~= display_chars(self.as_int as int));
        }
        r
    }
}

impl Default for Amount {
    /// The zero amount.
    fn default() -> (r: Self)
        ensures
            r.as_int == 0,
    {
        Amount { as_int: 0 }
    }
}

impl PartialOrd for Amount {
    fn partial_cmp(&self, other: &Self) -> (r: Option<core::cmp::Ordering>) {
        if self.as_int < other.as_int {
            Some(core::cmp::Ordering::Less)
        } else if self.as_int == other.as_int {
            Some(core::cmp::Ordering::Equal)
        } else {
            Some(core::cmp::Ordering::Greater)
        }
    }
}

impl vstd::std_specs::cmp::PartialOrdSpecImpl for Amount {
    open spec fn obeys_partial_cmp_spec() -> bool {
        true
    }

    open spec fn partial_cmp_spec(&self, other: &Self) -> Option<core::cmp::Ordering> {
        if self.as_int < other.as_int {
            Some(core::cmp::Ordering::Less)
        } else if self.as_int == other.as_int {
            Some(core::cmp::Ordering::Equal)
        } else {
            Some(core::cmp::Ordering::Greater)
        }
    }
}

/// Two amounts are equal exactly when their counts of cents are equal,
/// and they order exactly as their counts of cents do.
pub proof fn lemma_amount_eq_and_order(a: Amount, b: Amount)
    ensures
        (a == b) <==> (a.as_int == b.as_int),
        a.partial_cmp_spec(&b) == Some(core::cmp::Ordering::Less) <==> a.as_int < b.as_int,
        a.partial_cmp_spec(&b) == Some(core::cmp::Ordering::Equal) <==> a.as_int == b.as_int,
        a.partial_cmp_spec(&b) == Some(core::cmp::Ordering::Greater) <==> a.as_int > b.as_int,
{
}

/// The numeric value of a digit character, or `None` for any other character.
fn digit_of(c: char) -> (r: Option<u8>)
    ensures
        match r {
            Some(d) => is_digit_char(c) && d < 10 && d as nat == digit_val(c),
            None => !is_digit_char(c),
        },
{
    if c == '0' {
        Some(0)
    } else if c == '1' {
        Some(1)
    } else if c == '2' {
        Some(2)
    } else if c == '3' {
        Some(3)
    } else if c == '4' {
        Some(4)
    } else if c == '5' {
        Some(5)
    } else if c == '6' {
        Some(6)
    } else if c == '7' {
        Some(7)
    } else if c == '8' {
        Some(8)
    } else if c == '9' {
        Some(9)
    } else {
        None
    }
}

/// Appends the digit character of a value below ten.
fn push_digit_char(s: &mut String, d: u8)
    requires
        d < 10,
    ensures
        final(s)@ == old(s)@ + seq![digit_char(d as nat)],
{
    if d == 0 {
        proof {
            reveal_strlit("0");
            assert(("0")@ =~= seq![digit_char(0)]);
        }
        s.append("0");
    } else if d == 1 {
        proof {
            reveal_strlit("1");
            assert(("1")@ =~= seq![digit_char(1)]);
        }
        s.append("1");
    } else if d == 2 {
        proof {
            reveal_strlit("2");
            assert(("2")@ =~= seq![digit_char(2)]);
        }
        s.append("2");
    } else if d == 3 {
        proof {
            reveal_strlit("3");
            assert(("3")@ =~= seq![digit_char(3)]);
        }
        s.append("3");
    } else if d == 4 {
        proof {
            reveal_strlit("4");
            assert(("4")@ =~= seq![digit_char(4)]);
        }
        s.append("4");
    } else if d == 5 {
        proof {
            reveal_strlit("5");
            assert(("5")@ =~= seq![digit_char(5)]);
        }
        s.append("5");
    } else if d == 6 {
        proof {
            reveal_strlit("6");
            assert(("6")@ =~= seq![digit_char(6)]);
        }
        s.append("6");
    } else if d == 7 {
        proof {
            reveal_strlit("7");
            assert(("7")@ =~= seq![digit_char(7)]);
        }
        s.append("7");
    } else if d == 8 {
        proof {
            reveal_strlit("8");
            assert(("8")@ =~= seq![digit_char(8)]);
        }
        s.append("8");
    } else {
        proof {
            reveal_strlit("9");
            assert(("9")@ =~= seq![digit_char(9)]);
        }
        s.append("9");
    }
}

/// Appends the decimal digits of `n`, most significant first.
fn push_decimal(s: &mut String, n: u64)
    ensures
        final(s)@ == old(s)@ + dec_digits(n as nat),
    decreases n,
{
    if n < 10 {
        push_digit_char(s, n as u8);
    } else {
        push_decimal(s, n / 10);
        push_digit_char(s, (n % 10) as u8);
        proof {
            assert(s@ =~= old(s)@ + dec_digits(n as nat));
        }
    }
}

} // verus!
