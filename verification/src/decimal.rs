//! The decimal-string model of a fixed-point amount.
//!
//! An amount is an integer count of hundredths (cents). This module says,
//! at the specification level, what decimal text means: which character
//! sequences are valid decimal numerals, what count of cents a numeral
//! denotes (rounding half away from zero beyond two fractional digits),
//! and what the canonical two-decimal rendering of a count of cents is.

use vstd::prelude::*;

verus! {

use vstd::arithmetic::div_mod::{
    lemma_fundamental_div_mod, lemma_div_denominator, lemma_fundamental_div_mod_converse,
};

/// The ten decimal digit characters.
pub open spec fn is_digit_char(c: char) -> bool {
    c == '0' || c == '1' || c == '2' || c == '3' || c == '4' || c == '5' || c == '6' || c == '7'
        || c == '8' || c == '9'
}

/// The numeric value of a digit character (0 for anything else).
pub open spec fn digit_val(c: char) -> nat {
    if c == '1' {
        1
    } else if c == '2' {
        2
    } else if c == '3' {
        3
    } else if c == '4' {
        4
    } else if c == '5' {
        5
    } else if c == '6' {
        6
    } else if c == '7' {
        7
    } else if c == '8' {
        8
    } else if c == '9' {
        9
    } else {
        0
    }
}

/// The digit character for a value below ten ('9' for anything else).
pub open spec fn digit_char(d: nat) -> char {
    if d == 0 {
        '0'
    } else if d == 1 {
        '1'
    } else if d == 2 {
        '2'
    } else if d == 3 {
        '3'
    } else if d == 4 {
        '4'
    } else if d == 5 {
        '5'
    } else if d == 6 {
        '6'
    } else if d == 7 {
        '7'
    } else if d == 8 {
        '8'
    } else {
        '9'
    }
}

/// Every character of `s` is a decimal digit.
pub open spec fn seq_is_digits(s: Seq<char>) -> bool {
    forall|i: int| 0 <= i < s.len() ==> is_digit_char(#[trigger] s[i])
}

/// The number denoted by a sequence of digit characters, most significant first.
pub open spec fn digits_val(s: Seq<char>) -> nat
    decreases s.len(),
{
    if s.len() == 0 {
        0
    } else {
        10 * digits_val(s.drop_last()) + digit_val(s.last())
    }
}

/// The digit characters of `n`, most significant first, with no leading
/// zero except for `n == 0` itself.
pub open spec fn dec_digits(n: nat) -> Seq<char>
    decreases n,
{
    if n < 10 {
        seq![digit_char(n)]
    } else {
        dec_digits(n / 10) + seq![digit_char(n % 10)]
    }
}

/// The position of the first `'.'` in `s`, if any.
pub open spec fn first_dot(s: Seq<char>) -> Option<int>
    decreases s.len(),
{
    if s.len() == 0 {
        None
    } else if s[0] == '.' {
        Some(0int)
    } else {
        match first_dot(s.drop_first()) {
            Some(i) => Some(i + 1),
            None => None,
        }
    }
}

/// The cents denoted by the fractional digits `fp` (the digits after the
/// decimal point), rounded half away from zero: the first two digits give
/// the cents and a third digit of five or more rounds up. Digits past the
/// third cannot move the remainder across one half cent.
pub open spec fn frac_cents(fp: Seq<char>) -> nat {
    (if fp.len() >= 1 {
        10 * digit_val(fp[0])
    } else {
        0
    }) + (if fp.len() >= 2 {
        digit_val(fp[1])
    } else {
        0
    }) + (if fp.len() >= 3 && digit_val(fp[2]) >= 5 {
        1nat
    } else {
        0
    })
}

/// `s` is a valid unsigned decimal numeral: digits, at most one point,
/// and at least one digit.
pub open spec fn valid_decimal_body(s: Seq<char>) -> bool {
    match first_dot(s) {
        None => s.len() >= 1 && seq_is_digits(s),
        Some(i) => seq_is_digits(s.subrange(0, i)) && seq_is_digits(
            s.subrange(i + 1, s.len() as int),
        ) && s.len() >= 2,
    }
}

/// The cents denoted by a valid unsigned decimal numeral.
pub open spec fn body_cents(s: Seq<char>) -> nat {
    match first_dot(s) {
        None => 100 * digits_val(s),
        Some(i) => 100 * digits_val(s.subrange(0, i)) + frac_cents(
            s.subrange(i + 1, s.len() as int),
        ),
    }
}

/// What a decimal string denotes, in cents: an optional sign, then a
/// valid unsigned numeral; `None` for anything else.
pub open spec fn spec_parse(s: Seq<char>) -> Option<int> {
    if s.len() >= 1 && (s[0] == '-' || s[0] == '+') {
        let body = s.drop_first();
        if valid_decimal_body(body) {
            if s[0] == '-' {
                Some(-(body_cents(body) as int))
            } else {
                Some(body_cents(body) as int)
            }
        } else {
            None
        }
    } else {
        if valid_decimal_body(s) {
            Some(body_cents(s) as int)
        } else {
            None
        }
    }
}

/// The cents value fits the 64-bit signed representation.
pub open spec fn fits_i64(c: int) -> bool {
    i64::MIN <= c <= i64::MAX
}

/// The canonical two-decimal rendering of a nonnegative count of cents:
/// the whole units, a point, then exactly two fractional digits.
pub open spec fn abs_cents_chars(a: nat) -> Seq<char> {
    dec_digits(a / 100) + seq!['.'] + seq![digit_char((a / 10) % 10), digit_char(a % 10)]
}

/// The canonical two-decimal rendering of a count of cents, with a
/// leading minus sign for negative values.
pub open spec fn display_chars(c: int) -> Seq<char> {
    if c < 0 {
        seq!['-'] + abs_cents_chars((-c) as nat)
    } else {
        abs_cents_chars(c as nat)
    }
}

/// `digit_char` and `digit_val` are inverse on single digits.
pub proof fn lemma_digit_char_val(d: nat)
    requires
        d < 10,
    ensures
        is_digit_char(digit_char(d)),
        digit_val(digit_char(d)) == d,
{
}

/// `dec_digits(n)` is a nonempty digit string that denotes `n`.
pub proof fn lemma_dec_digits(n: nat)
    ensures
        dec_digits(n).len() >= 1,
        seq_is_digits(dec_digits(n)),
        digits_val(dec_digits(n)) == n,
    decreases n,
{
    let s = dec_digits(n);
    if n < 10 {
        lemma_digit_char_val(n);
        assert(s.len() == 1);
        assert(s.last() == digit_char(n));
        assert(s.drop_last() =~= Seq::<char>::empty());
        assert(digits_val(s.drop_last()) == 0);
        assert(digits_val(s) == digit_val(digit_char(n)));
    } else {
        lemma_dec_digits(n / 10);
        lemma_digit_char_val(n % 10);
        let prefix = dec_digits(n / 10);
        let c = digit_char(n % 10);
        assert(s.drop_last() =~= prefix);
        assert(s.last() == c);
        assert(digits_val(s) == 10 * digits_val(prefix) + digit_val(c));
        assert(seq_is_digits(s)) by {
            assert forall|i: int| 0 <= i < s.len() implies is_digit_char(#[trigger] s[i]) by {
                if i < prefix.len() {
                    assert(s[i] == prefix[i]);
                } else {
                    assert(s[i] == c);
                }
            }
        }
    }
}

/// A sequence without a point has no first point.
pub proof fn lemma_first_dot_none(s: Seq<char>)
    requires
        forall|j: int| 0 <= j < s.len() ==> #[trigger] s[j] != '.',
    ensures
        first_dot(s) is None,
    decreases s.len(),
{
    if s.len() > 0 {
        let t = s.drop_first();
        assert forall|j: int| 0 <= j < t.len() implies #[trigger] t[j] != '.' by {
            assert(t[j] == s[j + 1]);
        }
        lemma_first_dot_none(t);
    }
}

/// A point at `i` with none before it is the first point.
pub proof fn lemma_first_dot_at(s: Seq<char>, i: int)
    requires
        0 <= i < s.len(),
        s[i] == '.',
        forall|j: int| 0 <= j < i ==> #[trigger] s[j] != '.',
    ensures
        first_dot(s) == Some(i),
    decreases s.len(),
{
    if i > 0 {
        let t = s.drop_first();
        assert(t[i - 1] == s[i]);
        assert forall|j: int| 0 <= j < i - 1 implies #[trigger] t[j] != '.' by {
            assert(t[j] == s[j + 1]);
        }
        lemma_first_dot_at(t, i - 1);
    }
}

/// Splitting a nonnegative count of cents into units and two fractional
/// digits loses nothing.
pub proof fn lemma_cents_split(a: nat)
    ensures
        a == 100 * (a / 100) + 10 * ((a / 10) % 10) + a % 10,
        (a / 10) % 10 < 10,
        a % 10 < 10,
{
    lemma_fundamental_div_mod(a as int, 10);
    lemma_fundamental_div_mod(a as int / 10, 10);
    lemma_div_denominator(a as int, 10, 10);
}

/// `digit_val` and `digit_char` are inverse on digit characters.
pub proof fn lemma_digit_val_char(c: char)
    requires
        is_digit_char(c),
    ensures
        digit_val(c) < 10,
        digit_char(digit_val(c)) == c,
{
}

/// A digit string with a nonzero leading digit denotes at least one,
/// and at least ten when it has two or more digits.
pub proof fn lemma_digits_val_lower_bound(s: Seq<char>)
    requires
        seq_is_digits(s),
        s.len() >= 1,
        s[0] != '0',
    ensures
        digits_val(s) >= 1,
        s.len() >= 2 ==> digits_val(s) >= 10,
    decreases s.len(),
{
    if s.len() == 1 {
        assert(is_digit_char(s[0]));
        assert(s.drop_last() =~= Seq::<char>::empty());
        assert(digits_val(s.drop_last()) == 0);
        assert(digits_val(s) == digit_val(s.last()));
    } else {
        let p = s.drop_last();
        assert(p[0] == s[0]);
        lemma_digits_val_lower_bound(p);
    }
}

/// `dec_digits` undoes `digits_val` on digit strings without a leading
/// zero: such a string is the one rendering of its value.
pub proof fn lemma_dec_digits_of_val(s: Seq<char>)
    requires
        seq_is_digits(s),
        s.len() >= 1,
        s.len() >= 2 ==> s[0] != '0',
    ensures
        dec_digits(digits_val(s)) == s,
    decreases s.len(),
{
    let v = digits_val(s);
    if s.len() == 1 {
        lemma_digit_val_char(s[0]);
        assert(s.drop_last() =~= Seq::<char>::empty());
        assert(digits_val(s.drop_last()) == 0);
        assert(v == digit_val(s[0]));
        assert(dec_digits(v) =~= s);
    } else {
        let p = s.drop_last();
        let c = s.last();
        assert(p[0] == s[0]);
        lemma_digits_val_lower_bound(p);
        lemma_dec_digits_of_val(p);
        lemma_digit_val_char(c);
        assert(v == 10 * digits_val(p) + digit_val(c));
        assert(v >= 10);
        lemma_fundamental_div_mod_converse(
            v as int,
            10,
            digits_val(p) as int,
            digit_val(c) as int,
        );
        assert(dec_digits(v) == dec_digits(digits_val(p)) + seq![digit_char(digit_val(c))]);
        assert(dec_digits(v) =~= s);
    }
}

/// `s` is already in canonical two-decimal form, before any sign: some
/// whole-unit digits without a leading zero, a point, and exactly two
/// fractional digits.
pub open spec fn canonical_unsigned(s: Seq<char>) -> bool {
    &&& s.len() >= 4
    &&& s[s.len() - 3] == '.'
    &&& seq_is_digits(s.subrange(0, s.len() - 3))
    &&& s.len() >= 5 ==> s[0] != '0'
    &&& is_digit_char(s[s.len() - 2])
    &&& is_digit_char(s[s.len() - 1])
}

/// `s` is in canonical two-decimal form: an optional minus sign, never
/// on a zero value, then a canonical unsigned numeral.
pub open spec fn is_canonical_display(s: Seq<char>) -> bool {
    if s.len() >= 1 && s[0] == '-' {
        canonical_unsigned(s.drop_first()) && body_cents(s.drop_first()) != 0
    } else {
        canonical_unsigned(s)
    }
}

/// A numeral already in canonical two-decimal form parses, and
/// rendering the parsed count of cents reproduces it exactly,
/// character for character.
pub proof fn lemma_parse_display_canonical(s: Seq<char>)
    requires
        is_canonical_display(s),
    ensures
        spec_parse(s) matches Some(c) && display_chars(c) == s,
{
    let neg = s.len() >= 1 && s[0] == '-';
    let b = if neg {
        s.drop_first()
    } else {
        s
    };
    let m = b.len() as int;
    let u = b.subrange(0, m - 3);
    let d1 = b[m - 2];
    let d2 = b[m - 1];
    let v1 = digit_val(d1);
    let v2 = digit_val(d2);
    // The point at m - 3 is the first one, since all before it are digits.
    assert forall|j: int| 0 <= j < m - 3 implies #[trigger] b[j] != '.' by {
        assert(b[j] == u[j]);
        assert(is_digit_char(u[j]));
    }
    lemma_first_dot_at(b, m - 3);
    let fp = b.subrange(m - 2, m);
    assert(seq_is_digits(fp)) by {
        assert(fp[0] == d1);
        assert(fp[1] == d2);
    }
    assert(valid_decimal_body(b));
    lemma_digit_val_char(d1);
    lemma_digit_val_char(d2);
    assert(frac_cents(fp) == 10 * v1 + v2);
    let a = body_cents(b);
    assert(a == 100 * digits_val(u) + 10 * v1 + v2);
    // Split `a` back into its units and its two fractional digits.
    lemma_fundamental_div_mod_converse(
        a as int,
        100,
        digits_val(u) as int,
        (10 * v1 + v2) as int,
    );
    lemma_fundamental_div_mod_converse(
        a as int,
        10,
        (10 * digits_val(u) + v1) as int,
        v2 as int,
    );
    lemma_fundamental_div_mod_converse(
        (10 * digits_val(u) + v1) as int,
        10,
        digits_val(u) as int,
        v1 as int,
    );
    assert(a / 100 == digits_val(u));
    assert((a / 10) % 10 == v1);
    assert(a % 10 == v2);
    // The units render back to exactly the digits they came from.
    assert(u[0] == b[0]);
    lemma_dec_digits_of_val(u);
    assert(abs_cents_chars(a) =~= b);
    if neg {
        assert(a != 0);
        let c = -(a as int);
        assert(spec_parse(s) == Some(c));
        assert(display_chars(c) == seq!['-'] + abs_cents_chars(a));
        assert(display_chars(c) =~= s);
    } else {
        assert(is_digit_char(u[0]));
        assert(s[0] != '-' && s[0] != '+');
        assert(spec_parse(s) == Some(a as int));
        assert(display_chars(a as int) == abs_cents_chars(a));
    }
}

/// Rendering a count of cents and reading the rendering back gives the
/// same count: parsing is a left inverse of display over the whole
/// representable range.
pub proof fn lemma_display_parse_round_trip(c: int)
    requires
        fits_i64(c),
    ensures
        spec_parse(display_chars(c)) == Some(c),
{
    let a = (if c < 0 { -c } else { c }) as nat;
    let d = dec_digits(a / 100);
    lemma_dec_digits(a / 100);
    lemma_digit_char_val((a / 10) % 10);
    lemma_digit_char_val(a % 10);
    lemma_cents_split(a);
    let body = abs_cents_chars(a);
    assert(body.len() == d.len() + 3);
    assert(body[d.len() as int] == '.');
    assert forall|j: int| 0 <= j < d.len() implies #[trigger] body[j] != '.' by {
        assert(body[j] == d[j]);
        assert(is_digit_char(d[j]));
    }
    lemma_first_dot_at(body, d.len() as int);
    assert(body.subrange(0, d.len() as int) =~= d);
    let fp = body.subrange(d.len() as int + 1, body.len() as int);
    assert(fp =~= seq![digit_char((a / 10) % 10), digit_char(a % 10)]);
    assert(seq_is_digits(fp)) by {
        assert(is_digit_char(fp[0]));
        assert(is_digit_char(fp[1]));
    }
    assert(valid_decimal_body(body));
    assert(frac_cents(fp) == 10 * ((a / 10) % 10) + a % 10);
    assert(body_cents(body) == 100 * (a / 100) + frac_cents(fp));
    assert(body_cents(body) == a);
    if c < 0 {
        let s = display_chars(c);
        assert(s[0] == '-');
        assert(s.drop_first() =~= body);
        assert(spec_parse(s) == Some(-(a as int)));
    } else {
        assert(display_chars(c) == body);
        assert(body[0] == d[0]);
        assert(is_digit_char(d[0]));
        assert(body[0] != '-' && body[0] != '+');
    }
}

} // verus!
