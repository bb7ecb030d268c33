//! Measured values and their decimal text.
//!
//! A value is kept as a whole number of thousandths, so that the table, the
//! snapshots and the text drawn on the display are exact.

use std::collections::HashMap;
use vstd::arithmetic::div_mod::lemma_fundamental_div_mod;
use vstd::prelude::*;

verus! {

/// The latest value of each meter, by identifier: the measurement table, and
/// the snapshot of it that is handed to the renderer.
pub type Measurements = HashMap<u64, Sample>;

/// One measured value, in thousandths of the meter's unit.
#[derive(Clone, Copy, Debug, PartialEq, Eq, Structural)]
pub struct Sample {
    pub millis: i64,
}

/// Thousandths in one unit.
pub const MILLIS_PER_UNIT: i64 = 1000;

/// Digits after the decimal point that a value holds; further digits of its
/// text are zeros.
pub const STORED_DIGITS: usize = 3;

impl Sample {
    /// The value of a meter that was not sampled yet.
    pub open spec fn zero() -> Sample {
        Sample { millis: 0 }
    }

    /// The value of the given number of thousandths.
    pub fn from_millis(millis: i64) -> (s: Sample)
        ensures
            s.millis == millis,
    {
        Sample { millis }
    }

    /// The value of a whole number of units.
    pub fn from_units(units: i32) -> (s: Sample)
        ensures
            s.millis == units * 1000,
    {
        let wide: i64 = units as i64;
        Sample { millis: wide * MILLIS_PER_UNIT }
    }

    /// The text of the value with `precision` digits after the point, set to
    /// the right of a field of `width` characters. A longer text is not cut.
    pub fn format(&self, width: usize, precision: usize) -> (text: String)
        ensures
            text@ == formatted(self.millis as int, width as nat, precision as nat),
    {
        let number = number_chars(self.millis, precision);
        let mut text = String::new();
        let mut pad: usize = 0;
        while pad < width && width - pad > number.len()
            invariant
                pad <= width,
                pad == 0 || pad + number.len() <= width,
                text@ == repeated(' ', pad as nat),
            decreases width - pad,
        {
            push_char(&mut text, ' ');
            pad = pad + 1;
            assert(text@ =~= repeated(' ', pad as nat));
        }
        let mut i: usize = 0;
        while i < number.len()
            invariant
                i <= number.len(),
                text@ == repeated(' ', pad as nat) + number@.subrange(0, i as int),
            decreases number.len() - i,
        {
            push_char(&mut text, number[i]);
            i = i + 1;
            assert(text@ =~= repeated(' ', pad as nat) + number@.subrange(0, i as int));
        }
        assert(number@.subrange(0, i as int) =~= number@);
        assert(repeated(' ', 0) + number@ =~= number@);
        text
    }
}

/// `String::push`: the character is added at the end of the text and the rest
/// of the text stays as it was.
#[verifier::external_body]
fn push_char(text: &mut String, c: char)
    ensures
        final(text)@ == old(text)@.push(c),
{
    text.push(c);
}

/// The size of a value without its sign.
pub open spec fn magnitude(millis: int) -> nat {
    if millis < 0 {
        (-millis) as nat
    } else {
        millis as nat
    }
}

/// Ten to the power `k`.
pub open spec fn pow10(k: nat) -> nat
    decreases k,
{
    if k == 0 {
        1
    } else {
        10 * pow10((k - 1) as nat)
    }
}

/// Digits after the point that are computed from the value.
pub open spec fn kept_digits(precision: nat) -> nat {
    if precision < 3 {
        precision
    } else {
        3
    }
}

/// `amount / unit` rounded to the nearest whole number, a tie going to the
/// even neighbour.
pub open spec fn nearest_even(amount: nat, unit: nat) -> nat {
    let q = amount / unit;
    let r = amount % unit;
    if 2 * r > unit || (2 * r == unit && q % 2 == 1) {
        q + 1
    } else {
        q
    }
}

/// A magnitude in thousandths as a whole number of the last digit shown.
pub open spec fn rounded(mag: nat, precision: nat) -> nat {
    nearest_even(mag, pow10((3 - kept_digits(precision)) as nat))
}

/// The character of the digit `d`.
pub open spec fn digit(d: nat) -> char {
    if d == 0 {
        '0'
    } else if d == 1 {
        '1'
    } else if d == 2 {
        '2'
    } else if d == 3 {
        '3'
    } else if d == 4 {
        '4'
    } else if d == 5 {
        '5'
    } else if d == 6 {
        '6'
    } else if d == 7 {
        '7'
    } else if d == 8 {
        '8'
    } else {
        '9'
    }
}

/// The decimal digits of `n`, without leading zeros; `0` is one digit.
pub open spec fn decimal(n: nat) -> Seq<char>
    decreases n,
{
    if n < 10 {
        seq![digit(n)]
    } else {
        decimal(n / 10).push(digit(n % 10))
    }
}

/// The last `count` decimal digits of `n`, leading zeros included.
pub open spec fn last_digits(n: nat, count: nat) -> Seq<char>
    decreases count,
{
    if count == 0 {
        Seq::empty()
    } else {
        last_digits(n / 10, (count - 1) as nat).push(digit(n % 10))
    }
}

/// `count` times the character `c`.
pub open spec fn repeated(c: char, count: nat) -> Seq<char> {
    Seq::new(count, |i: int| c)
}

/// The value as a decimal number: a minus sign for a value below zero, the
/// whole part, and for a precision above zero the point and that many digits.
pub open spec fn number_text(millis: int, precision: nat) -> Seq<char> {
    let kept = kept_digits(precision);
    let scaled = rounded(magnitude(millis), precision);
    let sign = if millis < 0 {
        seq!['-']
    } else {
        Seq::<char>::empty()
    };
    let whole = decimal(scaled / pow10(kept));
    if precision == 0 {
        sign + whole
    } else {
        sign + whole + seq!['.'] + last_digits(scaled % pow10(kept), kept) + repeated(
            '0',
            (precision - kept) as nat,
        )
    }
}

/// `text` moved to the right end of a field of `width` characters.
pub open spec fn justified(text: Seq<char>, width: nat) -> Seq<char> {
    if text.len() >= width {
        text
    } else {
        repeated(' ', (width - text.len()) as nat) + text
    }
}

/// The text of a value in its field: the number, moved to the right end.
pub open spec fn formatted(millis: int, width: nat, precision: nat) -> Seq<char> {
    justified(number_text(millis, precision), width)
}

/// `nearest_even` is a nearest whole number: it is off by half a unit at
/// most.
pub proof fn lemma_nearest_even_is_nearest(amount: nat, unit: nat)
    requires
        unit > 0,
    ensures
        2 * (nearest_even(amount, unit) * unit - amount) <= unit,
        2 * (amount - nearest_even(amount, unit) * unit) <= unit,
{
    let q = amount / unit;
    let r = amount % unit;
    lemma_fundamental_div_mod(amount as int, unit as int);
    assert(unit * q == q * unit) by (nonlinear_arith);
    assert((q + 1) * unit == q * unit + unit) by (nonlinear_arith);
}

/// The formatted text fills the field: it has `width` characters, or more
/// where the number does not fit.
pub proof fn lemma_formatted_fills_field(millis: int, width: nat, precision: nat)
    ensures
        formatted(millis, width, precision).len() >= width,
        number_text(millis, precision).len() <= width ==> formatted(
            millis,
            width,
            precision,
        ).len() == width,
        number_text(millis, precision).len() >= width ==> formatted(millis, width, precision)
            == number_text(millis, precision),
{
}

fn digit_char(d: u64) -> (c: char)
    requires
        d < 10,
    ensures
        c == digit(d as nat),
{
    if d == 0 {
        '0'
    } else if d == 1 {
        '1'
    } else if d == 2 {
        '2'
    } else if d == 3 {
        '3'
    } else if d == 4 {
        '4'
    } else if d == 5 {
        '5'
    } else if d == 6 {
        '6'
    } else if d == 7 {
        '7'
    } else if d == 8 {
        '8'
    } else {
        '9'
    }
}

/// Adds the decimal digits of `n` to `out`.
fn push_decimal(out: &mut Vec<char>, n: u64)
    ensures
        final(out)@ == old(out)@ + decimal(n as nat),
{
    let mut low_first: Vec<char> = Vec::new();
    let mut rest: u64 = n;
    while rest >= 10
        invariant
            decimal(n as nat) == decimal(rest as nat) + low_first@.reverse(),
        decreases rest,
    {
        let d = digit_char(rest % 10);
        proof {
            let before = low_first@;
            let after = before.push(d);
            assert(after.reverse() =~= seq![d] + before.reverse());
            assert(decimal(rest as nat) == decimal((rest / 10) as nat).push(d));
            assert(decimal((rest / 10) as nat).push(d) + before.reverse() =~= decimal(
                (rest / 10) as nat,
            ) + after.reverse());
        }
        low_first.push(d);
        rest = rest / 10;
    }
    let top = digit_char(rest);
    out.push(top);
    let mut k: usize = low_first.len();
    while k > 0
        invariant
            k <= low_first.len(),
            out@ == old(out)@ + seq![top] + low_first@.reverse().subrange(
                0,
                low_first.len() - k,
            ),
        decreases k,
    {
        k = k - 1;
        out.push(low_first[k]);
        assert(out@ =~= old(out)@ + seq![top] + low_first@.reverse().subrange(
            0,
            low_first.len() - k,
        ));
    }
    assert(low_first@.reverse().subrange(0, low_first.len() as int) =~= low_first@.reverse());
    assert(out@ =~= old(out)@ + (seq![top] + low_first@.reverse()));
}

/// The magnitude of `millis`, rounded to `precision` digits after the point
/// where that is fewer than the value holds.
fn rounded_magnitude(millis: i64, precision: usize) -> (scaled: u64)
    ensures
        scaled == rounded(magnitude(millis as int), precision as nat),
        scaled <= 0x8000_0000_0000_0000,
{
    let wide: i128 = millis as i128;
    let mag: u64 = if wide < 0 {
        (-wide) as u64
    } else {
        wide as u64
    };
    let unit: u64 = if precision == 0 {
        1000
    } else if precision == 1 {
        100
    } else if precision == 2 {
        10
    } else {
        1
    };
    proof {
        reveal_with_fuel(pow10, 4);
        assert(unit == pow10((3 - kept_digits(precision as nat)) as nat));
    }
    let q: u64 = mag / unit;
    let r: u64 = mag % unit;
    if 2 * r > unit || (2 * r == unit && q % 2 == 1) {
        q + 1
    } else {
        q
    }
}

/// The characters of `number_text`.
fn number_chars(millis: i64, precision: usize) -> (out: Vec<char>)
    ensures
        out@ == number_text(millis as int, precision as nat),
{
    let scaled = rounded_magnitude(millis, precision);
    let mut out: Vec<char> = Vec::new();
    if millis < 0 {
        out.push('-');
    }
    let ghost sign = out@;
    let kept: usize = if precision < STORED_DIGITS {
        precision
    } else {
        STORED_DIGITS
    };
    let scale: u64 = if kept == 0 {
        1
    } else if kept == 1 {
        10
    } else if kept == 2 {
        100
    } else {
        1000
    };
    proof {
        reveal_with_fuel(pow10, 4);
        assert(scale == pow10(kept as nat));
        assert(kept == kept_digits(precision as nat));
    }
    push_decimal(&mut out, scaled / scale);
    if precision == 0 {
        return out;
    }
    out.push('.');
    let part: u64 = scaled % scale;
    let ghost head = out@;
    if kept >= 3 {
        out.push(digit_char((part / 100) % 10));
    }
    if kept >= 2 {
        out.push(digit_char((part / 10) % 10));
    }
    out.push(digit_char(part % 10));
    proof {
        reveal_with_fuel(last_digits, 4);
        assert(out@ =~= head + last_digits(part as nat, kept as nat));
    }
    let ghost shown = out@;
    let mut extra: usize = 0;
    while extra < precision - kept
        invariant
            kept <= precision,
            extra <= precision - kept,
            out@ == shown + repeated('0', extra as nat),
        decreases precision - kept - extra,
    {
        out.push('0');
        extra = extra + 1;
        assert(out@ =~= shown + repeated('0', extra as nat));
    }
    assert(out@ =~= number_text(millis as int, precision as nat));
    out
}

} // verus!
