//! Fixed-precision display of fixed-point values.
use vstd::prelude::*;
use crate::fixed::{abs, magnitude};

verus! {

pub open spec fn digit_char(d: nat) -> char {
    if d == 0 {
        '0'
    } else if d == 1 {
        '1'
    } else if d == 2 {
        '2'
    } else if d == 3 {
        '3'
    } else if d == 4 {
        '4'
    } else if d == 5 {
        '5'
    } else if d == 6 {
        '6'
    } else if d == 7 {
        '7'
    } else if d == 8 {
        '8'
    } else {
        '9'
    }
}

/// The decimal digits of `n`, most significant first.
pub open spec fn decimal(n: nat) -> Seq<char>
    decreases n,
{
    if n < 10 {
        seq![digit_char(n)]
    } else {
        decimal(n / 10).push(digit_char(n % 10))
    }
}

/// The magnitude of `micros` in hundredths, rounded half away from zero.
pub open spec fn cents(micros: int) -> nat {
    ((abs(micros) + 5000) / 10000) as nat
}

/// `micros / UNIT` written with two decimals, then stripped of trailing
/// zeros and of a trailing decimal point.
pub open spec fn float_text(micros: int) -> Seq<char> {
    let c = cents(micros);
    let sign = if micros < 0 {
        seq!['-']
    } else {
        Seq::<char>::empty()
    };
    let frac: nat = c % 100;
    let head = sign + decimal(c / 100);
    if frac == 0 {
        head
    } else if frac % 10 == 0 {
        head + seq!['.', digit_char(frac / 10)]
    } else {
        head + seq!['.', digit_char(frac / 10), digit_char(frac % 10)]
    }
}

/// The signed number of hundredths that `float_text(micros)` shows.
pub open spec fn shown_hundredths(micros: int) -> int {
    if micros < 0 {
        -cents(micros)
    } else {
        cents(micros) as int
    }
}

/// `percentage_text(micros)` shows `micros` (millionths of one whole) to
/// within half a hundredth of a percent: fifty millionths.
pub proof fn lemma_percentage_rounding(micros: int)
    ensures
        abs(shown_hundredths(100 * micros) * 100 - micros) <= 50,
{
    let a = abs(micros);
    assert(abs(100 * micros) == 100 * a);
    let c = cents(100 * micros) as int;
    assert(c == (100 * a + 5000) / 10000);
    assert(c == (a + 50) / 100) by (nonlinear_arith)
        requires c == (100 * a + 5000) / 10000, a >= 0;
    assert(c * 100 <= a + 50 < c * 100 + 100) by (nonlinear_arith)
        requires c == (a + 50) / 100, a >= 0;
}

/// `micros` as a percentage: `float_text` of a hundred times the value,
/// followed by `%`.
pub open spec fn percentage_text(micros: int) -> Seq<char> {
    float_text(100 * micros) + seq!['%']
}

fn push_digit(s: &mut String, d: u128)
    requires
        d < 10,
    ensures
        final(s)@ == old(s)@.push(digit_char(d as nat)),
{
    let lit: &str = if d == 0 {
        proof { reveal_strlit("0"); }
        "0"
    } else if d == 1 {
        proof { reveal_strlit("1"); }
        "1"
    } else if d == 2 {
        proof { reveal_strlit("2"); }
        "2"
    } else if d == 3 {
        proof { reveal_strlit("3"); }
        "3"
    } else if d == 4 {
        proof { reveal_strlit("4"); }
        "4"
    } else if d == 5 {
        proof { reveal_strlit("5"); }
        "5"
    } else if d == 6 {
        proof { reveal_strlit("6"); }
        "6"
    } else if d == 7 {
        proof { reveal_strlit("7"); }
        "7"
    } else if d == 8 {
        proof { reveal_strlit("8"); }
        "8"
    } else {
        proof { reveal_strlit("9"); }
        "9"
    };
    assert(lit@ =~= seq![digit_char(d as nat)]);
    s.append(lit);
}

fn push_decimal(s: &mut String, n: u128)
    ensures
        final(s)@ == old(s)@ + decimal(n as nat),
    decreases n,
{
    if n >= 10 {
        push_decimal(s, n / 10);
    }
    push_digit(s, n % 10);
    assert(final(s)@ =~= old(s)@ + decimal(n as nat));
}

fn push_text(s: &mut String, text: &str)
    ensures
        final(s)@ == old(s)@ + text@,
{
    s.append(text);
}

/// Renders fixed-point values as short decimal strings.
pub struct ArithmeticRenderer;

impl ArithmeticRenderer {
    /// Formats to two decimals (rounding half away from zero), then strips
    /// trailing zeros and a trailing decimal point: `0.10` gives `"0.1"`,
    /// `0` gives `"0"`, `12.3456` gives `"12.35"`.
    pub fn render_float(&self, micros: i128) -> (r: String)
        ensures
            r@ == float_text(micros as int),
    {
        let mag: u128 = magnitude(micros);
        let c: u128 = mag / 10000 + (if mag % 10000 >= 5000 { 1u128 } else { 0u128 });
        assert(c == cents(micros as int));
        let mut s = String::new();
        if micros < 0 {
            proof { reveal_strlit("-"); }
            push_text(&mut s, "-");
        }
        push_decimal(&mut s, c / 100);
        let frac: u128 = c % 100;
        if frac != 0 {
            proof { reveal_strlit("."); }
            push_text(&mut s, ".");
            push_digit(&mut s, frac / 10);
            if frac % 10 != 0 {
                push_digit(&mut s, frac % 10);
            }
        }
        assert(s@ =~= float_text(micros as int));
        s
    }

    /// Formats `micros` as a percentage: `0.284513` gives `"28.45%"`.
    pub fn render_percentage(&self, micros: i128) -> (r: String)
        requires
            abs(micros as int) * 100 <= i128::MAX,
        ensures
            r@ == percentage_text(micros as int),
    {
        let mut s = self.render_float(micros * 100);
        proof { reveal_strlit("%"); }
        push_text(&mut s, "%");
        assert(s@ =~= percentage_text(micros as int));
        s
    }
}

} // verus!
