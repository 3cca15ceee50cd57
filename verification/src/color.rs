//! Colors as the renderer hands them to CSS.
use vstd::prelude::*;

use crate::text::push_char;

verus! {

/// An RGB color.
#[derive(Debug, Clone, Copy)]
pub struct Color {
    pub r: u8,
    pub g: u8,
    pub b: u8,
}

/// The ASCII digit for `d` (`0 <= d < 10`).
pub open spec fn digit_char(d: nat) -> char {
    (48 + d) as char
}

/// Decimal notation of `n`, without leading zeros.
pub open spec fn decimal(n: nat) -> Seq<char>
    decreases n,
{
    if n < 10 {
        seq![digit_char(n)]
    } else {
        decimal(n / 10).push(digit_char(n % 10))
    }
}

/// `rgb(R,G,B)` with each channel in decimal.
pub open spec fn css_rgb(c: Color) -> Seq<char> {
    seq!['r', 'g', 'b', '('] + decimal(c.r as nat) + seq![','] + decimal(c.g as nat) + seq![','] + decimal(
        c.b as nat,
    ) + seq![')']
}

fn digit(d: u8) -> (c: char)
    requires
        d < 10,
    ensures
        c == digit_char(d as nat),
{
    match d {
        0 => '0',
        1 => '1',
        2 => '2',
        3 => '3',
        4 => '4',
        5 => '5',
        6 => '6',
        7 => '7',
        8 => '8',
        _ => '9',
    }
}

/// Appends the decimal notation of `n` to `s`.
fn push_decimal(s: &mut String, n: u8)
    ensures
        final(s)@ == old(s)@ + decimal(n as nat),
{
    if n >= 100 {
        push_char(s, digit(n / 100));
        push_char(s, digit((n / 10) % 10));
        push_char(s, digit(n % 10));
        proof {
            let q: nat = (n / 10) as nat;
            assert(q >= 10);
            assert(q / 10 == n / 100);
            assert(q % 10 == (n / 10) % 10);
            assert(decimal(q / 10) == seq![digit_char((n / 100) as nat)]);
            assert(decimal(q) == decimal(q / 10).push(digit_char(q % 10)));
            assert(decimal(n as nat) == decimal(q).push(digit_char((n % 10) as nat)));
            assert(decimal(n as nat) =~= seq![
                digit_char((n / 100) as nat),
                digit_char(((n / 10) % 10) as nat),
                digit_char((n % 10) as nat),
            ]);
        }
    } else if n >= 10 {
        push_char(s, digit(n / 10));
        push_char(s, digit(n % 10));
        proof {
            let q: nat = (n / 10) as nat;
            assert(decimal(q) == seq![digit_char(q)]);
            assert(decimal(n as nat) == decimal(q).push(digit_char((n % 10) as nat)));
            assert(decimal(n as nat) =~= seq![digit_char((n / 10) as nat), digit_char((n % 10) as nat)]);
        }
    } else {
        push_char(s, digit(n));
    }
}

impl Color {
    /// The color as a CSS `rgb(r,g,b)` value.
    pub fn to_css(&self) -> (s: String)
        ensures
            s@ == css_rgb(*self),
    {
        let mut s = String::new();
        push_char(&mut s, 'r');
        push_char(&mut s, 'g');
        push_char(&mut s, 'b');
        push_char(&mut s, '(');
        push_decimal(&mut s, self.r);
        push_char(&mut s, ',');
        push_decimal(&mut s, self.g);
        push_char(&mut s, ',');
        push_decimal(&mut s, self.b);
        push_char(&mut s, ')');
        assert(s@ =~= css_rgb(*self));
        s
    }
}

} // verus!
