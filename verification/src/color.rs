//! A finished pixel: how its channels are quantised and how it is written.
//!
//! A channel of light is a double, meant to lie in the unit range. It is
//! quantised to a byte by clamping it to that range and scaling it by 256,
//! so that every level covers an equal share and the top of the range falls
//! on level 255. A pixel is written as its three levels in decimal, red
//! first, with single spaces between them.

use crate::double::{
    exponent, is_negative, is_number, magnitude, rank_of, scale, significand, FRACTION, HIDDEN,
    INFINITY, MAGNITUDE, SIGN,
};
use vstd::arithmetic::div_mod::{
    lemma_basic_div, lemma_div_denominator, lemma_div_is_ordered,
    lemma_div_multiples_vanish_quotient,
};
use vstd::arithmetic::power2::{
    lemma2_to64, lemma2_to64_rest, lemma_pow2_adds, lemma_pow2_pos, pow2,
};
use vstd::bits::lemma_u64_shr_is_div;
use vstd::prelude::*;
use vstd::string::*;

verus! {

/// A pixel of three quantised channels.
#[derive(Clone, Copy, Debug, PartialEq, Eq, Structural)]
pub struct Color {
    pub red: u8,
    pub green: u8,
    pub blue: u8,
}

/// The level of the channel with these bits: 256 times the number, rounded
/// down, and held to the range of a byte. A channel that is negative or not
/// a number is taken as dark, one that is 1 or more as full.
pub open spec fn level(bits: u64) -> nat {
    if !is_number(bits) || is_negative(bits) {
        0
    } else if exponent(bits) >= 1023 {
        255
    } else {
        significand(bits) * 256 / pow2((1075 - scale(bits)) as nat)
    }
}

/// Quantises a channel, given as the bits of a double, to its level.
pub fn quantise(bits: u64) -> (byte: u8)
    ensures
        byte == level(bits),
{
    let field = bits & MAGNITUDE;
    if field > INFINITY || bits & SIGN != 0 {
        return 0;
    }
    let e = field >> 52;
    if e >= 1023 {
        return 255;
    }
    assert((bits & 0x000f_ffff_ffff_ffff) < 0x0010_0000_0000_0000) by (bit_vector);
    proof {
        lemma2_to64();
        lemma2_to64_rest();
    }
    if e < 1015 {
        proof {
            let drop = (1075 - scale(bits)) as nat;
            assert(pow2(drop) == pow2(61) * pow2((drop - 61) as nat)) by {
                lemma_pow2_adds(61, (drop - 61) as nat);
            }
            assert(pow2(drop) >= pow2(61)) by {
                lemma_pow2_pos((drop - 61) as nat);
                assert(pow2(61) * pow2((drop - 61) as nat) >= pow2(61) * 1) by (nonlinear_arith)
                    requires
                        pow2((drop - 61) as nat) >= 1,
                        pow2(61) > 0,
                ;
            }
            lemma_basic_div((significand(bits) * 256) as int, pow2(drop) as int);
        }
        return 0;
    }
    let whole = (bits & FRACTION) | HIDDEN;
    let shift = 1067 - e;
    assert(whole == (bits & FRACTION) + HIDDEN) by (bit_vector)
        requires
            whole == (bits & 0x000f_ffff_ffff_ffff) | 0x0010_0000_0000_0000,
    ;
    assert((whole >> shift) < 256) by (bit_vector)
        requires
            whole < 0x0020_0000_0000_0000,
            45 <= shift <= 52,
    ;
    proof {
        lemma_u64_shr_is_div(whole, shift);
        lemma_pow2_adds(8, shift as nat);
        lemma_pow2_pos(shift as nat);
        lemma_div_multiples_vanish_quotient(256, whole as int, pow2(shift as nat) as int);
        assert(significand(bits) * 256 == 256 * whole) by (nonlinear_arith)
            requires
                significand(bits) == whole,
        ;
    }
    (whole >> shift) as u8
}

/// Every level fits a byte.
pub proof fn lemma_level_fits_byte(bits: u64)
    ensures
        level(bits) <= 255,
{
    if is_number(bits) && !is_negative(bits) && exponent(bits) < 1023 {
        let drop = (1075 - scale(bits)) as nat;
        let whole = significand(bits);
        assert((bits & 0x000f_ffff_ffff_ffff) < 0x0010_0000_0000_0000) by (bit_vector);
        lemma2_to64();
        lemma2_to64_rest();
        lemma_pow2_adds(53, (drop - 53) as nat);
        lemma_pow2_pos((drop - 53) as nat);
        assert(whole * 256 / pow2(drop) < 256) by (nonlinear_arith)
            requires
                whole < pow2(53),
                pow2(drop) == pow2(53) * pow2((drop - 53) as nat),
                pow2((drop - 53) as nat) >= 1,
                pow2(53) > 0,
        ;
    }
}

/// Quantising keeps the order of brightness: of two channels, the one that
/// is no larger as a number has no higher level.
pub proof fn lemma_level_keeps_order(dim: u64, bright: u64)
    requires
        is_number(dim),
        is_number(bright),
        rank_of(dim) <= rank_of(bright),
    ensures
        level(dim) <= level(bright),
{
    lemma_level_fits_byte(dim);
    if !is_negative(dim) && magnitude(dim) == 0 {
        let a = magnitude(dim);
        assert((a >> 52) == 0 && (dim & 0x000f_ffff_ffff_ffff) == 0) by (bit_vector)
            requires
                a == dim & 0x7fff_ffff_ffff_ffff,
                a == 0,
        ;
        lemma_pow2_pos(1074);
        lemma_basic_div(0, pow2(1074) as int);
        assert(level(dim) == 0);
    } else if !is_negative(dim) && !is_negative(bright) && exponent(bright) < 1023 {
        let a = magnitude(dim);
        let b = magnitude(bright);
        assert((a >> 52) <= (b >> 52)) by (bit_vector)
            requires
                a <= b,
        ;
        assert((a >> 52) == (b >> 52) ==> (a & 0x000f_ffff_ffff_ffff) <= (b
            & 0x000f_ffff_ffff_ffff)) by (bit_vector)
            requires
                a <= b,
        ;
        assert((dim & 0x7fff_ffff_ffff_ffff) & 0x000f_ffff_ffff_ffff == dim
            & 0x000f_ffff_ffff_ffff) by (bit_vector);
        assert((bright & 0x7fff_ffff_ffff_ffff) & 0x000f_ffff_ffff_ffff == bright
            & 0x000f_ffff_ffff_ffff) by (bit_vector);
        assert((dim & 0x000f_ffff_ffff_ffff) < 0x0010_0000_0000_0000) by (bit_vector);
        let drop = (1075 - scale(bright)) as nat;
        let more = (scale(bright) - scale(dim)) as nat;
        let x = (significand(dim) * 256) as int;
        let y = (significand(bright) * 256) as int;
        lemma_pow2_pos(drop);
        lemma_pow2_pos(more);
        if more == 0 {
            lemma_div_is_ordered(x, y, pow2(drop) as int);
        } else {
            lemma2_to64();
            lemma_pow2_adds(1, (more - 1) as nat);
            lemma_pow2_pos((more - 1) as nat);
            lemma_pow2_adds(more, drop);
            lemma_div_denominator(x, pow2(more) as int, pow2(drop) as int);
            assert(x / (pow2(more) as int) <= y) by (nonlinear_arith)
                requires
                    0 <= x < 0x0020_0000_0000_0000 * 256,
                    y >= 0x0010_0000_0000_0000 * 256,
                    pow2(more) == 2 * pow2((more - 1) as nat),
                    pow2((more - 1) as nat) >= 1,
            ;
            lemma_div_is_ordered(x / (pow2(more) as int), y, pow2(drop) as int);
        }
        assert(level(dim) == x / (pow2((1075 - scale(dim)) as nat) as int));
        assert(level(bright) == y / (pow2(drop) as int));
    }
}

/// The character of one decimal digit.
pub open spec fn digit(d: nat) -> char {
    if d == 0 {
        '0'
    } else if d == 1 {
        '1'
    } else if d == 2 {
        '2'
    } else if d == 3 {
        '3'
    } else if d == 4 {
        '4'
    } else if d == 5 {
        '5'
    } else if d == 6 {
        '6'
    } else if d == 7 {
        '7'
    } else if d == 8 {
        '8'
    } else {
        '9'
    }
}

/// A number in decimal, without sign or leading zeros.
pub open spec fn decimal(n: nat) -> Seq<char>
    decreases n,
{
    if n < 10 {
        seq![digit(n)]
    } else {
        decimal(n / 10).push(digit(n % 10))
    }
}

/// The number that a text of decimal digits stands for.
pub open spec fn number(text: Seq<char>) -> nat
    decreases text.len(),
{
    if text.len() == 0 {
        0
    } else {
        number(text.drop_last()) * 10 + digit_value(text.last())
    }
}

/// The value of a digit's character.
pub open spec fn digit_value(c: char) -> nat {
    if c == '1' {
        1
    } else if c == '2' {
        2
    } else if c == '3' {
        3
    } else if c == '4' {
        4
    } else if c == '5' {
        5
    } else if c == '6' {
        6
    } else if c == '7' {
        7
    } else if c == '8' {
        8
    } else if c == '9' {
        9
    } else {
        0
    }
}

/// What is written in decimal reads back as the number that was written,
/// and starts with a zero only where the number is zero.
pub proof fn lemma_decimal_reads_back(n: nat)
    ensures
        number(decimal(n)) == n,
        decimal(n).len() >= 1,
        decimal(n)[0] == '0' <==> n == 0,
    decreases n,
{
    if n < 10 {
        assert(decimal(n).drop_last() =~= Seq::<char>::empty());
        assert(number(decimal(n)) == number(Seq::<char>::empty()) * 10 + digit_value(digit(n)));
    } else {
        lemma_decimal_reads_back(n / 10);
        assert(decimal(n).drop_last() =~= decimal(n / 10));
        assert(decimal(n).last() == digit(n % 10));
        assert(decimal(n)[0] == decimal(n / 10)[0]);
    }
}

/// The three channels in decimal, a space between each two.
pub open spec fn triple(color: Color) -> Seq<char> {
    decimal(color.red as nat) + seq![' '] + decimal(color.green as nat) + seq![' '] + decimal(
        color.blue as nat,
    )
}

fn digit_text(d: u8) -> (text: &'static str)
    requires
        d < 10,
    ensures
        text@ == seq![digit(d as nat)],
{
    proof {
        reveal_strlit("0");
        reveal_strlit("1");
        reveal_strlit("2");
        reveal_strlit("3");
        reveal_strlit("4");
        reveal_strlit("5");
        reveal_strlit("6");
        reveal_strlit("7");
        reveal_strlit("8");
        reveal_strlit("9");
    }
    let text = match d {
        0 => "0",
        1 => "1",
        2 => "2",
        3 => "3",
        4 => "4",
        5 => "5",
        6 => "6",
        7 => "7",
        8 => "8",
        _ => "9",
    };
    assert(text@ =~= seq![digit(d as nat)]);
    text
}

fn push_decimal(out: &mut String, n: u8)
    ensures
        final(out)@ == old(out)@ + decimal(n as nat),
{
    let ghost before = out@;
    if n >= 100 {
        out.append(digit_text(n / 100));
    }
    if n >= 10 {
        out.append(digit_text((n / 10) % 10));
    }
    out.append(digit_text(n % 10));
    proof {
        let v = n as nat;
        if v >= 100 {
            assert(decimal(v / 100) =~= seq![digit(v / 100)]);
            assert(decimal(v / 10) =~= seq![digit(v / 100), digit((v / 10) % 10)]);
            assert(decimal(v) =~= seq![digit(v / 100), digit((v / 10) % 10), digit(v % 10)]);
        } else if v >= 10 {
            assert(decimal(v / 10) =~= seq![digit(v / 10)]);
            assert(decimal(v) =~= seq![digit((v / 10) % 10), digit(v % 10)]);
        }
        assert(out@ =~= before + decimal(v));
    }
}

fn push_space(out: &mut String)
    ensures
        final(out)@ == old(out)@.push(' '),
{
    proof {
        reveal_strlit(" ");
    }
    let ghost before = out@;
    out.append(" ");
    assert(out@ =~= before.push(' '));
}

impl Color {
    /// The pixel with these channels.
    pub fn new(red: u8, green: u8, blue: u8) -> (color: Self)
        ensures
            color == (Color { red, green, blue }),
    {
        Color { red, green, blue }
    }

    /// The pixel of a colour whose channels have these bits.
    pub fn quantised(red: u64, green: u64, blue: u64) -> (color: Self)
        ensures
            color.red == level(red),
            color.green == level(green),
            color.blue == level(blue),
    {
        Color { red: quantise(red), green: quantise(green), blue: quantise(blue) }
    }

    /// The pixel as one entry of an image's text: its three channels, each
    /// followed by a space.
    pub fn write(&self) -> (text: String)
        ensures
            text@ == triple(*self).push(' '),
    {
        let mut text = self.to_text();
        push_space(&mut text);
        text
    }

    /// The pixel's three channels with a space between each two.
    pub fn to_text(&self) -> (text: String)
        ensures
            text@ == triple(*self),
    {
        let mut text = String::new();
        push_decimal(&mut text, self.red);
        push_space(&mut text);
        push_decimal(&mut text, self.green);
        push_space(&mut text);
        push_decimal(&mut text, self.blue);
        assert(text@ =~= triple(*self));
        text
    }
}

} // verus!
