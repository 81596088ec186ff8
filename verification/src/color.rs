//! RGBA colours with four independent 8-bit channels.

use vstd::prelude::*;

verus! {

/// A colour: red, green, blue and alpha, each an 8-bit channel. Two colours
/// are equal exactly when all four channels are.
#[derive(Clone, Copy, Debug, PartialEq, Eq, Structural)]
pub struct Color {
    pub r: u8,
    pub g: u8,
    pub b: u8,
    pub a: u8,
}

impl Color {
    /// Opaque white, the background of a fresh canvas.
    pub open spec fn spec_white() -> Color {
        Color { r: 255, g: 255, b: 255, a: 255 }
    }

    /// Opaque black.
    pub open spec fn spec_black() -> Color {
        Color { r: 0, g: 0, b: 0, a: 255 }
    }

    /// Opaque white, the background of a fresh canvas.
    #[verifier::when_used_as_spec(spec_white)]
    pub fn white() -> (c: Color)
        ensures
            c == Color::spec_white(),
    {
        Color { r: 255, g: 255, b: 255, a: 255 }
    }

    /// Opaque black.
    #[verifier::when_used_as_spec(spec_black)]
    pub fn black() -> (c: Color)
        ensures
            c == Color::spec_black(),
    {
        Color { r: 0, g: 0, b: 0, a: 255 }
    }

    /// A colour from its four channels, stored as given.
    pub fn from_rgba_premultiplied(r: u8, g: u8, b: u8, a: u8) -> (c: Color)
        ensures
            c == (Color { r, g, b, a }),
    {
        Color { r, g, b, a }
    }

    /// An opaque colour from its red, green and blue channels.
    pub fn from_rgb(r: u8, g: u8, b: u8) -> (c: Color)
        ensures
            c == (Color { r, g, b, a: 255 }),
    {
        Color { r, g, b, a: 255 }
    }
}

/// One channel of a blend: `bg * (1 - t) + fg * t` for the coverage
/// `t = num / den`, rounded to the nearest integer, a half upwards.
pub open spec fn mix_channel(bg: int, fg: int, num: int, den: int) -> int {
    (2 * (bg * (den - num) + fg * num) + den) / (2 * den)
}

/// The blend of `fg` over `bg` with the coverage `num / den`, channel by
/// channel, alpha included.
pub open spec fn mix(bg: Color, fg: Color, num: int, den: int) -> Color {
    Color {
        r: mix_channel(bg.r as int, fg.r as int, num, den) as u8,
        g: mix_channel(bg.g as int, fg.g as int, num, den) as u8,
        b: mix_channel(bg.b as int, fg.b as int, num, den) as u8,
        a: mix_channel(bg.a as int, fg.a as int, num, den) as u8,
    }
}

/// A blended channel lies between the two channels it blends, so it is a
/// channel value again.
pub proof fn lemma_mix_channel_range(bg: int, fg: int, num: int, den: int)
    requires
        0 <= bg <= 255,
        0 <= fg <= 255,
        0 <= num <= den,
        0 < den,
    ensures
        0 <= mix_channel(bg, fg, num, den) <= 255,
        bg <= fg ==> bg <= mix_channel(bg, fg, num, den) <= fg,
        fg <= bg ==> fg <= mix_channel(bg, fg, num, den) <= bg,
{
    let s = bg * (den - num) + fg * num;
    let lo = if bg <= fg {
        bg
    } else {
        fg
    };
    let hi = if bg <= fg {
        fg
    } else {
        bg
    };
    assert(lo * den <= s <= hi * den) by (nonlinear_arith)
        requires
            s == bg * (den - num) + fg * num,
            lo <= bg <= hi,
            lo <= fg <= hi,
            0 <= num <= den,
    ;
    let q = (2 * s + den) / (2 * den);
    vstd::arithmetic::div_mod::lemma_fundamental_div_mod(2 * s + den, 2 * den);
    vstd::arithmetic::div_mod::lemma_mod_bound(2 * s + den, 2 * den);
    assert(lo <= q <= hi) by (nonlinear_arith)
        requires
            lo * den <= s <= hi * den,
            2 * s + den == (2 * den) * q + (2 * s + den) % (2 * den),
            0 <= (2 * s + den) % (2 * den) < 2 * den,
            0 < den,
    ;
}

/// With no coverage the background stays; with full coverage the
/// foreground replaces it.
pub proof fn lemma_mix_ends(bg: Color, fg: Color, den: int)
    requires
        0 < den,
    ensures
        mix(bg, fg, 0, den) == bg,
        mix(bg, fg, den, den) == fg,
{
    lemma_mix_channel_ends(bg.r as int, fg.r as int, den);
    lemma_mix_channel_ends(bg.g as int, fg.g as int, den);
    lemma_mix_channel_ends(bg.b as int, fg.b as int, den);
    lemma_mix_channel_ends(bg.a as int, fg.a as int, den);
}

/// A channel blended with no coverage is the background's, with full
/// coverage the foreground's.
pub proof fn lemma_mix_channel_ends(bg: int, fg: int, den: int)
    requires
        0 < den,
    ensures
        mix_channel(bg, fg, 0, den) == bg,
        mix_channel(bg, fg, den, den) == fg,
{
    assert(2 * (bg * (den - 0) + fg * 0) + den == bg * (2 * den) + den) by (nonlinear_arith);
    vstd::arithmetic::div_mod::lemma_fundamental_div_mod_converse(
        2 * (bg * (den - 0) + fg * 0) + den,
        2 * den,
        bg,
        den,
    );
    assert(2 * (bg * (den - den) + fg * den) + den == fg * (2 * den) + den) by (nonlinear_arith);
    vstd::arithmetic::div_mod::lemma_fundamental_div_mod_converse(
        2 * (bg * (den - den) + fg * den) + den,
        2 * den,
        fg,
        den,
    );
}

/// One channel of a blend.
fn blend_channel(bg: u8, fg: u8, num: u64, den: u64) -> (c: u8)
    requires
        num <= den,
        0 < den,
    ensures
        c == mix_channel(bg as int, fg as int, num as int, den as int),
{
    proof {
        lemma_mix_channel_range(bg as int, fg as int, num as int, den as int);
        assert(bg * (den - num) <= 255 * 0xffff_ffff_ffff_ffff) by (nonlinear_arith)
            requires
                0 <= bg <= 255,
                0 <= den - num <= 0xffff_ffff_ffff_ffff,
        ;
        assert(fg * num <= 255 * 0xffff_ffff_ffff_ffff) by (nonlinear_arith)
            requires
                0 <= fg <= 255,
                0 <= num <= 0xffff_ffff_ffff_ffff,
        ;
        assert(0 <= bg * (den - num)) by (nonlinear_arith)
            requires
                0 <= bg,
                0 <= den - num,
        ;
        assert(0 <= fg * num) by (nonlinear_arith)
            requires
                0 <= fg,
                0 <= num,
        ;
    }
    let rest: u128 = (den - num) as u128;
    let sum: u128 = bg as u128 * rest + fg as u128 * (num as u128);
    let q: u128 = (2 * sum + den as u128) / (2 * den as u128);
    q as u8
}

impl Color {
    /// This colour with `over` blended onto it at the coverage `num / den`:
    /// each channel, alpha included, becomes
    /// `self * (1 - num / den) + over * num / den`, rounded to the nearest
    /// integer.
    pub fn blend(self, over: Color, num: u64, den: u64) -> (c: Color)
        requires
            num <= den,
            0 < den,
        ensures
            c == mix(self, over, num as int, den as int),
    {
        Color {
            r: blend_channel(self.r, over.r, num, den),
            g: blend_channel(self.g, over.g, num, den),
            b: blend_channel(self.b, over.b, num, den),
            a: blend_channel(self.a, over.a, num, den),
        }
    }
}

} // verus!
