//! An immutable 3-channel color and its transforms.
//!
//! Fractional amounts are permille (0..=1000). Every transform is exact
//! integer arithmetic with truncating division, so each result is pinned
//! channel by channel by the spec functions below.

use vstd::prelude::*;
use vstd::string::*;
use crate::fmt_text::{spec_hex_byte, spec_dec, hex_byte, dec_u32};

verus! {

/// A color with three 8-bit channels. Immutable: every transform returns a
/// new value.
#[derive(Debug, Clone, Copy, PartialEq, Eq, Hash, Structural)]
pub struct Color {
    pub r: u8,
    pub g: u8,
    pub b: u8,
}

/// Lowercase `rrggbb` for a color.
pub open spec fn spec_hex_stripped(c: Color) -> Seq<char> {
    spec_hex_byte(c.r) + spec_hex_byte(c.g) + spec_hex_byte(c.b)
}

/// Lowercase `#rrggbb` for a color.
pub open spec fn spec_hex(c: Color) -> Seq<char> {
    "#"@ + spec_hex_stripped(c)
}

/// `rgb(r, g, b)` with decimal channels.
pub open spec fn spec_rgb_text(c: Color) -> Seq<char> {
    "rgb("@ + spec_dec(c.r as int) + ", "@ + spec_dec(c.g as int) + ", "@ + spec_dec(
        c.b as int) + ")"@
}

/// YIQ luminance scaled by 255000: `0.299 R + 0.587 G + 0.114 B` over
/// channels normalized to [0, 1], kept as an exact integer. Used only for
/// ordering, where the scale factor is irrelevant.
pub open spec fn spec_yiq(c: Color) -> int {
    299 * c.r + 587 * c.g + 114 * c.b
}

/// One channel scaled by `(1 - amount)`, truncated.
pub open spec fn chan_darken(ch: u8, amount: u32) -> u8 {
    ((ch as int * (1000 - amount as int)) / 1000) as u8
}

/// One channel moved toward 255 by `amount` of the remaining headroom,
/// truncated.
pub open spec fn chan_lighten(ch: u8, amount: u32) -> u8 {
    (ch as int + ((255 - ch as int) * amount as int) / 1000) as u8
}

pub open spec fn spec_darken(c: Color, amount: u32) -> Color {
    Color { r: chan_darken(c.r, amount), g: chan_darken(c.g, amount), b: chan_darken(c.b, amount) }
}

pub open spec fn spec_lighten(c: Color, amount: u32) -> Color {
    Color {
        r: chan_lighten(c.r, amount),
        g: chan_lighten(c.g, amount),
        b: chan_lighten(c.b, amount),
    }
}

pub open spec fn max3(a: int, b: int, c: int) -> int {
    if a >= b && a >= c {
        a
    } else if b >= c {
        b
    } else {
        c
    }
}

pub open spec fn min3(a: int, b: int, c: int) -> int {
    if a <= b && a <= c {
        a
    } else if b <= c {
        b
    } else {
        c
    }
}

pub open spec fn abs_int(x: int) -> int {
    if x < 0 {
        -x
    } else {
        x
    }
}

/// The channel that carries the full chroma `c` in the HSL sector formulas,
/// as `(chroma + match) * 255` over the exact rationals, truncated.
///
/// `sum = max + min` of the input channels, `a = 255 - |sum - 255|`
/// (255 times `1 - |2 l - 1|`), `p` the clamped permille saturation.
pub open spec fn chan_sat_c(sum: int, a: int, p: int) -> int {
    (a * p + sum * 1000) / 2000
}

/// The channel that carries only the match value `m`, as `m * 255` truncated.
pub open spec fn chan_sat_m(sum: int, a: int, p: int) -> int {
    (sum * 1000 - a * p) / 2000
}

/// The channel that carries the intermediate value `x = chroma * (t / d)`,
/// as `(x + match) * 255` truncated; `t / d` is the triangular hue factor
/// with `0 <= t <= d`.
pub open spec fn chan_sat_x(sum: int, a: int, p: int, t: int, d: int) -> int {
    (2 * a * p * t + d * (sum * 1000 - a * p)) / (2000 * d)
}

/// Re-saturation of a color: hue and lightness are kept, saturation is set
/// to `amount` clamped to [0, 1000] permille. Exact grayscale is returned
/// unchanged. The hue lives on the [0, 6) six-sector scale.
pub open spec fn spec_saturate(c: Color, amount: u32) -> Color {
    let r = c.r as int;
    let g = c.g as int;
    let b = c.b as int;
    let hi = max3(r, g, b);
    let lo = min3(r, g, b);
    let d = hi - lo;
    if d == 0 {
        c
    } else {
        let p = if amount > 1000 {
            1000int
        } else {
            amount as int
        };
        let sum = hi + lo;
        let a = 255 - abs_int(sum - 255);
        if r >= g && r >= b {
            if g >= b {
                // hue in [0, 1]: (C, X, M)
                Color {
                    r: chan_sat_c(sum, a, p) as u8,
                    g: chan_sat_x(sum, a, p, g - b, d) as u8,
                    b: chan_sat_m(sum, a, p) as u8,
                }
            } else {
                // hue in (5, 6): (C, M, X)
                Color {
                    r: chan_sat_c(sum, a, p) as u8,
                    g: chan_sat_m(sum, a, p) as u8,
                    b: chan_sat_x(sum, a, p, b - g, d) as u8,
                }
            }
        } else if g >= b {
            if b < r {
                // hue in (1, 2): (X, C, M)
                Color {
                    r: chan_sat_x(sum, a, p, r - b, d) as u8,
                    g: chan_sat_c(sum, a, p) as u8,
                    b: chan_sat_m(sum, a, p) as u8,
                }
            } else {
                // hue in [2, 3]: (M, C, X)
                Color {
                    r: chan_sat_m(sum, a, p) as u8,
                    g: chan_sat_c(sum, a, p) as u8,
                    b: chan_sat_x(sum, a, p, b - r, d) as u8,
                }
            }
        } else {
            if r < g {
                // hue in (3, 4): (M, X, C)
                Color {
                    r: chan_sat_m(sum, a, p) as u8,
                    g: chan_sat_x(sum, a, p, g - r, d) as u8,
                    b: chan_sat_c(sum, a, p) as u8,
                }
            } else {
                // hue in [4, 5): (X, M, C)
                Color {
                    r: chan_sat_x(sum, a, p, r - g, d) as u8,
                    g: chan_sat_m(sum, a, p) as u8,
                    b: chan_sat_c(sum, a, p) as u8,
                }
            }
        }
    }
}

/// Hue of a non-grayscale color on the degree scale, truncated: the [0, 6)
/// sector value times 60.
pub open spec fn spec_h60(c: Color) -> int {
    let r = c.r as int;
    let g = c.g as int;
    let b = c.b as int;
    let d = max3(r, g, b) - min3(r, g, b);
    if r >= g && r >= b {
        (60 * (g - b) + if g < b {
            360 * d
        } else {
            0
        }) / d
    } else if g >= b {
        (60 * (b - r) + 120 * d) / d
    } else {
        (60 * (r - g) + 240 * d) / d
    }
}

/// Saturation of a non-grayscale color in whole percent, truncated.
pub open spec fn spec_s100(c: Color) -> int {
    let sum = max3(c.r as int, c.g as int, c.b as int) + min3(c.r as int, c.g as int, c.b as int);
    let d = max3(c.r as int, c.g as int, c.b as int) - min3(c.r as int, c.g as int, c.b as int);
    if sum > 255 {
        (100 * d) / (510 - sum)
    } else {
        (100 * d) / sum
    }
}

/// Lightness in whole percent, truncated.
pub open spec fn spec_l100(c: Color) -> int {
    ((max3(c.r as int, c.g as int, c.b as int) + min3(c.r as int, c.g as int, c.b as int)) * 100)
        / 510
}

/// `hsl(h, s%, l%)` with integer degree hue and percent saturation and
/// lightness; grayscale renders with hue and saturation 0.
pub open spec fn spec_hsl_text(c: Color) -> Seq<char> {
    if max3(c.r as int, c.g as int, c.b as int) == min3(c.r as int, c.g as int, c.b as int) {
        "hsl(0, 0%, "@ + spec_dec(spec_l100(c)) + "%)"@
    } else {
        "hsl("@ + spec_dec(spec_h60(c)) + ", "@ + spec_dec(spec_s100(c)) + "%, "@ + spec_dec(
            spec_l100(c)) + "%)"@
    }
}

/// A channel (at most 255) times a permille factor stays under 255000.
proof fn lemma_mul_le_255000(ch: int, f: int)
    requires
        0 <= ch <= 255,
        0 <= f <= 1000,
    ensures
        0 <= ch * f <= 255000,
{
    assert(ch * f <= 255000) by (nonlinear_arith)
        requires
            0 <= ch <= 255,
            0 <= f <= 1000,
    ;
    assert(ch * f >= 0) by (nonlinear_arith)
        requires
            0 <= ch,
            0 <= f,
    ;
}

/// The lightened channel stays at most 255: the headroom share never
/// exceeds the headroom itself.
proof fn lemma_headroom(ch: int, f: int)
    requires
        0 <= ch <= 255,
        0 <= f <= 1000,
    ensures
        0 <= ch + ((255 - ch) * f) / 1000 <= 255,
{
    assert((255 - ch) * f <= (255 - ch) * 1000) by (nonlinear_arith)
        requires
            0 <= ch <= 255,
            0 <= f <= 1000,
    ;
    assert(((255 - ch) * f) / 1000 <= 255 - ch);
}

/// The saturated channel values stay in a byte: `0 <= value <= 255` for each
/// of the three formulas, whenever `0 <= t <= d`, `d >= 1`, `0 <= p <= 1000`
/// and `a` is derived from `sum` as above.
proof fn lemma_sat_chan_bounds(sum: int, a: int, p: int, t: int, d: int)
    requires
        1 <= d <= 255,
        d <= sum <= 510 - d,
        a == 255 - abs_int(sum - 255),
        0 <= p <= 1000,
        0 <= t <= d,
    ensures
        0 <= chan_sat_m(sum, a, p) <= chan_sat_x(sum, a, p, t, d) <= chan_sat_c(sum, a, p) <= 255,
        0 <= a * p <= sum * 1000,
        a * p + sum * 1000 <= 510000,
        2 * a * p * t <= 130050000,
        d * (sum * 1000 - a * p) <= 130050000,
{
    assert(0 <= a * p) by (nonlinear_arith)
        requires
            0 <= a,
            0 <= p,
    ;
    assert(2 * a * p * t <= 130050000) by (nonlinear_arith)
        requires
            0 <= a <= 255,
            0 <= p <= 1000,
            0 <= t <= 255,
    ;
    assert(a * p <= sum * 1000 && a * p + sum * 1000 <= 510000) by (nonlinear_arith)
        requires
            a == 255 - abs_int(sum - 255),
            0 <= sum <= 510,
            0 <= p <= 1000,
    ;
    assert(d * (sum * 1000 - a * p) <= 130050000) by (nonlinear_arith)
        requires
            0 <= d <= 255,
            0 <= sum * 1000 - a * p,
            sum <= 510,
            0 <= a * p,
    ;
    assert(chan_sat_c(sum, a, p) <= 255);
    assert(chan_sat_m(sum, a, p) >= 0);
    let numx = 2 * a * p * t + d * (sum * 1000 - a * p);
    assert(d * (sum * 1000 - a * p) <= numx <= d * (a * p + sum * 1000)) by (nonlinear_arith)
        requires
            0 <= t <= d,
            0 <= a * p <= sum * 1000,
            numx == 2 * a * p * t + d * (sum * 1000 - a * p),
    ;
    assert(chan_sat_m(sum, a, p) <= chan_sat_x(sum, a, p, t, d)) by (nonlinear_arith)
        requires
            1 <= d,
            d * (sum * 1000 - a * p) <= numx,
            numx == 2 * a * p * t + d * (sum * 1000 - a * p),
            0 <= sum * 1000 - a * p,
            chan_sat_m(sum, a, p) == (sum * 1000 - a * p) / 2000,
            chan_sat_x(sum, a, p, t, d) == numx / (2000 * d),
    ;
    assert(chan_sat_x(sum, a, p, t, d) <= chan_sat_c(sum, a, p)) by (nonlinear_arith)
        requires
            1 <= d,
            numx <= d * (a * p + sum * 1000),
            0 <= numx,
            0 <= a * p + sum * 1000,
            chan_sat_c(sum, a, p) == (a * p + sum * 1000) / 2000,
            chan_sat_x(sum, a, p, t, d) == numx / (2000 * d),
    ;
}

impl Color {
    pub fn new(r: u8, g: u8, b: u8) -> (c: Self)
        ensures
            c == (Color { r, g, b }),
    {
        Color { r, g, b }
    }

    /// `#rrggbb`, lowercase.
    pub fn to_hex(&self) -> (s: String)
        ensures
            s@ == spec_hex(*self),
    {
        let mut s = String::from_str("#");
        s.append(hex_byte(self.r).as_str());
        s.append(hex_byte(self.g).as_str());
        s.append(hex_byte(self.b).as_str());
        proof {
            assert(s@ =~= spec_hex(*self));
        }
        s
    }

    /// `rrggbb`, lowercase, without the leading `#`.
    pub fn to_hex_stripped(&self) -> (s: String)
        ensures
            s@ == spec_hex_stripped(*self),
    {
        let mut s = hex_byte(self.r);
        s.append(hex_byte(self.g).as_str());
        s.append(hex_byte(self.b).as_str());
        proof {
            assert(s@ =~= spec_hex_stripped(*self));
        }
        s
    }

    /// `rgb(r, g, b)` with decimal channels.
    pub fn to_rgb(&self) -> (s: String)
        ensures
            s@ == spec_rgb_text(*self),
    {
        let mut s = String::from_str("rgb(");
        s.append(dec_u32(self.r as u32).as_str());
        s.append(", ");
        s.append(dec_u32(self.g as u32).as_str());
        s.append(", ");
        s.append(dec_u32(self.b as u32).as_str());
        s.append(")");
        proof {
            assert(s@ =~= spec_rgb_text(*self));
        }
        s
    }

    /// `hsl(h, s%, l%)` from the standard max/min/diff decomposition, all
    /// three numbers truncated to whole units (degrees and percent).
    pub fn to_hsl(&self) -> (s: String)
        ensures
            s@ == spec_hsl_text(*self),
    {
        let r = self.r as u32;
        let g = self.g as u32;
        let b = self.b as u32;
        let hi = if r >= g && r >= b {
            r
        } else if g >= b {
            g
        } else {
            b
        };
        let lo = if r <= g && r <= b {
            r
        } else if g <= b {
            g
        } else {
            b
        };
        let d = hi - lo;
        let sum = hi + lo;
        let l100 = (sum * 100) / 510;
        if d == 0 {
            let mut s = String::from_str("hsl(0, 0%, ");
            s.append(dec_u32(l100).as_str());
            s.append("%)");
            proof {
                assert(s@ =~= spec_hsl_text(*self));
            }
            return s;
        }
        let s100 = if sum > 255 {
            (100 * d) / (510 - sum)
        } else {
            (100 * d) / sum
        };
        let h60 = if r >= g && r >= b {
            if g >= b {
                (60 * (g - b)) / d
            } else {
                (360 * d - 60 * (b - g)) / d
            }
        } else if g >= b {
            if b >= r {
                (120 * d + 60 * (b - r)) / d
            } else {
                (120 * d - 60 * (r - b)) / d
            }
        } else {
            if r >= g {
                (240 * d + 60 * (r - g)) / d
            } else {
                (240 * d - 60 * (g - r)) / d
            }
        };
        let mut s = String::from_str("hsl(");
        s.append(dec_u32(h60).as_str());
        s.append(", ");
        s.append(dec_u32(s100).as_str());
        s.append("%, ");
        s.append(dec_u32(l100).as_str());
        s.append("%)");
        proof {
            assert(s@ =~= spec_hsl_text(*self));
        }
        s
    }

    /// YIQ luminance scaled by 255000, exact.
    pub fn to_yiq(&self) -> (y: u32)
        ensures
            y == spec_yiq(*self),
    {
        299 * (self.r as u32) + 587 * (self.g as u32) + 114 * (self.b as u32)
    }

    /// Scales each channel by `(1 - amount)`, truncating. `amount` is
    /// permille.
    pub fn darken(&self, amount: u32) -> (c: Color)
        requires
            amount <= 1000,
        ensures
            c == spec_darken(*self, amount),
    {
        let f = 1000 - amount;
        proof {
            lemma_mul_le_255000(self.r as int, f as int);
            lemma_mul_le_255000(self.g as int, f as int);
            lemma_mul_le_255000(self.b as int, f as int);
        }
        let r = ((self.r as u32 * f) / 1000) as u8;
        let g = ((self.g as u32 * f) / 1000) as u8;
        let b = ((self.b as u32 * f) / 1000) as u8;
        Color { r, g, b }
    }

    /// Moves each channel toward 255 by `amount` of its remaining headroom,
    /// truncating. `amount` is permille.
    pub fn lighten(&self, amount: u32) -> (c: Color)
        requires
            amount <= 1000,
        ensures
            c == spec_lighten(*self, amount),
    {
        proof {
            lemma_mul_le_255000(255 - self.r as int, amount as int);
            lemma_mul_le_255000(255 - self.g as int, amount as int);
            lemma_mul_le_255000(255 - self.b as int, amount as int);
            lemma_headroom(self.r as int, amount as int);
            lemma_headroom(self.g as int, amount as int);
            lemma_headroom(self.b as int, amount as int);
        }
        let r = self.r as u32 + ((255 - self.r as u32) * amount) / 1000;
        let g = self.g as u32 + ((255 - self.g as u32) * amount) / 1000;
        let b = self.b as u32 + ((255 - self.b as u32) * amount) / 1000;
        Color { r: r as u8, g: g as u8, b: b as u8 }
    }

    /// Sets the saturation to `amount` permille (clamped to [0, 1000]),
    /// keeping hue and lightness. An exact grayscale color (`r == g == b`)
    /// is returned unchanged.
    #[verifier::rlimit(50)]
    pub fn saturate(&self, amount: u32) -> (c: Color)
        ensures
            c == spec_saturate(*self, amount),
            self.r == self.g && self.g == self.b ==> c == *self,
    {
        let r = self.r as u64;
        let g = self.g as u64;
        let b = self.b as u64;
        let hi = if r >= g && r >= b {
            r
        } else if g >= b {
            g
        } else {
            b
        };
        let lo = if r <= g && r <= b {
            r
        } else if g <= b {
            g
        } else {
            b
        };
        let d = hi - lo;
        if d == 0 {
            return *self;
        }
        let p: u64 = if amount > 1000 {
            1000
        } else {
            amount as u64
        };
        let sum = hi + lo;
        let a: u64 = if sum >= 255 {
            510 - sum
        } else {
            sum
        };
        proof {
            lemma_sat_chan_bounds(sum as int, a as int, p as int, 0, d as int);
        }
        let cc = ((a * p + sum * 1000) / 2000) as u8;
        let cm = ((sum * 1000 - a * p) / 2000) as u8;
        if r >= g && r >= b {
            if g >= b {
                let cx = self.chan_x(sum, a, p, g - b, d);
                Color { r: cc, g: cx, b: cm }
            } else {
                let cx = self.chan_x(sum, a, p, b - g, d);
                Color { r: cc, g: cm, b: cx }
            }
        } else if g >= b {
            if b < r {
                let cx = self.chan_x(sum, a, p, r - b, d);
                Color { r: cx, g: cc, b: cm }
            } else {
                let cx = self.chan_x(sum, a, p, b - r, d);
                Color { r: cm, g: cc, b: cx }
            }
        } else {
            if r < g {
                let cx = self.chan_x(sum, a, p, g - r, d);
                Color { r: cm, g: cx, b: cc }
            } else {
                let cx = self.chan_x(sum, a, p, r - g, d);
                Color { r: cx, g: cm, b: cc }
            }
        }
    }

    /// The `x`-carrying channel of `saturate`, exact.
    fn chan_x(&self, sum: u64, a: u64, p: u64, t: u64, d: u64) -> (v: u8)
        requires
            1 <= d <= 255,
            d <= sum <= 510 - d,
            a == 255 - abs_int(sum as int - 255),
            p <= 1000,
            t <= d,
        ensures
            v == chan_sat_x(sum as int, a as int, p as int, t as int, d as int),
    {
        proof {
            lemma_sat_chan_bounds(sum as int, a as int, p as int, t as int, d as int);
            assert(2 * (a as int) * (p as int) <= 510000) by (nonlinear_arith)
                requires
                    0 <= a as int <= 255,
                    0 <= p as int <= 1000,
            ;
        }
        (((2 * a * p * t) + d * (sum * 1000 - a * p)) / (2000 * d)) as u8
    }
}

/// A color paired with an aggregate occurrence count.
#[derive(Debug, Clone)]
pub struct WeightedColor {
    pub color: Color,
    pub count: u32,
}

impl WeightedColor {
    pub fn new(color: Color, count: u32) -> (w: Self)
        ensures
            w.color == color,
            w.count == count,
    {
        WeightedColor { color, count }
    }
}

} // verus!
