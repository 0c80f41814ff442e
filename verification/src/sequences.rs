//! Terminal control sequences: the OSC color-setting strings for palette
//! indices 0-15, the special-purpose indices (foreground, background,
//! cursor and friends), and the iTerm tab color string, each pinned
//! character by character.

use vstd::prelude::*;
use vstd::string::*;
use crate::color::{Color, spec_hex, spec_hex_stripped};
use crate::fmt_text::{spec_dec, dec_u32};

verus! {

/// One special-purpose sequence: `ESC ] index ; [alpha] hex ESC \` for the
/// background indices when alpha is not 100, else `ESC ] index ; hex ESC \`.
pub open spec fn spec_set_special(index: u16, color: Color, alpha: u8) -> Seq<char> {
    if (index == 11 || index == 708) && alpha != 100 {
        "\x1b]"@ + spec_dec(index as int) + ";["@ + spec_dec(alpha as int) + "]"@ + spec_hex(color)
            + "\x1b\\"@
    } else {
        "\x1b]"@ + spec_dec(index as int) + ";"@ + spec_hex(color) + "\x1b\\"@
    }
}

/// One palette-index sequence: `ESC ] 4 ; index ; hex ESC \`.
pub open spec fn spec_set_color(index: u8, color: Color) -> Seq<char> {
    "\x1b]4;"@ + spec_dec(index as int) + ";"@ + spec_hex(color) + "\x1b\\"@
}

/// The iTerm tab color string: one brightness sequence per channel.
pub open spec fn spec_iterm_tab_color(color: Color) -> Seq<char> {
    "\x1b]6;1;bg;red;brightness;"@ + spec_dec(color.r as int) + "\x07\x1b]6;1;bg;green;brightness;"@
        + spec_dec(color.g as int) + "\x07\x1b]6;1;bg;blue;brightness;"@ + spec_dec(color.b as int)
        + "\x07"@
}

/// The color-setting sequences of the first `n` palette indices that exist.
pub open spec fn spec_color_block(colors: Seq<Color>, n: int) -> Seq<char>
    decreases n,
{
    if n <= 0 {
        Seq::empty()
    } else {
        spec_color_block(colors, n - 1) + if n - 1 < colors.len() {
            spec_set_color((n - 1) as u8, colors[n - 1])
        } else {
            Seq::empty()
        }
    }
}

/// The whole emitted string: palette indices 0-15, then the special
/// indices (10 and 13 foreground, 11 and 19 background, 12 cursor, 17
/// selection), index 232, index 256, and, unless the VTE workaround is
/// asked for, index 708.
pub open spec fn spec_sequences(colors: Seq<Color>, alpha: u8, vte_fix: bool) -> Seq<char> {
    let background = colors[0];
    let foreground = if colors.len() > 15 {
        colors[15]
    } else {
        colors[7]
    };
    spec_color_block(colors, 16) + spec_set_special(10, foreground, alpha) + spec_set_special(
        11,
        background,
        alpha,
    ) + spec_set_special(12, foreground, alpha) + spec_set_special(13, foreground, alpha)
        + spec_set_special(17, foreground, alpha) + spec_set_special(19, background, alpha)
        + spec_set_color(232, background) + "\x1b]4;256;"@ + spec_hex(foreground) + "\x1b\\"@ + if
        !vte_fix {
        spec_set_special(708, background, alpha)
    } else {
        Seq::empty()
    }
}

/// Builds the terminal control sequences for a palette.
pub struct SequenceGenerator {
    pub colors: Vec<Color>,
    pub alpha: u8,
}

impl SequenceGenerator {
    pub fn new(colors: Vec<Color>, alpha: u8) -> (g: Self)
        ensures
            g.colors@ == colors@,
            g.alpha == alpha,
    {
        SequenceGenerator { colors, alpha }
    }

    /// One special-purpose sequence; the extra name parameter is kept for
    /// emitters that address special slots by letter.
    pub fn set_special(&self, index: u16, color: &Color, _iterm_name: &str) -> (s: String)
        ensures
            s@ == spec_set_special(index, *color, self.alpha),
    {
        if (index == 11 || index == 708) && self.alpha != 100 {
            let mut s = String::from_str("\x1b]");
            s.append(dec_u32(index as u32).as_str());
            s.append(";[");
            s.append(dec_u32(self.alpha as u32).as_str());
            s.append("]");
            s.append(color.to_hex().as_str());
            s.append("\x1b\\");
            proof {
                assert(s@ =~= spec_set_special(index, *color, self.alpha));
            }
            s
        } else {
            let mut s = String::from_str("\x1b]");
            s.append(dec_u32(index as u32).as_str());
            s.append(";");
            s.append(color.to_hex().as_str());
            s.append("\x1b\\");
            proof {
                assert(s@ =~= spec_set_special(index, *color, self.alpha));
            }
            s
        }
    }

    /// One palette-index sequence.
    pub fn set_color(&self, index: u8, color: &Color) -> (s: String)
        ensures
            s@ == spec_set_color(index, *color),
    {
        let mut s = String::from_str("\x1b]4;");
        s.append(dec_u32(index as u32).as_str());
        s.append(";");
        s.append(color.to_hex().as_str());
        s.append("\x1b\\");
        proof {
            assert(s@ =~= spec_set_color(index, *color));
        }
        s
    }

    /// The iTerm tab color string, one brightness sequence per channel.
    pub fn set_iterm_tab_color(&self, color: &Color) -> (s: String)
        ensures
            s@ == spec_iterm_tab_color(*color),
    {
        let mut s = String::from_str("\x1b]6;1;bg;red;brightness;");
        s.append(dec_u32(color.r as u32).as_str());
        s.append("\x07\x1b]6;1;bg;green;brightness;");
        s.append(dec_u32(color.g as u32).as_str());
        s.append("\x07\x1b]6;1;bg;blue;brightness;");
        s.append(dec_u32(color.b as u32).as_str());
        s.append("\x07");
        proof {
            assert(s@ =~= spec_iterm_tab_color(*color));
        }
        s
    }

    /// Builds the whole string of sequences. The palette must reach at
    /// least slot 7, which foreground and cursor fall back to.
    fn create_sequences(&self, vte_fix: bool) -> (s: String)
        requires
            self.colors@.len() >= 8,
        ensures
            s@ == spec_sequences(self.colors@, self.alpha, vte_fix),
    {
        let mut sequences = String::new();
        let mut i: usize = 0;
        while i < 16
            invariant
                0 <= i <= 16,
                self.colors@.len() >= 8,
                sequences@ == spec_color_block(self.colors@, i as int),
            decreases 16 - i,
        {
            if i < self.colors.len() {
                sequences.append(self.set_color(i as u8, &self.colors[i]).as_str());
            }
            i = i + 1;
        }

        let background = self.colors[0];
        let foreground = if self.colors.len() > 15 {
            self.colors[15]
        } else {
            self.colors[7]
        };

        sequences.append(self.set_special(10, &foreground, "g").as_str());
        sequences.append(self.set_special(11, &background, "h").as_str());
        sequences.append(self.set_special(12, &foreground, "l").as_str());
        sequences.append(self.set_special(13, &foreground, "l").as_str());
        sequences.append(self.set_special(17, &foreground, "l").as_str());
        sequences.append(self.set_special(19, &background, "l").as_str());
        sequences.append(self.set_color(232, &background).as_str());
        sequences.append("\x1b]4;256;");
        sequences.append(foreground.to_hex().as_str());
        sequences.append("\x1b\\");

        if !vte_fix {
            sequences.append(self.set_special(708, &background, "l").as_str());
        }
        proof {
            assert(sequences@ =~= spec_sequences(self.colors@, self.alpha, vte_fix));
        }
        sequences
    }

    /// The whole string of sequences, ready to hand to an emitter.
    pub fn generate_sequences(&self, vte_fix: bool) -> (s: String)
        requires
            self.colors@.len() >= 8,
        ensures
            s@ == spec_sequences(self.colors@, self.alpha, vte_fix),
    {
        self.create_sequences(vte_fix)
    }
}

} // verus!
