//! Building blocks for the textual output: decimal and hexadecimal digit
//! strings, specified character by character.

use vstd::prelude::*;
use vstd::string::*;

verus! {

/// The character for one hexadecimal digit value (0..=15).
pub open spec fn hex_char(n: int) -> char {
    "0123456789abcdef"@[n]
}

/// The character for one decimal digit value (0..=9).
pub open spec fn dec_char(n: int) -> char {
    "0123456789"@[n]
}

/// Two lowercase hex digits for a byte, high digit first.
pub open spec fn spec_hex_byte(v: u8) -> Seq<char> {
    seq![hex_char(v as int / 16), hex_char(v as int % 16)]
}

/// The usual decimal rendering of a non-negative integer, no leading zeros
/// (a single zero for 0).
pub open spec fn spec_dec(n: int) -> Seq<char>
    decreases n,
{
    if n < 10 {
        seq![dec_char(n)]
    } else {
        spec_dec(n / 10) + seq![dec_char(n % 10)]
    }
}

/// Renders a byte as two lowercase hex digits.
pub fn hex_byte(v: u8) -> (s: String)
    ensures
        s@ == spec_hex_byte(v),
{
    let digits = "0123456789abcdef";
    proof {
        reveal_strlit("0123456789abcdef");
    }
    let hi = (v / 16) as usize;
    let lo = (v % 16) as usize;
    let mut s = String::from_str(digits.substring_ascii(hi, hi + 1));
    s.append(digits.substring_ascii(lo, lo + 1));
    proof {
        assert(s@ =~= spec_hex_byte(v));
    }
    s
}

/// Renders a non-negative integer in decimal.
pub fn dec_u32(n: u32) -> (s: String)
    ensures
        s@ == spec_dec(n as int),
    decreases n,
{
    let digits = "0123456789";
    proof {
        reveal_strlit("0123456789");
    }
    if n < 10 {
        let i = n as usize;
        let s = String::from_str(digits.substring_ascii(i, i + 1));
        proof {
            assert(s@ =~= spec_dec(n as int));
        }
        s
    } else {
        let mut s = dec_u32(n / 10);
        let i = (n % 10) as usize;
        s.append(digits.substring_ascii(i, i + 1));
        proof {
            assert(s@ =~= spec_dec(n as int));
        }
        s
    }
}

} // verus!
