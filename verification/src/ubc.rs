//! Universal AI Bytecode (UBC) engine: maps Unicode scalars to compact
//! 16-bit identifiers.

use vstd::prelude::*;

use crate::text::str_chars;

verus! {

/// A 16-bit Universal Bytecode token.
#[derive(Debug, Clone, Copy, PartialEq, Eq, Hash, Structural)]
pub struct UbcToken(pub u16);

/// The UBC identifier of a code point.
///
/// ASCII (`0..=0x7F`) maps to itself, the Tamil block (`0x0B80..=0x0BFF`)
/// maps to `0x0100..=0x017F`, and every other code point is folded into
/// `0x0200..=0x03FF` by xoring its high bits with its low byte.
pub open spec fn ubc_code(v: u32) -> u16 {
    if v < 128 {
        v as u16
    } else if 0x0B80 <= v <= 0x0BFF {
        (0x0100 + (v - 0x0B80)) as u16
    } else {
        0x0200u16 | ((((v >> 8u32) ^ (v & 0xFFu32)) as u16) & 0x01FFu16)
    }
}

/// The UBC identifiers of a sequence of characters, one per character.
pub open spec fn ubc_codes(s: Seq<char>) -> Seq<u16> {
    Seq::new(s.len(), |i: int| ubc_code(s[i] as u32))
}

pub struct UbcEngine;

impl UbcEngine {
    /// Encodes one character into its UBC token.
    pub fn encode_char(c: char) -> (t: UbcToken)
        ensures
            t.0 == ubc_code(c as u32),
    {
        let val = c as u32;
        if val < 128 {
            UbcToken(val as u16)
        } else if 0x0B80 <= val && val <= 0x0BFF {
            UbcToken(0x0100 + (val - 0x0B80) as u16)
        } else {
            let folded = ((val >> 8u32) ^ (val & 0xFFu32)) as u16;
            UbcToken(0x0200u16 | (folded & 0x01FFu16))
        }
    }

    /// Encodes every character of `text`, in order.
    pub fn encode_str(text: &str) -> (v: Vec<UbcToken>)
        ensures
            v@.len() == text@.len(),
            forall|i: int| 0 <= i < v@.len() ==> #[trigger] v@[i].0 == ubc_code(text@[i] as u32),
            v@.map_values(|t: UbcToken| t.0) == ubc_codes(text@),
    {
        let chars = str_chars(text);
        let mut out: Vec<UbcToken> = Vec::new();
        let mut i: usize = 0;
        while i < chars.len()
            invariant
                chars@ == text@,
                i <= chars@.len(),
                out@.len() == i,
                forall|k: int| 0 <= k < i ==> #[trigger] out@[k].0 == ubc_code(text@[k] as u32),
            decreases chars@.len() - i,
        {
            out.push(Self::encode_char(chars[i]));
            i = i + 1;
        }
        assert(out@.map_values(|t: UbcToken| t.0) =~= ubc_codes(text@));
        out
    }
}


/// The three bands of the encoding: ASCII keeps its value, the Tamil block
/// lands on `0x0100..=0x017F` in order, and everything else on
/// `0x0200..=0x03FF`; so the band of a token tells which class it came from.
pub proof fn lemma_ubc_code_bands(v: u32)
    ensures
        v < 128 ==> ubc_code(v) == v,
        0x0B80 <= v <= 0x0BFF ==> ubc_code(v) == 0x0100 + (v - 0x0B80) && 0x0100 <= ubc_code(v)
            <= 0x017F,
        !(v < 128) && !(0x0B80 <= v <= 0x0BFF) ==> 0x0200 <= ubc_code(v) <= 0x03FF,
{
    let f = ((v >> 8u32) ^ (v & 0xFFu32)) as u16;
    assert(0x0200 <= (0x0200u16 | (f & 0x01FFu16)) <= 0x03FF) by (bit_vector);
}

/// Encoding is character by character: the code of a concatenation is the
/// concatenation of the codes.
pub proof fn lemma_ubc_codes_concat(a: Seq<char>, b: Seq<char>)
    ensures
        ubc_codes(a + b) == ubc_codes(a) + ubc_codes(b),
{
    assert(ubc_codes(a + b) =~= ubc_codes(a) + ubc_codes(b));
}

} // verus!
