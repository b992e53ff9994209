//! The two base64 alphabets: value-to-character and character-to-value maps.
use vstd::prelude::*;

verus! {

/// Sentinel marking a byte that is outside the active alphabet.
pub const INVALID_VALUE: u8 = 255;

/// Available encoding character sets
#[derive(Clone, Copy, Debug)]
pub enum CharacterSet {
    /// The standard character set (uses `+` and `/`)
    Standard,
    /// The URL safe character set (uses `-` and `_`)
    UrlSafe,
}

/// The character that the alphabet assigns to a 6-bit value.
pub open spec fn encode_val(cs: CharacterSet, v: int) -> u8
    recommends
        0 <= v < 64,
{
    if v < 26 {
        (65 + v) as u8
    } else if v < 52 {
        (97 + (v - 26)) as u8
    } else if v < 62 {
        (48 + (v - 52)) as u8
    } else if v == 62 {
        match cs {
            CharacterSet::Standard => 43,
            CharacterSet::UrlSafe => 45,
        }
    } else {
        match cs {
            CharacterSet::Standard => 47,
            CharacterSet::UrlSafe => 95,
        }
    }
}

/// The 6-bit value a byte decodes to, or `INVALID_VALUE` for bytes
/// outside the alphabet (`=` among them).
pub open spec fn decode_val(cs: CharacterSet, b: u8) -> u8 {
    if 65 <= b <= 90 {
        (b - 65) as u8
    } else if 97 <= b <= 122 {
        (b - 97 + 26) as u8
    } else if 48 <= b <= 57 {
        (b - 48 + 52) as u8
    } else if (cs is Standard && b == 43) || (cs is UrlSafe && b == 45) {
        62
    } else if (cs is Standard && b == 47) || (cs is UrlSafe && b == 95) {
        63
    } else {
        INVALID_VALUE
    }
}

/// A byte is in the alphabet exactly when the reverse map accepts it.
pub open spec fn is_alphabet_byte(cs: CharacterSet, b: u8) -> bool {
    decode_val(cs, b) != INVALID_VALUE
}

/// The forward table: 6-bit value to character.
pub fn encode_value(cs: CharacterSet, v: u8) -> (r: u8)
    requires
        v < 64,
    ensures
        r == encode_val(cs, v as int),
{
    if v < 26 {
        65 + v
    } else if v < 52 {
        97 + (v - 26)
    } else if v < 62 {
        48 + (v - 52)
    } else if v == 62 {
        match cs {
            CharacterSet::Standard => 43,
            CharacterSet::UrlSafe => 45,
        }
    } else {
        match cs {
            CharacterSet::Standard => 47,
            CharacterSet::UrlSafe => 95,
        }
    }
}

/// The reverse table: character to 6-bit value, `INVALID_VALUE` outside
/// the alphabet.
pub fn decode_value(cs: CharacterSet, b: u8) -> (r: u8)
    ensures
        r == decode_val(cs, b),
{
    if 65 <= b && b <= 90 {
        b - 65
    } else if 97 <= b && b <= 122 {
        b - 97 + 26
    } else if 48 <= b && b <= 57 {
        b - 48 + 52
    } else {
        match cs {
            CharacterSet::Standard => {
                if b == 43 {
                    62
                } else if b == 47 {
                    63
                } else {
                    INVALID_VALUE
                }
            },
            CharacterSet::UrlSafe => {
                if b == 45 {
                    62
                } else if b == 95 {
                    63
                } else {
                    INVALID_VALUE
                }
            },
        }
    }
}

/// The reverse table inverts the forward table on every 6-bit value.
pub proof fn lemma_alphabet_round_trip(cs: CharacterSet, v: int)
    requires
        0 <= v < 64,
    ensures
        decode_val(cs, encode_val(cs, v)) == v,
        encode_val(cs, v) != 61,
        encode_val(cs, v) < 128,
        !is_whitespace_byte(encode_val(cs, v)),
{
}

/// Alphabet members are ASCII, never `=`, and never whitespace.
pub proof fn lemma_alphabet_byte_facts(cs: CharacterSet, b: u8)
    requires
        is_alphabet_byte(cs, b),
    ensures
        b != 61,
        decode_val(cs, b) < 64,
        !is_whitespace_byte(b),
{
}

/// Every character the alphabet can produce is printable ASCII: never
/// whitespace and never the pad character.
pub proof fn lemma_encode_val_ascii(cs: CharacterSet, v: int)
    requires
        v >= 0,
    ensures
        encode_val(cs, v) < 128,
        !is_whitespace_byte(encode_val(cs, v)),
        encode_val(cs, v) != 61,
{
}

/// The whitespace set the decoder may be asked to strip:
/// space, LF, tab, CR, vertical tab, form feed.
pub open spec fn is_whitespace_byte(b: u8) -> bool {
    b == 32 || b == 10 || b == 9 || b == 13 || b == 11 || b == 12
}

/// Executable test for membership in the stripped whitespace set.
pub fn is_whitespace(b: u8) -> (r: bool)
    ensures
        r == is_whitespace_byte(b),
{
    b == 32 || b == 10 || b == 9 || b == 13 || b == 11 || b == 12
}

} // verus!
