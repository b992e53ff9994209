//! Big-endian eight-byte loads and the bit-level facts the fast paths use.
use vstd::prelude::*;

verus! {

/// The big-endian 64-bit value of the eight bytes starting at `i`.
pub open spec fn be_u64_at(s: Seq<u8>, i: int) -> u64
    recommends
        0 <= i,
        i + 8 <= s.len(),
{
    ((s[i] as u64) << 56) | ((s[i + 1] as u64) << 48) | ((s[i + 2] as u64) << 40) | ((s[i + 3]
        as u64) << 32) | ((s[i + 4] as u64) << 24) | ((s[i + 5] as u64) << 16) | ((s[i + 6]
        as u64) << 8) | (s[i + 7] as u64)
}

/// Relies on byteorder::BigEndian::read_u64: the big-endian interpretation
/// of the first eight bytes of the slice it is handed.
#[verifier::external_body]
pub fn read_u64_be(input: &[u8], offset: usize) -> (r: u64)
    requires
        offset + 8 <= input@.len(),
    ensures
        r == be_u64_at(input@, offset as int),
{
    <byteorder::BigEndian as byteorder::ByteOrder>::read_u64(&input[offset..offset + 8])
}

/// The eight 6-bit fields that the encoder's wide load carries, expressed
/// over the first six of the loaded bytes.
pub proof fn lemma_be_u64_sixbit_fields(
    c: u64,
    b0: u8,
    b1: u8,
    b2: u8,
    b3: u8,
    b4: u8,
    b5: u8,
    b6: u8,
    b7: u8,
)
    by (bit_vector)
    requires
        c == ((b0 as u64) << 56) | ((b1 as u64) << 48) | ((b2 as u64) << 40) | ((b3 as u64)
            << 32) | ((b4 as u64) << 24) | ((b5 as u64) << 16) | ((b6 as u64) << 8) | (b7
            as u64),
    ensures
        ((c >> 58) & 0x3F) as u8 == b0 >> 2,
        ((c >> 52) & 0x3F) as u8 == ((b0 & 3) << 4) | (b1 >> 4),
        ((c >> 46) & 0x3F) as u8 == ((b1 & 15) << 2) | (b2 >> 6),
        ((c >> 40) & 0x3F) as u8 == b2 & 63,
        ((c >> 34) & 0x3F) as u8 == b3 >> 2,
        ((c >> 28) & 0x3F) as u8 == ((b3 & 3) << 4) | (b4 >> 4),
        ((c >> 22) & 0x3F) as u8 == ((b4 & 15) << 2) | (b5 >> 6),
        ((c >> 16) & 0x3F) as u8 == b5 & 63,
        ((c >> 58) & 0x3F) < 64,
        ((c >> 52) & 0x3F) < 64,
        ((c >> 46) & 0x3F) < 64,
        ((c >> 40) & 0x3F) < 64,
        ((c >> 34) & 0x3F) < 64,
        ((c >> 28) & 0x3F) < 64,
        ((c >> 22) & 0x3F) < 64,
        ((c >> 16) & 0x3F) < 64,
{
}

/// The individual bytes of a big-endian wide load.
pub proof fn lemma_be_u64_bytes(
    c: u64,
    b0: u8,
    b1: u8,
    b2: u8,
    b3: u8,
    b4: u8,
    b5: u8,
    b6: u8,
    b7: u8,
)
    by (bit_vector)
    requires
        c == ((b0 as u64) << 56) | ((b1 as u64) << 48) | ((b2 as u64) << 40) | ((b3 as u64)
            << 32) | ((b4 as u64) << 24) | ((b5 as u64) << 16) | ((b6 as u64) << 8) | (b7
            as u64),
    ensures
        (c >> 56) as u8 == b0,
        ((c >> 48) & 0xFF) as u8 == b1,
        ((c >> 40) & 0xFF) as u8 == b2,
        ((c >> 32) & 0xFF) as u8 == b3,
        ((c >> 24) & 0xFF) as u8 == b4,
        ((c >> 16) & 0xFF) as u8 == b5,
        ((c >> 8) & 0xFF) as u8 == b6,
        (c & 0xFF) as u8 == b7,
{
}

/// The scalar encoder's 6-bit fields are in range, and the forms for a
/// missing second or third byte collapse as the formulas expect.
pub proof fn lemma_sixbit_field_bounds(x: u8, y: u8, z: u8)
    by (bit_vector)
    ensures
        x >> 2 < 64,
        (((x & 3) << 4) | (y >> 4)) < 64,
        (((y & 15) << 2) | (z >> 6)) < 64,
        z & 63 < 64,
        (((x & 3) << 4) | (0u8 >> 4)) == (x & 3) << 4,
        (((y & 15) << 2) | (0u8 >> 6)) == (y & 15) << 2,
{
}

/// Recombining the four 6-bit fields of three bytes gives those bytes back.
pub proof fn lemma_sixbit_recombine(
    s0: u8,
    s1: u8,
    s2: u8,
    m0: u8,
    m1: u8,
    m2: u8,
    m3: u8,
)
    by (bit_vector)
    requires
        m0 == s0 >> 2,
        m1 == ((s0 & 3) << 4) | (s1 >> 4),
        m2 == ((s1 & 15) << 2) | (s2 >> 6),
        m3 == s2 & 63,
    ensures
        (m0 << 2) | (m1 >> 4) == s0,
        ((m1 & 15) << 4) | (m2 >> 2) == s1,
        ((m2 & 3) << 6) | m3 == s2,
{
}

/// Recombining the fields of a lone remainder byte gives it back.
pub proof fn lemma_tail_recombine1(s0: u8, m0: u8, m1: u8)
    by (bit_vector)
    requires
        m0 == s0 >> 2,
        m1 == ((s0 & 3) << 4) | (0u8 >> 4),
    ensures
        (m0 << 2) | (m1 >> 4) == s0,
{
}

/// Recombining the fields of a two-byte remainder gives the bytes back.
pub proof fn lemma_tail_recombine2(s0: u8, s1: u8, m0: u8, m1: u8, m2: u8)
    by (bit_vector)
    requires
        m0 == s0 >> 2,
        m1 == ((s0 & 3) << 4) | (s1 >> 4),
        m2 == ((s1 & 15) << 2) | (0u8 >> 6),
    ensures
        (m0 << 2) | (m1 >> 4) == s0,
        ((m1 & 15) << 4) | (m2 >> 2) == s1,
{
}

/// The six meaningful bytes of the decoder's 64-bit accumulator, packed
/// most-significant first from eight 6-bit values.
pub proof fn lemma_unpack_morsels(
    a: u64,
    m0: u8,
    m1: u8,
    m2: u8,
    m3: u8,
    m4: u8,
    m5: u8,
    m6: u8,
    m7: u8,
)
    by (bit_vector)
    requires
        m0 < 64,
        m1 < 64,
        m2 < 64,
        m3 < 64,
        m4 < 64,
        m5 < 64,
        m6 < 64,
        m7 < 64,
        a == ((m0 as u64) << 58) | ((m1 as u64) << 52) | ((m2 as u64) << 46) | ((m3 as u64)
            << 40) | ((m4 as u64) << 34) | ((m5 as u64) << 28) | ((m6 as u64) << 22) | ((m7
            as u64) << 16),
    ensures
        (a >> 56) as u8 == (m0 << 2) | (m1 >> 4),
        ((a >> 48) & 0xFF) as u8 == ((m1 & 15) << 4) | (m2 >> 2),
        ((a >> 40) & 0xFF) as u8 == ((m2 & 3) << 6) | m3,
        ((a >> 32) & 0xFF) as u8 == (m4 << 2) | (m5 >> 4),
        ((a >> 24) & 0xFF) as u8 == ((m5 & 15) << 4) | (m6 >> 2),
        ((a >> 16) & 0xFF) as u8 == ((m6 & 3) << 6) | m7,
{
}

} // verus!
