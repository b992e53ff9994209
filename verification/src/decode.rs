//! The decoder core: a chunked fast pass, a scalar trailing pass with the
//! padding rules, and exact error locations.
use vstd::prelude::*;
use vstd::arithmetic::div_mod::lemma_fundamental_div_mod;
use vstd::arithmetic::div_mod::lemma_mod_bound;

use crate::Config;
use crate::DecodeError;
use crate::alphabet::CharacterSet;
use crate::alphabet::INVALID_VALUE;
use crate::alphabet::decode_val;
use crate::alphabet::decode_value;
use crate::alphabet::is_alphabet_byte;
use crate::alphabet::is_whitespace;
use crate::alphabet::is_whitespace_byte;
use crate::alphabet::lemma_alphabet_byte_facts;
use crate::endian::lemma_be_u64_bytes;
use crate::endian::lemma_unpack_morsels;
use crate::endian::read_u64_be;

verus! {

/// Ghost description of why a decode fails: the offending byte with its
/// absolute offset, or an unusable number of characters.
pub enum DecodeIssue {
    BadByte { offset: int, byte: u8 },
    BadLength,
}

/// Length of the prefix the chunked fast pass handles: the largest
/// multiple of eight strictly below the input length. When the length is
/// an exact multiple of eight the last chunk is left to the scalar pass,
/// since it may hold padding.
pub open spec fn chunked_prefix_len(n: int) -> int
    recommends
        n >= 0,
{
    if n == 0 {
        0int
    } else {
        ((n - 1) / 8) * 8
    }
}

/// The first position in `s[i..upto)` holding a byte outside the
/// alphabet, if any.
pub open spec fn fast_scan(cs: CharacterSet, s: Seq<u8>, upto: int, i: int) -> Option<int>
    decreases upto - i,
{
    if i < 0 || i >= upto || upto > s.len() {
        None
    } else if !is_alphabet_byte(cs, s[i]) {
        Some(i)
    } else {
        fast_scan(cs, s, upto, i + 1)
    }
}

/// The scalar pass over the trailing chunk, from position `i` with
/// `morsels` characters already decoded and padding seen from `pad_start`:
/// `=` may not stand at quad position zero or one, nothing may follow a
/// `=` but more `=`, and every other byte must be in the alphabet.
/// Returns how many characters decode, or the first failure.
pub open spec fn trail_scan(
    cs: CharacterSet,
    s: Seq<u8>,
    i: int,
    morsels: int,
    pad_start: Option<int>,
) -> Result<int, DecodeIssue>
    decreases s.len() - i,
{
    if i < 0 || i >= s.len() {
        Ok(morsels)
    } else if s[i] == 61 {
        if i % 4 < 2 {
            Err(DecodeIssue::BadByte { offset: i, byte: 61 })
        } else {
            trail_scan(
                cs,
                s,
                i + 1,
                morsels,
                if pad_start is None {
                    Some(i)
                } else {
                    pad_start
                },
            )
        }
    } else {
        match pad_start {
            Some(p) => Err(DecodeIssue::BadByte { offset: p, byte: 61 }),
            None => {
                if !is_alphabet_byte(cs, s[i]) {
                    Err(DecodeIssue::BadByte { offset: i, byte: s[i] })
                } else {
                    trail_scan(cs, s, i + 1, morsels + 1, pad_start)
                }
            },
        }
    }
}

/// How many bytes `c` decoded characters yield: three per quad, then one
/// for two leftover characters or two for three.
pub open spec fn decoded_len(c: int) -> int
    recommends
        c >= 0,
        c % 4 != 1,
{
    (c / 4) * 3 + (if c % 4 == 0 {
        0int
    } else if c % 4 == 2 {
        1int
    } else {
        2int
    })
}

/// Byte `j` of the decode of the first `c` characters of `s`.
pub open spec fn dec_byte_at(cs: CharacterSet, s: Seq<u8>, c: int, j: int) -> u8
    recommends
        0 <= j < decoded_len(c),
        c <= s.len(),
{
    let q = j / 3;
    let m0 = decode_val(cs, s[4 * q]);
    let m1 = if 4 * q + 1 < c {
        decode_val(cs, s[4 * q + 1])
    } else {
        0u8
    };
    let m2 = if 4 * q + 2 < c {
        decode_val(cs, s[4 * q + 2])
    } else {
        0u8
    };
    let m3 = if 4 * q + 3 < c {
        decode_val(cs, s[4 * q + 3])
    } else {
        0u8
    };
    if j % 3 == 0 {
        (m0 << 2) | (m1 >> 4)
    } else if j % 3 == 1 {
        ((m1 & 15) << 4) | (m2 >> 2)
    } else {
        ((m2 & 3) << 6) | m3
    }
}

/// The bytes decoded from the first `c` characters of `s`.
pub open spec fn decoded_seq(cs: CharacterSet, s: Seq<u8>, c: int) -> Seq<u8> {
    Seq::new(decoded_len(c) as nat, |j: int| dec_byte_at(cs, s, c, j))
}

/// What a decode of `s` returns: the decoded bytes, or the exact failure.
/// Padding is accepted whether or not the configuration asks for it; only
/// the alphabet is configuration-sensitive here.
pub open spec fn decode_spec(cs: CharacterSet, s: Seq<u8>) -> Result<Seq<u8>, DecodeIssue> {
    let n = s.len() as int;
    let l = chunked_prefix_len(n);
    match fast_scan(cs, s, l, 0) {
        Some(i) => Err(DecodeIssue::BadByte { offset: i, byte: s[i] }),
        None => match trail_scan(cs, s, l, 0, None) {
            Err(issue) => Err(issue),
            Ok(c) => {
                if c % 4 == 1 {
                    Err(DecodeIssue::BadLength)
                } else {
                    Ok(decoded_seq(cs, s, l + c))
                }
            },
        },
    }
}

/// The chunked fast pass: decode the full-chunk prefix into `out`, eight
/// characters at a time through one wide load, or report the first byte
/// outside the alphabet.
#[verifier::loop_isolation(false)]
#[verifier::spinoff_prover]
#[verifier::rlimit(100)]
fn decode_chunks(
    cs: CharacterSet,
    input: &[u8],
    length_of_full_chunks: usize,
    out: &mut Vec<u8>,
) -> (r: Result<(), DecodeError>)
    requires
        old(out)@.len() == 0,
        length_of_full_chunks == chunked_prefix_len(input@.len() as int),
    ensures
        match r {
            Ok(()) => {
                &&& fast_scan(cs, input@, length_of_full_chunks as int, 0) is None
                &&& 4 * final(out)@.len() == 3 * (length_of_full_chunks as int)
                &&& forall|j: int|
                    0 <= j < final(out)@.len() ==> final(out)@[j] == dec_byte_at(
                        cs,
                        input@,
                        input@.len() as int,
                        j,
                    )
            },
            Err(DecodeError::InvalidByte(i, b)) => fast_scan(
                cs,
                input@,
                length_of_full_chunks as int,
                0,
            ) == Some(i as int) && b == input@[i as int],
            Err(DecodeError::InvalidLength) => false,
        },
{
    let ghost s = input@;
    let n = input.len();
    proof {
        lemma_chunked_prefix(n as int);
    }
    let ghost l = chunked_prefix_len(n as int);

    let mut i: usize = 0;
    while i < length_of_full_chunks
        invariant
            i % 8 == 0,
            i <= length_of_full_chunks,
            4 * out@.len() == 3 * i,
            fast_scan(cs, s, l, 0) == fast_scan(cs, s, l, i as int),
            forall|j: int| 0 <= j < out@.len() ==> out@[j] == dec_byte_at(cs, s, n as int, j),
        decreases length_of_full_chunks - i,
    {
        proof {
            lemma_chunk_step(i as int, l);
        }
        let c = read_u64_be(input, i);
        let b0 = (c >> 56) as u8;
        let b1 = ((c >> 48) & 0xFF) as u8;
        let b2 = ((c >> 40) & 0xFF) as u8;
        let b3 = ((c >> 32) & 0xFF) as u8;
        let b4 = ((c >> 24) & 0xFF) as u8;
        let b5 = ((c >> 16) & 0xFF) as u8;
        let b6 = ((c >> 8) & 0xFF) as u8;
        let b7 = (c & 0xFF) as u8;
        proof {
            lemma_be_u64_bytes(
                c,
                s[i as int],
                s[i + 1],
                s[i + 2],
                s[i + 3],
                s[i + 4],
                s[i + 5],
                s[i + 6],
                s[i + 7],
            );
        }
        let m0 = decode_value(cs, b0);
        if m0 == INVALID_VALUE {
            proof {
                assert(fast_scan(cs, s, l, i as int) == Some(i as int));
            }
            return Err(DecodeError::InvalidByte(i, b0));
        }
        proof {
            assert(fast_scan(cs, s, l, i as int) == fast_scan(cs, s, l, i + 1));
        }
        let m1 = decode_value(cs, b1);
        if m1 == INVALID_VALUE {
            proof {
                assert(fast_scan(cs, s, l, i + 1) == Some(i + 1));
            }
            return Err(DecodeError::InvalidByte(i + 1, b1));
        }
        proof {
            assert(fast_scan(cs, s, l, i + 1) == fast_scan(cs, s, l, i + 1 + 1));
        }
        let m2 = decode_value(cs, b2);
        if m2 == INVALID_VALUE {
            proof {
                assert(fast_scan(cs, s, l, i + 2) == Some(i + 2));
            }
            return Err(DecodeError::InvalidByte(i + 2, b2));
        }
        proof {
            assert(fast_scan(cs, s, l, i + 2) == fast_scan(cs, s, l, i + 2 + 1));
        }
        let m3 = decode_value(cs, b3);
        if m3 == INVALID_VALUE {
            proof {
                assert(fast_scan(cs, s, l, i + 3) == Some(i + 3));
            }
            return Err(DecodeError::InvalidByte(i + 3, b3));
        }
        proof {
            assert(fast_scan(cs, s, l, i + 3) == fast_scan(cs, s, l, i + 3 + 1));
        }
        let m4 = decode_value(cs, b4);
        if m4 == INVALID_VALUE {
            proof {
                assert(fast_scan(cs, s, l, i + 4) == Some(i + 4));
            }
            return Err(DecodeError::InvalidByte(i + 4, b4));
        }
        proof {
            assert(fast_scan(cs, s, l, i + 4) == fast_scan(cs, s, l, i + 4 + 1));
        }
        let m5 = decode_value(cs, b5);
        if m5 == INVALID_VALUE {
            proof {
                assert(fast_scan(cs, s, l, i + 5) == Some(i + 5));
            }
            return Err(DecodeError::InvalidByte(i + 5, b5));
        }
        proof {
            assert(fast_scan(cs, s, l, i + 5) == fast_scan(cs, s, l, i + 5 + 1));
        }
        let m6 = decode_value(cs, b6);
        if m6 == INVALID_VALUE {
            proof {
                assert(fast_scan(cs, s, l, i + 6) == Some(i + 6));
            }
            return Err(DecodeError::InvalidByte(i + 6, b6));
        }
        proof {
            assert(fast_scan(cs, s, l, i + 6) == fast_scan(cs, s, l, i + 6 + 1));
        }
        let m7 = decode_value(cs, b7);
        if m7 == INVALID_VALUE {
            proof {
                assert(fast_scan(cs, s, l, i + 7) == Some(i + 7));
            }
            return Err(DecodeError::InvalidByte(i + 7, b7));
        }
        proof {
            assert(fast_scan(cs, s, l, i + 7) == fast_scan(cs, s, l, i + 7 + 1));
        }
        let a: u64 = ((m0 as u64) << 58) | ((m1 as u64) << 52) | ((m2 as u64) << 46) | ((m3
            as u64) << 40) | ((m4 as u64) << 34) | ((m5 as u64) << 28) | ((m6 as u64) << 22)
            | ((m7 as u64) << 16);
        proof {
            lemma_alphabet_byte_facts(cs, s[i as int]);
            lemma_alphabet_byte_facts(cs, s[i + 1]);
            lemma_alphabet_byte_facts(cs, s[i + 2]);
            lemma_alphabet_byte_facts(cs, s[i + 3]);
            lemma_alphabet_byte_facts(cs, s[i + 4]);
            lemma_alphabet_byte_facts(cs, s[i + 5]);
            lemma_alphabet_byte_facts(cs, s[i + 6]);
            lemma_alphabet_byte_facts(cs, s[i + 7]);
            lemma_unpack_morsels(a, m0, m1, m2, m3, m4, m5, m6, m7);
            lemma_fundamental_div_mod(i as int, 4);
            let p = i as int / 4;
            lemma_div3g(p, 0);
            lemma_div3g(p, 1);
            lemma_div3g(p, 2);
            lemma_div3g(p + 1, 0);
            lemma_div3g(p + 1, 1);
            lemma_div3g(p + 1, 2);
        }
        out.push((a >> 56) as u8);
        out.push(((a >> 48) & 0xFF) as u8);
        out.push(((a >> 40) & 0xFF) as u8);
        out.push(((a >> 32) & 0xFF) as u8);
        out.push(((a >> 24) & 0xFF) as u8);
        out.push(((a >> 16) & 0xFF) as u8);
        i += 8;
        assert(forall|j: int|
            0 <= j < out@.len() ==> out@[j] == dec_byte_at(cs, s, n as int, j));
    }
    Ok(())
}

/// Decode `input` and append the decoded bytes to `buffer` on success; on
/// failure report the exact offending byte or length and leave `buffer`
/// as it was.
#[verifier::loop_isolation(false)]
#[verifier::spinoff_prover]
#[verifier::rlimit(100)]
pub fn decode_into(cs: CharacterSet, input: &[u8], buffer: &mut Vec<u8>) -> (r: Result<
    (),
    DecodeError,
>)
    ensures
        match (r, decode_spec(cs, input@)) {
            (Ok(()), Ok(bytes)) => final(buffer)@ == old(buffer)@ + bytes,
            (
                Err(DecodeError::InvalidByte(i, b)),
                Err(DecodeIssue::BadByte { offset, byte }),
            ) => i == offset && b == byte && final(buffer)@ == old(buffer)@,
            (Err(DecodeError::InvalidLength), Err(DecodeIssue::BadLength)) => final(buffer)@
                == old(buffer)@,
            _ => false,
        },
{
    let ghost s = input@;
    let n = input.len();
    let remainder_len = n % 8;
    let trailing_bytes_to_skip: usize = if remainder_len == 0 {
        8
    } else {
        remainder_len
    };
    let length_of_full_chunks: usize = if n >= trailing_bytes_to_skip {
        n - trailing_bytes_to_skip
    } else {
        0
    };
    proof {
        lemma_chunked_prefix(n as int);
        lemma_mod_bound(n as int, 8);
        assert(length_of_full_chunks == chunked_prefix_len(n as int));
    }
    let ghost l = chunked_prefix_len(n as int);

    let mut out: Vec<u8> = Vec::new();
    match decode_chunks(cs, input, length_of_full_chunks, &mut out) {
        Ok(()) => {},
        Err(e) => {
            return Err(e);
        },
    }

    // scalar pass over the trailing chunk, where padding may appear
    let mut tail_morsels: Vec<u8> = Vec::new();
    let mut padding_bytes: usize = 0;
    let mut first_padding_index: usize = 0;
    let mut ti = length_of_full_chunks;
    while ti < n
        invariant
            length_of_full_chunks <= ti <= n,
            tail_morsels@.len() + padding_bytes == ti - length_of_full_chunks,
            forall|idx: int|
                l <= idx < l + tail_morsels@.len() ==> is_alphabet_byte(cs, #[trigger] s[idx]),
            forall|k: int|
                0 <= k < tail_morsels@.len() ==> #[trigger] tail_morsels@[k] == decode_val(
                    cs,
                    s[l + k],
                ),
            padding_bytes == 0 ==> trail_scan(cs, s, l, 0, None) == trail_scan(
                cs,
                s,
                ti as int,
                tail_morsels@.len() as int,
                None,
            ),
            padding_bytes > 0 ==> length_of_full_chunks <= first_padding_index < ti
                && trail_scan(cs, s, l, 0, None) == trail_scan(
                cs,
                s,
                ti as int,
                tail_morsels@.len() as int,
                Some(first_padding_index as int),
            ),
        decreases n - ti,
    {
        let b = input[ti];
        let ghost pad_opt: Option<int> = if padding_bytes == 0 {
            None
        } else {
            Some(first_padding_index as int)
        };
        let ghost mcg = tail_morsels@.len() as int;
        if b == 0x3D {
            if ti % 4 < 2 {
                proof {
                    assert(trail_scan(cs, s, ti as int, mcg, pad_opt) == Err::<int, DecodeIssue>(
                        DecodeIssue::BadByte { offset: ti as int, byte: 61 },
                    ));
                }
                return Err(DecodeError::InvalidByte(ti, b));
            }
            proof {
                let np: Option<int> = if pad_opt is None {
                    Some(ti as int)
                } else {
                    pad_opt
                };
                assert(trail_scan(cs, s, ti as int, mcg, pad_opt) == trail_scan(
                    cs,
                    s,
                    ti + 1,
                    mcg,
                    np,
                ));
            }
            if padding_bytes == 0 {
                first_padding_index = ti;
            }
            padding_bytes += 1;
        } else {
            if padding_bytes > 0 {
                proof {
                    assert(trail_scan(cs, s, ti as int, mcg, pad_opt) == Err::<int, DecodeIssue>(
                        DecodeIssue::BadByte { offset: first_padding_index as int, byte: 61 },
                    ));
                }
                return Err(DecodeError::InvalidByte(first_padding_index, 0x3D));
            }
            let morsel = decode_value(cs, b);
            if morsel == INVALID_VALUE {
                proof {
                    assert(trail_scan(cs, s, ti as int, mcg, pad_opt) == Err::<int, DecodeIssue>(
                        DecodeIssue::BadByte { offset: ti as int, byte: s[ti as int] },
                    ));
                }
                return Err(DecodeError::InvalidByte(ti, b));
            }
            proof {
                assert(trail_scan(cs, s, ti as int, mcg, pad_opt) == trail_scan(
                    cs,
                    s,
                    ti + 1,
                    mcg + 1,
                    pad_opt,
                ));
                assert(l + mcg == ti as int);
            }
            let ghost pre = tail_morsels@;
            tail_morsels.push(morsel);
            proof {
                assert forall|idx: int| l <= idx < l + tail_morsels@.len() implies
                    is_alphabet_byte(cs, #[trigger] s[idx]) by {
                    if idx == ti as int {
                        assert(s[idx] == b);
                    }
                }
                assert forall|k: int| 0 <= k < tail_morsels@.len() implies #[trigger]
                    tail_morsels@[k] == decode_val(cs, s[l + k]) by {
                    if k < pre.len() {
                        assert(tail_morsels@[k] == pre[k]);
                        assert(pre[k] == decode_val(cs, s[l + k]));
                    } else {
                        assert(l + k == ti as int);
                        assert(tail_morsels@[k] == morsel);
                    }
                }
            }
        }
        ti += 1;
    }

    let mc = tail_morsels.len();
    if mc == 1 || mc == 5 {
        return Err(DecodeError::InvalidLength);
    }
    let ghost c = l + mc as int;
    proof {
        lemma_fundamental_div_mod(l, 4);
        let p = l / 4;
        lemma_div4g(p, mc as int);
        lemma_exact_mul(p);
        lemma_div3g(p, 0);
        lemma_div3g(p, 1);
        lemma_div3g(p, 2);
        lemma_div3g(p + 1, 0);
        lemma_div3g(p + 1, 1);
        lemma_div3g(p + 1, 2);
        assert(4 * out@.len() == 3 * l);
        assert(out@.len() == 3 * p) by (nonlinear_arith)
            requires
                4 * out@.len() == 3 * l,
                l == 4 * p,
        ;
    }
    if mc >= 2 {
        let m0 = tail_morsels[0];
        let m1 = tail_morsels[1];
        out.push((m0 << 2) | (m1 >> 4));
    }
    if mc >= 3 {
        let m1 = tail_morsels[1];
        let m2 = tail_morsels[2];
        out.push(((m1 & 15) << 4) | (m2 >> 2));
    }
    if mc >= 4 {
        let m2 = tail_morsels[2];
        let m3 = tail_morsels[3];
        out.push(((m2 & 3) << 6) | m3);
    }
    if mc >= 6 {
        let m4 = tail_morsels[4];
        let m5 = tail_morsels[5];
        out.push((m4 << 2) | (m5 >> 4));
    }
    if mc >= 7 {
        let m5 = tail_morsels[5];
        let m6 = tail_morsels[6];
        out.push(((m5 & 15) << 4) | (m6 >> 2));
    }
    if mc >= 8 {
        let m6 = tail_morsels[6];
        let m7 = tail_morsels[7];
        out.push(((m6 & 3) << 6) | m7);
    }

    proof {
        assert forall|j: int| 0 <= j < (l / 4) * 3 implies dec_byte_at(cs, s, n as int, j)
            == dec_byte_at(cs, s, c, j) by {
            lemma_div_lt3(j, l / 4);
            let q = j / 3;
            assert(4 * q + 3 < l) by (nonlinear_arith)
                requires
                    0 <= q < l / 4,
                    l == 4 * (l / 4),
            ;
        }
        assert(out@ =~= decoded_seq(cs, s, c));
    }
    buffer.append(&mut out);
    Ok(())
}

/// The bytes a decode looks at: the input itself, or the input with the
/// whitespace set removed when the configuration asks for that.
pub open spec fn effective_input(s: Seq<u8>, config: Config) -> Seq<u8> {
    if config.strip_whitespace {
        s.filter(|b: u8| !is_whitespace_byte(b))
    } else {
        s
    }
}

/// Copy `input` without the whitespace set.
#[verifier::loop_isolation(false)]
pub fn remove_whitespace(input: &[u8]) -> (r: Vec<u8>)
    ensures
        r@ == input@.filter(|b: u8| !is_whitespace_byte(b)),
{
    let ghost s = input@;
    let ghost pred = |b: u8| !is_whitespace_byte(b);
    let mut out: Vec<u8> = Vec::new();
    let mut i: usize = 0;
    while i < input.len()
        invariant
            i <= s.len(),
            s == input@,
            out@ == s.take(i as int).filter(pred),
        decreases s.len() - i,
    {
        let b = input[i];
        let ghost pre = s.take(i as int);
        if !is_whitespace(b) {
            out.push(b);
        }
        i += 1;
        proof {
            assert(s.take(i as int).drop_last() =~= pre);
            assert(s.take(i as int).last() == b);
            reveal_with_fuel(Seq::<_>::filter, 2);
            assert(s.take(i as int).filter(pred) == if pred(b) {
                pre.filter(pred).push(b)
            } else {
                pre.filter(pred)
            });
        }
    }
    proof {
        assert(s.take(s.len() as int) =~= s);
    }
    out
}

/// Decode `input` under `config`, appending the decoded bytes to `buffer`
/// on success and leaving it untouched on failure. Whitespace is first
/// stripped when the configuration asks for it; padding is accepted in
/// both its presence and its absence, whatever `config.pad` says.
pub fn decode_config_buf(input: &[u8], config: Config, buffer: &mut Vec<u8>) -> (r: Result<
    (),
    DecodeError,
>)
    ensures
        match (r, decode_spec(config.char_set, effective_input(input@, config))) {
            (Ok(()), Ok(bytes)) => final(buffer)@ == old(buffer)@ + bytes,
            (
                Err(DecodeError::InvalidByte(i, b)),
                Err(DecodeIssue::BadByte { offset, byte }),
            ) => i == offset && b == byte && final(buffer)@ == old(buffer)@,
            (Err(DecodeError::InvalidLength), Err(DecodeIssue::BadLength)) => final(buffer)@
                == old(buffer)@,
            _ => false,
        },
{
    if config.strip_whitespace {
        let copy = remove_whitespace(input);
        decode_into(config.char_set, copy.as_slice(), buffer)
    } else {
        decode_into(config.char_set, input, buffer)
    }
}

/// Decode `input` under `config` into a fresh byte vector, or report the
/// exact failure.
pub fn decode_config(input: &[u8], config: Config) -> (r: Result<Vec<u8>, DecodeError>)
    ensures
        match (r, decode_spec(config.char_set, effective_input(input@, config))) {
            (Ok(v), Ok(bytes)) => v@ == bytes,
            (
                Err(DecodeError::InvalidByte(i, b)),
                Err(DecodeIssue::BadByte { offset, byte }),
            ) => i == offset && b == byte,
            (Err(DecodeError::InvalidLength), Err(DecodeIssue::BadLength)) => true,
            _ => false,
        },
{
    let mut buffer: Vec<u8> = Vec::new();
    match decode_config_buf(input, config, &mut buffer) {
        Ok(()) => Ok(buffer),
        Err(e) => Err(e),
    }
}

/// Shape of the chunked prefix: a multiple of eight, at least one and at
/// most eight bytes short of the whole input.
pub proof fn lemma_chunked_prefix(n: int)
    requires
        n >= 0,
    ensures
        chunked_prefix_len(n) % 8 == 0,
        chunked_prefix_len(n) % 4 == 0,
        0 <= chunked_prefix_len(n) <= n,
        n > 0 ==> 1 <= n - chunked_prefix_len(n) <= 8,
        n > 0 && n % 8 == 0 ==> chunked_prefix_len(n) == n - 8,
        n % 8 != 0 ==> chunked_prefix_len(n) == n - n % 8,
{
    if n > 0 {
        lemma_fundamental_div_mod(n - 1, 8);
        lemma_mod_bound(n - 1, 8);
        lemma_fundamental_div_mod(n, 8);
        lemma_mod_bound(n, 8);
        let q = (n - 1) / 8;
        assert(q * 8 % 8 == 0 && q * 8 % 4 == 0) by (nonlinear_arith);
        assert(q >= 0) by (nonlinear_arith)
            requires
                n - 1 == 8 * q + (n - 1) % 8,
                0 <= (n - 1) % 8 < 8,
                n >= 1,
        ;
        if n % 8 == 0 {
            assert(q * 8 == n - 8) by (nonlinear_arith)
                requires
                    n - 1 == 8 * q + (n - 1) % 8,
                    0 <= (n - 1) % 8 < 8,
                    n % 8 == 0,
                    n == 8 * (n / 8) + n % 8,
            ;
        } else {
            assert(q * 8 == n - n % 8) by (nonlinear_arith)
                requires
                    n - 1 == 8 * q + (n - 1) % 8,
                    0 <= (n - 1) % 8 < 8,
                    n % 8 != 0,
                    n == 8 * (n / 8) + n % 8,
                    0 <= n % 8 < 8,
            ;
        }
    }
}

/// Multiples of eight below a multiple of eight leave room for a chunk.
proof fn lemma_chunk_step(i: int, l: int)
    by (nonlinear_arith)
    requires
        i % 8 == 0,
        l % 8 == 0,
        0 <= i < l,
    ensures
        i + 8 <= l,
        i % 4 == 0,
{
}

/// A position within a triple splits off its group and offset.
proof fn lemma_div3g(a: int, b: int)
    by (nonlinear_arith)
    requires
        a >= 0,
        0 <= b < 3,
    ensures
        (3 * a + b) / 3 == a,
        (3 * a + b) % 3 == b,
{
}

/// A count within a quad splits off its group and offset.
proof fn lemma_div4g(a: int, b: int)
    by (nonlinear_arith)
    requires
        a >= 0,
        0 <= b,
    ensures
        (4 * a + b) / 4 == a + b / 4,
        (4 * a + b) % 4 == b % 4,
{
}

/// An index below three groups lies in one of them.
proof fn lemma_div_lt3(j: int, a: int)
    by (nonlinear_arith)
    requires
        0 <= j < 3 * a,
    ensures
        0 <= j / 3 < a,
{
}

/// Exact division facts for multiples of four and eight.
proof fn lemma_exact_mul(a: int)
    by (nonlinear_arith)
    requires
        a >= 0,
    ensures
        (4 * a) / 4 == a,
        (3 * a) / 3 == a,
{
}

} // verus!
