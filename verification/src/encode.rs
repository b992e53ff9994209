//! The encoder core: unpadded base64 text, padding, exact output sizing.
use vstd::prelude::*;
use vstd::arithmetic::div_mod::lemma_fundamental_div_mod;

use crate::Config;
use crate::LineEnding;
use crate::LineWrap;
use crate::alphabet::CharacterSet;
use crate::alphabet::encode_val;
use crate::alphabet::encode_value;
use crate::alphabet::lemma_encode_val_ascii;
use crate::endian::lemma_be_u64_sixbit_fields;
use crate::endian::lemma_sixbit_field_bounds;
use crate::endian::read_u64_be;
use crate::line_wrap::lemma_mul_nonneg;
use crate::line_wrap::lemma_wrap_partition;
use crate::line_wrap::lemma_wrapped_char_cases;
use crate::line_wrap::line_wrap;
use crate::line_wrap::line_wrap_parameters;
use crate::line_wrap::wrapped_seq;
use crate::line_wrap::wrapped_total_len;

verus! {

/// Length of the unpadded encoding of `n` input bytes:
/// four characters per full triple, two or three for a remainder.
pub open spec fn unpadded_len(n: int) -> int
    recommends
        n >= 0,
{
    4 * (n / 3) + (if n % 3 == 0 {
        0int
    } else if n % 3 == 1 {
        2int
    } else {
        3int
    })
}

/// Number of `=` characters that padding appends after `n` input bytes.
pub open spec fn pad_len(n: int) -> int
    recommends
        n >= 0,
{
    if n % 3 == 0 {
        0int
    } else {
        3 - n % 3
    }
}

/// The character at position `k` of the unpadded encoding of `s`.
pub open spec fn enc_char_at(cs: CharacterSet, s: Seq<u8>, k: int) -> u8
    recommends
        0 <= k < unpadded_len(s.len() as int),
{
    let g = k / 4;
    let b0 = s[3 * g];
    let b1 = if 3 * g + 1 < s.len() {
        s[3 * g + 1]
    } else {
        0u8
    };
    let b2 = if 3 * g + 2 < s.len() {
        s[3 * g + 2]
    } else {
        0u8
    };
    if k % 4 == 0 {
        encode_val(cs, (b0 >> 2) as int)
    } else if k % 4 == 1 {
        encode_val(cs, (((b0 & 3) << 4) | (b1 >> 4)) as int)
    } else if k % 4 == 2 {
        encode_val(cs, (((b1 & 15) << 2) | (b2 >> 6)) as int)
    } else {
        encode_val(cs, (b2 & 63) as int)
    }
}

/// The unpadded encoding of `s`.
pub open spec fn encoded_seq(cs: CharacterSet, s: Seq<u8>) -> Seq<u8> {
    Seq::new(unpadded_len(s.len() as int) as nat, |k: int| enc_char_at(cs, s, k))
}

/// The encoding of `s`, with padding when `pad` asks for it.
pub open spec fn padded_seq(cs: CharacterSet, s: Seq<u8>, pad: bool) -> Seq<u8> {
    if pad {
        encoded_seq(cs, s) + Seq::new(pad_len(s.len() as int) as nat, |k: int| 61u8)
    } else {
        encoded_seq(cs, s)
    }
}

/// Length of the encoding of `n` bytes, with padding when `pad` asks for it.
pub open spec fn padded_len(n: int, pad: bool) -> int
    recommends
        n >= 0,
{
    unpadded_len(n) + if pad {
        pad_len(n)
    } else {
        0int
    }
}

/// Full encoded length of `n` input bytes under `config`: padding and
/// line-wrap expansion included.
pub open spec fn full_encoded_len(n: int, config: Config) -> int
    recommends
        n >= 0,
        config.wf(),
{
    match config.line_wrap {
        LineWrap::NoWrap => padded_len(n, config.pad),
        LineWrap::Wrap(w, end) => wrapped_total_len(
            padded_len(n, config.pad),
            w as int,
            end.spec_len(),
        ),
    }
}

/// The full encoded text of `s` under `config`.
pub open spec fn full_encoded_seq(s: Seq<u8>, config: Config) -> Seq<u8> {
    let p = padded_seq(config.char_set, s, config.pad);
    match config.line_wrap {
        LineWrap::NoWrap => p,
        LineWrap::Wrap(w, end) => wrapped_seq(p, w as int, end),
    }
}

/// Every size an encode of `n` bytes computes fits in `usize`; outside
/// this bound an encode request is fatal, never silently truncated.
pub open spec fn encodable(n: int, config: Config) -> bool {
    padded_len(n, config.pad) <= usize::MAX && full_encoded_len(n, config) <= usize::MAX
}

/// Every byte of a fully encoded text is ASCII.
pub proof fn lemma_full_encoded_ascii(s: Seq<u8>, config: Config)
    requires
        config.wf(),
    ensures
        forall|k: int|
            0 <= k < full_encoded_seq(s, config).len() ==> full_encoded_seq(s, config)[k]
                < 128,
{
    let p = padded_seq(config.char_set, s, config.pad);
    assert forall|k: int| 0 <= k < p.len() implies p[k] < 128 by {
        if k < encoded_seq(config.char_set, s).len() {
            lemma_encode_val_ascii(config.char_set, 0);
            assert(p[k] == enc_char_at(config.char_set, s, k));
            let g = k / 4;
            let b0 = s[3 * g];
            let b1 = if 3 * g + 1 < s.len() {
                s[3 * g + 1]
            } else {
                0u8
            };
            let b2 = if 3 * g + 2 < s.len() {
                s[3 * g + 2]
            } else {
                0u8
            };
            lemma_encode_val_ascii(config.char_set, (b0 >> 2) as int);
            lemma_encode_val_ascii(config.char_set, (((b0 & 3) << 4) | (b1 >> 4)) as int);
            lemma_encode_val_ascii(config.char_set, (((b1 & 15) << 2) | (b2 >> 6)) as int);
            lemma_encode_val_ascii(config.char_set, (b2 & 63) as int);
        }
    }
    match config.line_wrap {
        LineWrap::NoWrap => {},
        LineWrap::Wrap(w, end) => {
            lemma_wrap_partition(p.len() as int, w as int);
            lemma_mul_nonneg(
                crate::line_wrap::endings_count(p.len() as int, w as int),
                end.spec_len(),
            );
            assert forall|k: int|
                0 <= k < full_encoded_seq(s, config).len() implies full_encoded_seq(s, config)[k]
                < 128 by {
                lemma_wrapped_char_cases(p, w as int, end, k);
            }
        },
    }
}

/// A quad position splits off its group index and offset.
proof fn lemma_div4(q: int, j: int)
    by (nonlinear_arith)
    requires
        0 <= j < 4,
    ensures
        (4 * q + j) / 4 == q,
        (4 * q + j) % 4 == j,
{
}

/// Division by three is exact on multiples of three.
proof fn lemma_div3(q: int)
    by (nonlinear_arith)
    ensures
        (3 * q) / 3 == q,
        (3 * q) % 3 == 0,
{
}

/// Encode input bytes to base64 bytes. Does not pad or line wrap.
pub fn encode_unpadded(input: &[u8], cs: CharacterSet) -> (r: Vec<u8>)
    ensures
        r@ == encoded_seq(cs, input@),
{
    let ghost s = input@;
    let len = input.len();
    let mut out: Vec<u8> = Vec::new();
    let mut i: usize = 0;

    // wide path: one eight-byte load yields eight output characters that
    // cover six input bytes; the trailing two loaded bytes are read again
    // on the next iteration
    while len - i >= 8
        invariant
            i <= len,
            i % 3 == 0,
            len == s.len(),
            s == input@,
            3 * out@.len() == 4 * i,
            forall|k: int| 0 <= k < out@.len() ==> out@[k] == enc_char_at(cs, s, k),
        decreases len - i,
    {
        let ghost q = i as int / 3;
        proof {
            lemma_fundamental_div_mod(i as int, 3);
        }
        let c = read_u64_be(input, i);
        proof {
            lemma_be_u64_sixbit_fields(
                c,
                s[i as int],
                s[i + 1],
                s[i + 2],
                s[i + 3],
                s[i + 4],
                s[i + 5],
                s[i + 6],
                s[i + 7],
            );
            lemma_div4(q, 0);
            lemma_div4(q, 1);
            lemma_div4(q, 2);
            lemma_div4(q, 3);
            lemma_div4(q + 1, 0);
            lemma_div4(q + 1, 1);
            lemma_div4(q + 1, 2);
            lemma_div4(q + 1, 3);
            lemma_div3(q + 2);
        }
        out.push(encode_value(cs, ((c >> 58) & 0x3F) as u8));
        out.push(encode_value(cs, ((c >> 52) & 0x3F) as u8));
        out.push(encode_value(cs, ((c >> 46) & 0x3F) as u8));
        out.push(encode_value(cs, ((c >> 40) & 0x3F) as u8));
        out.push(encode_value(cs, ((c >> 34) & 0x3F) as u8));
        out.push(encode_value(cs, ((c >> 28) & 0x3F) as u8));
        out.push(encode_value(cs, ((c >> 22) & 0x3F) as u8));
        out.push(encode_value(cs, ((c >> 16) & 0x3F) as u8));
        i = i + 6;
        assert(forall|k: int|
            0 <= k < out@.len() ==> out@[k] == enc_char_at(cs, s, k));
    }

    // scalar path: three bytes in, four characters out
    let rem = len % 3;
    let end_full = len - rem;
    while i < end_full
        invariant
            i <= end_full,
            end_full <= len,
            i % 3 == 0,
            end_full % 3 == 0,
            rem == len % 3,
            end_full == len - rem,
            len == s.len(),
            s == input@,
            3 * out@.len() == 4 * i,
            forall|k: int| 0 <= k < out@.len() ==> out@[k] == enc_char_at(cs, s, k),
        decreases end_full - i,
    {
        let ghost q = i as int / 3;
        proof {
            lemma_fundamental_div_mod(i as int, 3);
            lemma_fundamental_div_mod(end_full as int, 3);
            assert(i + 3 <= end_full) by (nonlinear_arith)
                requires
                    i < end_full,
                    i % 3 == 0,
                    end_full % 3 == 0,
                    0 <= i,
                    0 <= end_full,
            ;
            lemma_div4(q, 0);
            lemma_div4(q, 1);
            lemma_div4(q, 2);
            lemma_div4(q, 3);
            lemma_div3(q + 1);
        }
        let b0 = input[i];
        let b1 = input[i + 1];
        let b2 = input[i + 2];
        proof {
            lemma_sixbit_field_bounds(b0, b1, b2);
        }
        out.push(encode_value(cs, b0 >> 2));
        out.push(encode_value(cs, ((b0 & 3) << 4) | (b1 >> 4)));
        out.push(encode_value(cs, ((b1 & 15) << 2) | (b2 >> 6)));
        out.push(encode_value(cs, b2 & 63));
        i = i + 3;
    }

    // remainder: one or two bytes become two or three characters
    let ghost q = i as int / 3;
    proof {
        lemma_fundamental_div_mod(i as int, 3);
        lemma_fundamental_div_mod(len as int, 3);
        lemma_div4(q, 0);
        lemma_div4(q, 1);
        lemma_div4(q, 2);
    }
    if rem == 2 {
        let b0 = input[i];
        let b1 = input[i + 1];
        proof {
            lemma_sixbit_field_bounds(b0, b1, 0);
        }
        out.push(encode_value(cs, b0 >> 2));
        out.push(encode_value(cs, ((b0 & 3) << 4) | (b1 >> 4)));
        out.push(encode_value(cs, (b1 & 15) << 2));
    } else if rem == 1 {
        let b0 = input[i];
        proof {
            lemma_sixbit_field_bounds(b0, 0, 0);
        }
        out.push(encode_value(cs, b0 >> 2));
        out.push(encode_value(cs, (b0 & 3) << 4));
    }

    proof {
        assert(out@ =~= encoded_seq(cs, s));
    }
    out
}

/// Append padding characters for an input of `input_len` bytes.
/// Returns how many were written.
pub fn add_padding(input_len: usize, out: &mut Vec<u8>) -> (count: usize)
    ensures
        final(out)@ == old(out)@ + Seq::new(pad_len(input_len as int) as nat, |k: int| 61u8),
        count == pad_len(input_len as int),
{
    let rem = input_len % 3;
    let to_write: usize = (3 - rem) % 3;
    let mut bytes_written: usize = 0;
    while bytes_written < to_write
        invariant
            bytes_written <= to_write,
            to_write <= 2,
            out@.len() == old(out)@.len() + bytes_written,
            out@.subrange(0, old(out)@.len() as int) == old(out)@,
            forall|k: int|
                old(out)@.len() <= k < out@.len() ==> out@[k] == 61u8,
        decreases to_write - bytes_written,
    {
        out.push(0x3d);
        bytes_written += 1;
        proof {
            assert(out@.subrange(0, old(out)@.len() as int) =~= old(out)@);
        }
    }
    proof {
        assert(out@ =~= old(out)@ + Seq::new(pad_len(input_len as int) as nat, |k: int| 61u8));
    }
    bytes_written
}

/// Calculate the base64 encoded size of `bytes_len` input bytes, padding
/// and line wrap included. `None` reports that the unwrapped size
/// overflows `usize`; callers treat that as a fatal request, never as a
/// truncated length.
pub fn encoded_size(bytes_len: usize, config: &Config) -> (r: Option<usize>)
    requires
        config.wf(),
        padded_len(bytes_len as int, config.pad) <= usize::MAX ==> full_encoded_len(
            bytes_len as int,
            *config,
        ) <= usize::MAX,
    ensures
        r is Some <==> padded_len(bytes_len as int, config.pad) <= usize::MAX,
        r matches Some(n) ==> n == full_encoded_len(bytes_len as int, *config),
{
    let rem = bytes_len % 3;
    let complete_input_chunks = bytes_len / 3;
    let complete_chunk_output = complete_input_chunks.checked_mul(4);

    let encoded_len_no_wrap: Option<usize> = if rem > 0 {
        if config.pad {
            match complete_chunk_output {
                Some(c) => c.checked_add(4),
                None => None,
            }
        } else {
            let encoded_rem: usize = if rem == 1 {
                2
            } else {
                3
            };
            match complete_chunk_output {
                Some(c) => c.checked_add(encoded_rem),
                None => None,
            }
        }
    } else {
        complete_chunk_output
    };

    match encoded_len_no_wrap {
        Some(e) => match config.line_wrap {
            LineWrap::NoWrap => Some(e),
            LineWrap::Wrap(line_len, line_ending) => {
                let params = line_wrap_parameters(e, line_len, line_ending);
                Some(params.total_len)
            },
        },
        None => None,
    }
}

/// Encode `input` into a fresh byte buffer: unpadded text, then padding,
/// then the in-place line reflow, exactly as the configuration asks.
pub fn encode_bytes(input: &[u8], config: Config) -> (r: Vec<u8>)
    requires
        config.wf(),
        encodable(input@.len() as int, config),
    ensures
        r@ == full_encoded_seq(input@, config),
{
    let mut buf = encode_unpadded(input, config.char_set);
    if config.pad {
        add_padding(input.len(), &mut buf);
    }
    let ghost padded = padded_seq(config.char_set, input@, config.pad);
    proof {
        assert(buf@ =~= padded);
    }
    match config.line_wrap {
        LineWrap::NoWrap => buf,
        LineWrap::Wrap(line_len, line_ending) => {
            let wrappable = buf.len();
            proof {
                lemma_wrap_partition(wrappable as int, line_len as int);
                lemma_mul_nonneg(
                    crate::line_wrap::endings_count(wrappable as int, line_len as int),
                    line_ending.spec_len(),
                );
            }
            let params = line_wrap_parameters(wrappable, line_len, line_ending);
            let total = params.total_len;
            buf.resize(total, 0);
            proof {
                assert(buf@.subrange(0, wrappable as int) =~= padded);
            }
            line_wrap(&mut buf, wrappable, line_len, line_ending);
            proof {
                assert(buf@ =~= wrapped_seq(padded, line_len as int, line_ending));
            }
            buf
        },
    }
}

} // verus!
