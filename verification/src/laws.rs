//! The library's laws: encoding and decoding invert each other, an empty
//! input encodes to an empty text, wrapping inserts only whitespace, and
//! decoding never consults the padding switch.
use vstd::prelude::*;
use vstd::arithmetic::div_mod::lemma_fundamental_div_mod;
use vstd::arithmetic::div_mod::lemma_mod_bound;

use crate::Config;
use crate::LineEnding;
use crate::LineWrap;
use crate::alphabet::CharacterSet;
use crate::alphabet::is_alphabet_byte;
use crate::alphabet::lemma_alphabet_byte_facts;
use crate::alphabet::is_whitespace_byte;
use crate::alphabet::lemma_alphabet_round_trip;
use crate::alphabet::lemma_encode_val_ascii;
use crate::decode::DecodeIssue;
use crate::decode::chunked_prefix_len;
use crate::decode::dec_byte_at;
use crate::decode::decode_spec;
use crate::decode::decoded_len;
use crate::decode::decoded_seq;
use crate::decode::effective_input;
use crate::decode::fast_scan;
use crate::decode::trail_scan;
use crate::encode::enc_char_at;
use crate::encode::encoded_seq;
use crate::encode::full_encoded_len;
use crate::encode::full_encoded_seq;
use crate::encode::pad_len;
use crate::encode::padded_len;
use crate::encode::padded_seq;
use crate::encode::unpadded_len;
use crate::endian::lemma_sixbit_field_bounds;
use crate::line_wrap::ending_seq;
use crate::line_wrap::endings_count;
use crate::line_wrap::lemma_mul_nonneg;
use crate::line_wrap::lemma_wrap_partition;
use crate::line_wrap::lemma_wrapped_id;
use crate::line_wrap::lemma_wrapped_unfold;
use crate::line_wrap::wrapped_seq;
use crate::endian::lemma_sixbit_recombine;
use crate::endian::lemma_tail_recombine1;
use crate::endian::lemma_tail_recombine2;

verus! {

/// A scan over alphabet bytes alone finds nothing to reject.
proof fn lemma_fast_scan_none(cs: CharacterSet, s: Seq<u8>, upto: int, i: int)
    requires
        0 <= i,
        forall|k: int| i <= k < upto ==> is_alphabet_byte(cs, #[trigger] s[k]),
    ensures
        fast_scan(cs, s, upto, i) is None,
    decreases upto - i,
{
    if i < upto && upto <= s.len() {
        lemma_fast_scan_none(cs, s, upto, i + 1);
    }
}

/// A run of `=` at quad positions two and three scans through cleanly.
proof fn lemma_trail_pads(cs: CharacterSet, s: Seq<u8>, i: int, mc: int, ps: Option<int>)
    requires
        0 <= i,
        forall|k: int| i <= k < s.len() ==> #[trigger] s[k] == 61 && k % 4 >= 2,
    ensures
        trail_scan(cs, s, i, mc, ps) == Ok::<int, DecodeIssue>(mc),
    decreases s.len() - i,
{
    if i < s.len() {
        let np: Option<int> = if ps is None {
            Some(i)
        } else {
            ps
        };
        lemma_trail_pads(cs, s, i + 1, mc, np);
    }
}

/// Alphabet bytes followed by well-placed padding scan to their count.
proof fn lemma_trail_morsels(cs: CharacterSet, s: Seq<u8>, i: int, c: int, mc: int)
    requires
        0 <= i <= c <= s.len(),
        forall|k: int| i <= k < c ==> is_alphabet_byte(cs, #[trigger] s[k]),
        forall|k: int| c <= k < s.len() ==> #[trigger] s[k] == 61 && k % 4 >= 2,
    ensures
        trail_scan(cs, s, i, mc, None) == Ok::<int, DecodeIssue>(mc + (c - i)),
    decreases c - i,
{
    if i == c {
        lemma_trail_pads(cs, s, i, mc, None);
    } else {
        lemma_alphabet_byte_facts(cs, s[i]);
        lemma_trail_morsels(cs, s, i + 1, c, mc + 1);
    }
}

/// A count within a quad splits off its group and offset.
proof fn lemma_quad_split(a: int, b: int)
    by (nonlinear_arith)
    requires
        a >= 0,
        0 <= b,
    ensures
        (4 * a + b) / 4 == a + b / 4,
        (4 * a + b) % 4 == b % 4,
{
}

/// Decoding inverts encoding on the unwrapped text, padded or not.
#[verifier::spinoff_prover]
#[verifier::rlimit(100)]
pub proof fn lemma_decode_encode(cs: CharacterSet, s: Seq<u8>, pad: bool)
    ensures
        decode_spec(cs, padded_seq(cs, s, pad)) == Ok::<Seq<u8>, DecodeIssue>(s),
{
    let sn = s.len() as int;
    let q3 = sn / 3;
    let t3 = sn % 3;
    lemma_fundamental_div_mod(sn, 3);
    lemma_mod_bound(sn, 3);
    let u = encoded_seq(cs, s);
    let e = padded_seq(cs, s, pad);
    let c = unpadded_len(sn);
    let p = if pad {
        pad_len(sn)
    } else {
        0int
    };
    let n = e.len() as int;
    assert(n == c + p);
    assert(c == 4 * q3 + (if t3 == 0 {
        0int
    } else if t3 == 1 {
        2int
    } else {
        3int
    }));

    // every character of the unpadded text is in the alphabet, and its
    // reverse value is the 6-bit field it was made from
    assert forall|k: int| 0 <= k < c implies is_alphabet_byte(cs, #[trigger] e[k]) by {
        let g = k / 4;
        let b0 = s[3 * g];
        let b1 = if 3 * g + 1 < sn {
            s[3 * g + 1]
        } else {
            0u8
        };
        let b2 = if 3 * g + 2 < sn {
            s[3 * g + 2]
        } else {
            0u8
        };
        lemma_sixbit_field_bounds(b0, b1, b2);
        lemma_alphabet_round_trip(cs, (b0 >> 2) as int);
        lemma_alphabet_round_trip(cs, (((b0 & 3) << 4) | (b1 >> 4)) as int);
        lemma_alphabet_round_trip(cs, (((b1 & 15) << 2) | (b2 >> 6)) as int);
        lemma_alphabet_round_trip(cs, (b2 & 63) as int);
        assert(e[k] == enc_char_at(cs, s, k));
    }

    // padding characters sit at quad positions two and three
    lemma_fundamental_div_mod(n, 4);
    assert forall|k: int| c <= k < n implies #[trigger] e[k] == 61 && k % 4 >= 2 by {
        assert(e[k] == 61);
        assert(p > 0);
        assert(n % 4 == 0) by {
            if t3 == 1 {
                lemma_quad_split(q3 + 1, 0);
            } else {
                lemma_quad_split(q3 + 1, 0);
            }
        }
        assert(k == n - 1 || k == n - 2);
        assert(k % 4 >= 2) by (nonlinear_arith)
            requires
                n % 4 == 0,
                n == 4 * (n / 4) + n % 4,
                k == n - 1 || k == n - 2,
                k >= 0,
        ;
    }

    // the chunked prefix stops short of the padding
    let l = chunked_prefix_len(n);
    crate::decode::lemma_chunked_prefix(n);
    assert(l <= c) by {
        if p > 0 {
            assert(n % 4 == 0);
            assert(n - l == 8 || n - l == 4) by (nonlinear_arith)
                requires
                    n > 0,
                    n % 4 == 0,
                    n == 8 * (n / 8) + n % 8,
                    n == 4 * (n / 4),
                    0 <= n % 8 < 8,
                    (n % 8 == 0 ==> l == n - 8),
                    (n % 8 != 0 ==> l == n - n % 8),
                    1 <= n - l <= 8,
            ;
        }
    }

    lemma_fast_scan_none(cs, e, l, 0);
    lemma_trail_morsels(cs, e, l, c, 0);
    let mc = c - l;
    assert(mc % 4 == c % 4) by (nonlinear_arith)
        requires
            l % 4 == 0,
            mc == c - l,
            l == 4 * (l / 4),
            c == 4 * (c / 4) + c % 4,
    ;
    assert(c % 4 != 1) by {
        lemma_quad_split(q3, 0);
        lemma_quad_split(q3, 2);
        lemma_quad_split(q3, 3);
    }
    assert(decode_spec(cs, e) == Ok::<Seq<u8>, DecodeIssue>(decoded_seq(cs, e, c)));

    // the decoded bytes are the original input, byte for byte
    assert(decoded_len(c) == sn) by {
        lemma_quad_split(q3, 0);
        lemma_quad_split(q3, 2);
        lemma_quad_split(q3, 3);
    }
    assert forall|j: int| 0 <= j < sn implies decoded_seq(cs, e, c)[j] == s[j] by {
        lemma_quad_split(q3, 0);
        lemma_quad_split(q3, 2);
        lemma_quad_split(q3, 3);
        let q = j / 3;
        let r = j % 3;
        lemma_fundamental_div_mod(j, 3);
        lemma_mod_bound(j, 3);
        assert(0 <= q) by (nonlinear_arith)
            requires
                j == 3 * q + r,
                0 <= r < 3,
                j >= 0,
        ;
        assert(q < q3 || (q == q3 && r < t3)) by (nonlinear_arith)
            requires
                j == 3 * q + r,
                0 <= r < 3,
                sn == 3 * q3 + t3,
                0 <= t3 < 3,
                j < sn,
        ;
        lemma_quad_split(q, 0);
        lemma_quad_split(q, 1);
        lemma_quad_split(q, 2);
        lemma_quad_split(q, 3);
        let b0 = s[3 * q];
        let b1 = if 3 * q + 1 < sn {
            s[3 * q + 1]
        } else {
            0u8
        };
        let b2 = if 3 * q + 2 < sn {
            s[3 * q + 2]
        } else {
            0u8
        };
        lemma_sixbit_field_bounds(b0, b1, b2);
        let f0 = b0 >> 2;
        let f1 = ((b0 & 3) << 4) | (b1 >> 4);
        let f2 = ((b1 & 15) << 2) | (b2 >> 6);
        let f3 = b2 & 63;
        lemma_alphabet_round_trip(cs, f0 as int);
        lemma_alphabet_round_trip(cs, f1 as int);
        lemma_alphabet_round_trip(cs, f2 as int);
        lemma_alphabet_round_trip(cs, f3 as int);
        assert(e[4 * q] == enc_char_at(cs, s, 4 * q));
        assert(e[4 * q + 1] == enc_char_at(cs, s, 4 * q + 1));
        if q < q3 {
            assert(e[4 * q + 2] == enc_char_at(cs, s, 4 * q + 2));
            assert(e[4 * q + 3] == enc_char_at(cs, s, 4 * q + 3));
            lemma_sixbit_recombine(b0, b1, b2, f0, f1, f2, f3);
        } else if t3 == 1 {
            lemma_tail_recombine1(b0, f0, f1);
        } else {
            assert(e[4 * q + 2] == enc_char_at(cs, s, 4 * q + 2));
            lemma_tail_recombine2(b0, b1, f0, f1, f2);
        }
        assert(dec_byte_at(cs, e, c, j) == s[j]);
    }
    assert(decoded_seq(cs, e, c) =~= s);
}

/// Filtering whitespace out of whitespace-free text changes nothing.
proof fn lemma_filter_ws_free(t: Seq<u8>)
    requires
        forall|k: int| 0 <= k < t.len() ==> !is_whitespace_byte(#[trigger] t[k]),
    ensures
        t.filter(|b: u8| !is_whitespace_byte(b)) == t,
    decreases t.len(),
{
    let pred = |b: u8| !is_whitespace_byte(b);
    reveal_with_fuel(Seq::<_>::filter, 2);
    if t.len() == 0 {
        assert(t.filter(pred) =~= t);
    } else {
        lemma_filter_ws_free(t.drop_last());
        assert(pred(t.last()));
        assert(t.filter(pred) == t.drop_last().filter(pred).push(t.last()));
        assert(t.filter(pred) =~= t);
    }
}

/// Filtering whitespace out of pure whitespace leaves nothing.
proof fn lemma_filter_all_ws(t: Seq<u8>)
    requires
        forall|k: int| 0 <= k < t.len() ==> is_whitespace_byte(#[trigger] t[k]),
    ensures
        t.filter(|b: u8| !is_whitespace_byte(b)) == Seq::<u8>::empty(),
    decreases t.len(),
{
    let pred = |b: u8| !is_whitespace_byte(b);
    reveal_with_fuel(Seq::<_>::filter, 2);
    if t.len() == 0 {
        assert(t.filter(pred) =~= Seq::<u8>::empty());
    } else {
        lemma_filter_all_ws(t.drop_last());
        assert(!pred(t.last()));
        assert(t.filter(pred) == t.drop_last().filter(pred));
    }
}

/// Stripping the whitespace out of wrapped content gives the content
/// back: wrapping inserts nothing but line endings, and those are
/// whitespace.
#[verifier::spinoff_prover]
proof fn lemma_strip_wrapped(t: Seq<u8>, w: int, e: LineEnding)
    requires
        w >= 1,
        forall|k: int| 0 <= k < t.len() ==> !is_whitespace_byte(#[trigger] t[k]),
    ensures
        wrapped_seq(t, w, e).filter(|b: u8| !is_whitespace_byte(b)) == t,
    decreases t.len(),
{
    let pred = |b: u8| !is_whitespace_byte(b);
    if t.len() <= w {
        lemma_wrapped_id(t, w, e);
        lemma_filter_ws_free(t);
    } else {
        lemma_wrapped_unfold(t, w, e);
        let head = t.take(w);
        let end = ending_seq(e);
        let rest = wrapped_seq(t.skip(w), w, e);
        Seq::filter_distributes_over_add(head + end, rest, pred);
        Seq::filter_distributes_over_add(head, end, pred);
        lemma_filter_ws_free(head);
        lemma_filter_all_ws(end);
        lemma_strip_wrapped(t.skip(w), w, e);
        assert(wrapped_seq(t, w, e).filter(pred) == head + Seq::<u8>::empty() + t.skip(w));
        assert(head + Seq::<u8>::empty() =~= head);
        assert((head + t.skip(w)).len() == t.len());
        assert forall|k: int| 0 <= k < t.len() implies (head + t.skip(w))[k] == t[k] by {
            if k < w {
                assert((head + t.skip(w))[k] == head[k]);
            } else {
                assert((head + t.skip(w))[k] == t.skip(w)[k - w]);
            }
        }
        assert(head + t.skip(w) =~= t);
    }
}

/// The padded encoding holds no whitespace: alphabet characters and the
/// pad character are all printable.
proof fn lemma_padded_ws_free(cs: CharacterSet, s: Seq<u8>, pad: bool)
    ensures
        forall|k: int|
            0 <= k < padded_seq(cs, s, pad).len() ==> !is_whitespace_byte(
                #[trigger] padded_seq(cs, s, pad)[k],
            ),
{
    let p = padded_seq(cs, s, pad);
    assert forall|k: int| 0 <= k < p.len() implies !is_whitespace_byte(#[trigger] p[k]) by {
        if k < encoded_seq(cs, s).len() {
            assert(p[k] == enc_char_at(cs, s, k));
            let g = k / 4;
            let b0 = s[3 * g];
            let b1 = if 3 * g + 1 < s.len() {
                s[3 * g + 1]
            } else {
                0u8
            };
            let b2 = if 3 * g + 2 < s.len() {
                s[3 * g + 2]
            } else {
                0u8
            };
            lemma_encode_val_ascii(cs, (b0 >> 2) as int);
            lemma_encode_val_ascii(cs, (((b0 & 3) << 4) | (b1 >> 4)) as int);
            lemma_encode_val_ascii(cs, (((b1 & 15) << 2) | (b2 >> 6)) as int);
            lemma_encode_val_ascii(cs, (b2 & 63) as int);
        } else {
            assert(p[k] == 61);
        }
    }
}

/// Law: a decode of an encode returns the original bytes, whatever the
/// character set, the padding switch, and the wrap policy — with the one
/// proviso that wrapped output needs the whitespace-stripping decode,
/// since inserted line endings are not base64 text.
pub proof fn lemma_round_trip(data: Seq<u8>, config: Config)
    requires
        config.wf(),
        config.line_wrap is NoWrap || config.strip_whitespace,
    ensures
        decode_spec(
            config.char_set,
            effective_input(full_encoded_seq(data, config), config),
        ) == Ok::<Seq<u8>, DecodeIssue>(data),
{
    let cs = config.char_set;
    let p = padded_seq(cs, data, config.pad);
    lemma_padded_ws_free(cs, data, config.pad);
    match config.line_wrap {
        LineWrap::NoWrap => {
            if config.strip_whitespace {
                lemma_filter_ws_free(p);
            }
        },
        LineWrap::Wrap(w, end) => {
            lemma_strip_wrapped(p, w as int, end);
        },
    }
    lemma_decode_encode(cs, data, config.pad);
}

/// Law: wrapping inserts only line endings; stripping the whitespace out
/// of wrapped output yields the same character stream the unwrapped
/// configuration produces.
pub proof fn lemma_wrap_adds_only_whitespace(data: Seq<u8>, wrapped: Config, plain: Config)
    requires
        wrapped.wf(),
        plain.wf(),
        wrapped.char_set == plain.char_set,
        wrapped.pad == plain.pad,
        plain.line_wrap is NoWrap,
    ensures
        full_encoded_seq(data, wrapped).filter(|b: u8| !is_whitespace_byte(b))
            == full_encoded_seq(data, plain),
{
    let p = padded_seq(wrapped.char_set, data, wrapped.pad);
    lemma_padded_ws_free(wrapped.char_set, data, wrapped.pad);
    match wrapped.line_wrap {
        LineWrap::NoWrap => {
            lemma_filter_ws_free(p);
        },
        LineWrap::Wrap(w, end) => {
            lemma_strip_wrapped(p, w as int, end);
        },
    }
}

/// Law: the empty input encodes to the empty text under every
/// configuration — no padding and no endings appear.
pub proof fn lemma_encode_empty(config: Config)
    requires
        config.wf(),
    ensures
        full_encoded_seq(Seq::<u8>::empty(), config) == Seq::<u8>::empty(),
{
    let p = padded_seq(config.char_set, Seq::<u8>::empty(), config.pad);
    assert(p =~= Seq::<u8>::empty());
    match config.line_wrap {
        LineWrap::NoWrap => {},
        LineWrap::Wrap(w, end) => {
            assert(endings_count(0, w as int) * end.spec_len() == 0) by (nonlinear_arith)
                requires
                    endings_count(0, w as int) == 0,
            ;
            assert(full_encoded_seq(Seq::<u8>::empty(), config) =~= Seq::<u8>::empty());
        },
    }
}

/// Law: the sizing function tells the truth — the encoded text is
/// exactly as long as the size computed up front, the sole guarantee the
/// buffer-filling path rests on.
pub proof fn lemma_encoded_size_matches(s: Seq<u8>, config: Config)
    requires
        config.wf(),
    ensures
        full_encoded_seq(s, config).len() == full_encoded_len(s.len() as int, config),
{
    let n = s.len() as int;
    lemma_mod_bound(n, 3);
    assert(unpadded_len(n) >= 0) by (nonlinear_arith)
        requires
            n >= 0,
            unpadded_len(n) >= 4 * (n / 3),
            n == 3 * (n / 3) + n % 3,
            0 <= n % 3 < 3,
    ;
    let p = padded_len(n, config.pad);
    match config.line_wrap {
        LineWrap::NoWrap => {},
        LineWrap::Wrap(w, end) => {
            lemma_wrap_partition(p, w as int);
            lemma_mul_nonneg(endings_count(p, w as int), end.spec_len());
        },
    }
}

/// Law: decoding never consults the padding switch; two configurations
/// that agree on character set and whitespace handling decode every
/// input alike.
pub proof fn lemma_decode_ignores_pad(input: Seq<u8>, c1: Config, c2: Config)
    requires
        c1.char_set == c2.char_set,
        c1.strip_whitespace == c2.strip_whitespace,
    ensures
        decode_spec(c1.char_set, effective_input(input, c1)) == decode_spec(
            c2.char_set,
            effective_input(input, c2),
        ),
{
}

} // verus!
