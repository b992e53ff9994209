//! Line-wrap sizing and the in-place reflow used by the encoder.
use vstd::prelude::*;
use vstd::arithmetic::div_mod::lemma_fundamental_div_mod;
use vstd::arithmetic::div_mod::lemma_mod_bound;

use crate::LineEnding;

verus! {

/// Number of lines that receive an ending: every full line, except that
/// when the content divides evenly into full lines the last full line is
/// left without one.
pub open spec fn endings_count(n: int, w: int) -> int
    recommends
        w >= 1,
{
    if n <= w {
        0
    } else if n % w > 0 {
        n / w
    } else {
        n / w - 1
    }
}

/// Length of the final, never-ended line.
pub open spec fn last_line_len(n: int, w: int) -> int
    recommends
        w >= 1,
{
    if n <= w {
        n
    } else if n % w > 0 {
        n % w
    } else {
        w
    }
}

/// Total length once endings of width `elen` are inserted.
pub open spec fn wrapped_total_len(n: int, w: int, elen: int) -> int
    recommends
        w >= 1,
{
    n + endings_count(n, w) * elen
}

/// How the ended lines and the last line partition the content.
pub proof fn lemma_wrap_partition(n: int, w: int)
    requires
        w >= 1,
        0 <= n,
    ensures
        endings_count(n, w) >= 0,
        endings_count(n, w) * w + last_line_len(n, w) == n,
        last_line_len(n, w) >= 0,
        n > w ==> endings_count(n, w) >= 1,
{
    if n > w {
        lemma_fundamental_div_mod(n, w);
        lemma_mod_bound(n, w);
        let q = n / w;
        let r = n % w;
        assert(q >= 1) by (nonlinear_arith)
            requires
                n == w * q + r,
                n > w,
                w >= 1,
                0 <= r < w,
        ;
        if r > 0 {
            assert(q * w + r == n) by (nonlinear_arith)
                requires
                    n == w * q + r,
            ;
        } else {
            assert(q >= 2) by (nonlinear_arith)
                requires
                    n == w * q,
                    n > w,
                    w >= 1,
            ;
            assert((q - 1) * w + w == n) by (nonlinear_arith)
                requires
                    n == w * q,
            ;
        }
    }
}

/// First byte of a line ending.
pub open spec fn ending_first(e: LineEnding) -> u8 {
    match e {
        LineEnding::LF => 10u8,
        LineEnding::CRLF => 13u8,
    }
}

/// The byte at position `k` once `t` is wrapped at width `w`: full lines
/// followed by their endings, then the never-ended last line.
pub open spec fn wrapped_char_at(t: Seq<u8>, w: int, e: LineEnding, k: int) -> u8
    recommends
        w >= 1,
        0 <= k < wrapped_total_len(t.len() as int, w, e.spec_len()),
{
    let elen = e.spec_len();
    let stride = w + elen;
    let ec = endings_count(t.len() as int, w);
    if k < ec * stride {
        let pos = k % stride;
        if pos < w {
            t[(k / stride) * w + pos]
        } else if pos == w {
            ending_first(e)
        } else {
            10u8
        }
    } else {
        t[k - ec * elen]
    }
}

/// `t` wrapped at width `w` with ending `e`.
pub open spec fn wrapped_seq(t: Seq<u8>, w: int, e: LineEnding) -> Seq<u8> {
    Seq::new(
        wrapped_total_len(t.len() as int, w, e.spec_len()) as nat,
        |k: int| wrapped_char_at(t, w, e, k),
    )
}

/// Multiplying both sides of an ordering by a non-negative factor keeps it.
proof fn lemma_mul_le(a: int, b: int, c: int)
    by (nonlinear_arith)
    requires
        a <= b,
        c >= 0,
    ensures
        a * c <= b * c,
{
}

/// One more line adds one more stride.
proof fn lemma_mul_succ(l: int, st: int)
    by (nonlinear_arith)
    ensures
        (l + 1) * st == l * st + st,
{
}

/// Products distribute over the stride's two parts.
proof fn lemma_stride_parts(l: int, w: int, elen: int)
    by (nonlinear_arith)
    ensures
        l * (w + elen) == l * w + l * elen,
{
}

/// An offset within a line recovers its line index and position.
proof fn lemma_stride_split(l: int, st: int, p: int)
    by (nonlinear_arith)
    requires
        st >= 1,
        0 <= p < st,
        l >= 0,
    ensures
        (l * st + p) / st == l,
        (l * st + p) % st == p,
{
}

#[derive(Debug, PartialEq)]
pub struct LineWrapParameters {
    /// Number of lines that need an ending
    pub lines_with_endings: usize,
    /// Length of the last line (which never needs an ending)
    pub last_line_len: usize,
    /// Length of the lines that need an ending (always full lines),
    /// with their endings
    pub total_full_wrapped_lines_len: usize,
    /// Length of all lines, including endings for the ones that need them
    pub total_len: usize,
    /// Length of the line endings only
    pub total_line_endings_len: usize,
}

/// Calculations about how many lines result from wrapping `input_len`
/// bytes at width `line_len`, and how long everything becomes.
/// The last line never gets an ending, even when it is a full line.
pub fn line_wrap_parameters(input_len: usize, line_len: usize, line_ending: LineEnding) -> (r:
    LineWrapParameters)
    requires
        line_len >= 1,
        wrapped_total_len(input_len as int, line_len as int, line_ending.spec_len())
            <= usize::MAX,
    ensures
        r.lines_with_endings == endings_count(input_len as int, line_len as int),
        r.last_line_len == last_line_len(input_len as int, line_len as int),
        r.total_line_endings_len == r.lines_with_endings * line_ending.spec_len(),
        r.total_full_wrapped_lines_len == r.lines_with_endings * (line_len
            + line_ending.spec_len()),
        r.total_len == wrapped_total_len(input_len as int, line_len as int,
            line_ending.spec_len()),
{
    let line_ending_len = line_ending.len();

    if input_len <= line_len {
        // no wrapping needed
        return LineWrapParameters {
            lines_with_endings: 0,
            last_line_len: input_len,
            total_full_wrapped_lines_len: 0,
            total_len: input_len,
            total_line_endings_len: 0,
        };
    }

    proof {
        lemma_wrap_partition(input_len as int, line_len as int);
    }

    // num_lines_with_endings > 0, last_line_length > 0
    let (num_lines_with_endings, last_line_length): (usize, usize) = if input_len % line_len
        > 0 {
        // every full line has an ending since there is a partial line at the end
        (input_len / line_len, input_len % line_len)
    } else {
        // every line is a full line, but no trailing ending;
        // the subtraction cannot underflow since input_len > line_len
        (input_len / line_len - 1, line_len)
    };

    proof {
        let e = num_lines_with_endings as int;
        let w = line_len as int;
        let el = line_ending_len as int;
        assert(e * (w + el) == e * w + e * el) by (nonlinear_arith);
        assert(e * el <= e * (w + el)) by (nonlinear_arith)
            requires
                e >= 0,
                w >= 1,
                el >= 1,
        ;
        assert(w + el <= e * (w + el)) by (nonlinear_arith)
            requires
                e >= 1,
                w >= 1,
                el >= 1,
        ;
    }

    let single_full_line_with_ending_len: usize = line_len + line_ending_len;
    // length of just the full lines with line endings
    let total_full_wrapped_lines_len: usize = num_lines_with_endings
        * single_full_line_with_ending_len;
    // all lines with appropriate endings, including the last line
    let total_all_wrapped_len: usize = total_full_wrapped_lines_len + last_line_length;
    let total_line_endings_len: usize = num_lines_with_endings * line_ending_len;

    LineWrapParameters {
        lines_with_endings: num_lines_with_endings,
        last_line_len: last_line_length,
        total_full_wrapped_lines_len,
        total_len: total_all_wrapped_len,
        total_line_endings_len,
    }
}

/// The bytes of one line ending.
pub open spec fn ending_seq(e: LineEnding) -> Seq<u8> {
    match e {
        LineEnding::LF => seq![10u8],
        LineEnding::CRLF => seq![13u8, 10u8],
    }
}

/// Content no longer than one line is left alone.
pub proof fn lemma_wrapped_id(t: Seq<u8>, w: int, e: LineEnding)
    requires
        w >= 1,
        t.len() <= w,
    ensures
        wrapped_seq(t, w, e) == t,
{
    assert(wrapped_seq(t, w, e) =~= t);
}

/// Stepping past one stride subtracts one line.
proof fn lemma_stride_shift(k: int, st: int)
    by (nonlinear_arith)
    requires
        st >= 1,
        k >= st,
    ensures
        (k - st) / st == k / st - 1,
        (k - st) % st == k % st,
{
}

/// Wrapping longer content is one full line, one ending, and the wrap of
/// the rest.
#[verifier::spinoff_prover]
#[verifier::rlimit(100)]
pub proof fn lemma_wrapped_unfold(t: Seq<u8>, w: int, e: LineEnding)
    requires
        w >= 1,
        t.len() > w,
    ensures
        wrapped_seq(t, w, e) == t.take(w) + ending_seq(e) + wrapped_seq(t.skip(w), w, e),
{
    let n = t.len() as int;
    let elen = e.spec_len();
    let stride = w + elen;
    let ec = endings_count(n, w);
    let rest = t.skip(w);
    let ec2 = endings_count(n - w, w);
    lemma_wrap_partition(n, w);
    lemma_wrap_partition(n - w, w);
    lemma_stride_parts(ec, w, elen);
    lemma_stride_parts(ec2, w, elen);
    lemma_fundamental_div_mod(n, w);
    lemma_fundamental_div_mod(n - w, w);
    lemma_mod_bound(n, w);
    lemma_mod_bound(n - w, w);
    assert(ec == ec2 + 1) by (nonlinear_arith)
        requires
            w >= 1,
            n > w,
            n == w * (n / w) + n % w,
            n - w == w * ((n - w) / w) + (n - w) % w,
            0 <= n % w < w,
            0 <= (n - w) % w < w,
            ec == endings_count(n, w),
            ec2 == endings_count(n - w, w),
            ec == (if n % w > 0 {
                n / w
            } else {
                n / w - 1
            }),
            ec2 == (if n - w <= w {
                0int
            } else if (n - w) % w > 0 {
                (n - w) / w
            } else {
                (n - w) / w - 1
            }),
    ;
    let lhs = wrapped_seq(t, w, e);
    let rhs = t.take(w) + ending_seq(e) + wrapped_seq(rest, w, e);
    assert(lhs.len() == rhs.len()) by {
        lemma_mul_succ(ec2, elen);
        lemma_mul_nonneg(ec, elen);
        lemma_mul_nonneg(ec2, elen);
    }
    assert forall|k: int| 0 <= k < lhs.len() implies lhs[k] == rhs[k] by {
        lemma_mul_succ(ec2, elen);
        lemma_mul_succ(ec2, stride);
        lemma_mul_nonneg(ec2, stride);
        lemma_mul_nonneg(ec2, elen);
        assert(0 * stride == 0 && 0 * w == 0 && 1 * stride == stride) by (nonlinear_arith);
        lemma_mul_le(1, ec, stride);
        if k < stride {
            lemma_stride_split(0, stride, k);
            assert(k / stride == 0 && k % stride == k);
            assert(k < ec * stride);
            if k < w {
                assert(lhs[k] == t[0 * w + k]);
                assert(lhs[k] == t[k]);
            } else {
                assert(lhs[k] == ending_seq(e)[k - w]);
            }
        } else {
            lemma_stride_shift(k, stride);
            let k2 = k - stride;
            assert(rhs[k] == wrapped_char_at(rest, w, e, k2));
            if k < ec * stride {
                let pos = k % stride;
                let li = k / stride;
                lemma_fundamental_div_mod(k, stride);
                lemma_mod_bound(k, stride);
                assert(li >= 1) by (nonlinear_arith)
                    requires
                        k == stride * li + pos,
                        0 <= pos < stride,
                        k >= stride,
                        stride >= 1,
                ;
                assert(k2 < ec2 * stride);
                assert(k2 / stride == li - 1 && k2 % stride == pos);
                if pos < w {
                    assert((li - 1) * w == li * w - w) by (nonlinear_arith);
                    assert(rest[(li - 1) * w + pos] == t[li * w + pos]) by {
                        lemma_mul_nonneg(li - 1, w);
                        assert(0 <= (li - 1) * w + pos);
                        assert(li * w + pos < n) by (nonlinear_arith)
                            requires
                                k == stride * li + pos,
                                k < ec * stride,
                                stride == w + elen,
                                ec * w + last_line_len(n, w) == n,
                                last_line_len(n, w) >= 1,
                                0 <= pos < w,
                                elen >= 1,
                                li >= 1,
                                w >= 1,
                                ec >= 1,
                        ;
                    }
                }
            } else {
                assert(k2 >= ec2 * stride);
                assert(lhs[k] == t[k - ec * elen]);
                assert(rhs[k] == rest[k2 - ec2 * elen]);
                assert(k2 - ec2 * elen == k - ec * elen - w);
                assert(t.skip(w)[k - ec * elen - w] == t[k - ec * elen]);
            }
        }
    }
    assert(lhs =~= rhs);
}
pub proof fn lemma_mul_nonneg(a: int, b: int)
    by (nonlinear_arith)
    requires
        a >= 0,
        b >= 0,
    ensures
        a * b >= 0,
{
}

/// Every byte of the wrapped view is either a content byte or one of the
/// two line-ending bytes.
pub proof fn lemma_wrapped_char_cases(t: Seq<u8>, w: int, e: LineEnding, k: int)
    requires
        w >= 1,
        0 <= k < wrapped_total_len(t.len() as int, w, e.spec_len()),
    ensures
        wrapped_char_at(t, w, e, k) == 10 || wrapped_char_at(t, w, e, k) == 13 || exists|i: int|
            0 <= i < t.len() && wrapped_char_at(t, w, e, k) == t[i],
{
    let n = t.len() as int;
    let elen = e.spec_len();
    let stride = w + elen;
    let ec = endings_count(n, w);
    lemma_wrap_partition(n, w);
    lemma_stride_parts(ec, w, elen);
    lemma_mul_nonneg(ec, w);
    if k < ec * stride {
        lemma_fundamental_div_mod(k, stride);
        lemma_mod_bound(k, stride);
        let l = k / stride;
        let pos = k % stride;
        assert(0 <= l < ec) by (nonlinear_arith)
            requires
                k == stride * l + pos,
                0 <= pos < stride,
                0 <= k < ec * stride,
                stride >= 1,
        ;
        if pos < w {
            lemma_mul_succ(l, w);
            lemma_mul_le(l + 1, ec, w);
            lemma_mul_nonneg(l, w);
            assert(0 <= l * w + pos < n);
            assert(wrapped_char_at(t, w, e, k) == t[l * w + pos]);
        }
    } else {
        assert(0 <= k - ec * elen < n);
    }
}

/// Insert line endings after each complete line (except the last, even if
/// complete), in place, working from the last line toward the first: a
/// destination range always sits ahead of its source, so a forward order
/// would overwrite bytes that have not moved yet.
/// The buffer's first `input_len` bytes are the content, and the buffer is
/// already large enough for the wrapped total; bytes past that total stay
/// as they were. Returns the number of line ending bytes added.
#[verifier::loop_isolation(false)]
#[verifier::spinoff_prover]
#[verifier::rlimit(100)]
pub fn line_wrap(
    encoded_buf: &mut Vec<u8>,
    input_len: usize,
    line_len: usize,
    line_ending: LineEnding,
) -> (r: usize)
    requires
        line_len >= 1,
        input_len <= old(encoded_buf)@.len(),
        wrapped_total_len(input_len as int, line_len as int, line_ending.spec_len()) <= old(
            encoded_buf,
        )@.len(),
    ensures
        final(encoded_buf)@ == wrapped_seq(
            old(encoded_buf)@.subrange(0, input_len as int),
            line_len as int,
            line_ending,
        ) + old(encoded_buf)@.subrange(
            wrapped_total_len(input_len as int, line_len as int, line_ending.spec_len()),
            old(encoded_buf)@.len() as int,
        ),
        r == endings_count(input_len as int, line_len as int) * line_ending.spec_len(),
{
    let ghost orig = old(encoded_buf)@;
    let ghost content = orig.subrange(0, input_len as int);
    let ghost w = line_len as int;
    let ghost elen = line_ending.spec_len();
    let ghost stride = w + elen;
    let ghost ec = endings_count(input_len as int, w);
    let ghost total = wrapped_total_len(input_len as int, w, elen);

    let buflen = encoded_buf.len();
    let line_ending_len = line_ending.len();
    let params = line_wrap_parameters(input_len, line_len, line_ending);
    proof {
        lemma_wrap_partition(input_len as int, w);
        lemma_stride_parts(ec, w, elen);
    }

    // move the last line, partial or full, by itself: it gets no ending
    let last_line_start = params.lines_with_endings * line_len;
    let new_line_start = params.total_full_wrapped_lines_len;
    let ghost src1 = last_line_start as int;
    let ghost dest1 = new_line_start as int;
    let mut j = params.last_line_len;
    while j > 0
        invariant
            j <= params.last_line_len,
            encoded_buf@.len() == buflen,
            forall|m: int|
                0 <= m < buflen ==> encoded_buf@[m] == (if dest1 + j <= m < dest1
                    + params.last_line_len {
                    orig[src1 + (m - dest1)]
                } else {
                    orig[m]
                }),
        decreases j,
    {
        j -= 1;
        let tmp = encoded_buf[last_line_start + j];
        encoded_buf[new_line_start + j] = tmp;
    }

    proof {
        assert forall|m: int| dest1 <= m < total implies encoded_buf@[m] == wrapped_char_at(
            content,
            w,
            line_ending,
            m,
        ) by {
            assert(encoded_buf@[m] == orig[src1 + (m - dest1)]);
            assert(src1 + (m - dest1) == m - ec * elen);
        }
    }

    // the full lines, from the last toward the first
    let mut lb = params.lines_with_endings;
    while lb > 0
        invariant
            lb <= params.lines_with_endings,
            encoded_buf@.len() == buflen,
            forall|m: int| 0 <= m < lb * stride ==> #[trigger] encoded_buf@[m] == orig[m],
            forall|m: int|
                lb * stride <= m < total ==> #[trigger] encoded_buf@[m] == wrapped_char_at(
                    content,
                    w,
                    line_ending,
                    m,
                ),
            forall|m: int| total <= m < buflen ==> #[trigger] encoded_buf@[m] == orig[m],
        decreases lb,
    {
        lb -= 1;
        proof {
            lemma_mul_le(lb + 1, ec, stride);
            lemma_mul_le(lb as int, ec, stride);
            lemma_mul_le(lb as int, ec, w);
            lemma_mul_le(lb as int, ec, elen);
            lemma_mul_le(lb + 1, ec, w);
            lemma_mul_succ(lb as int, stride);
            lemma_mul_succ(lb as int, w);
            lemma_stride_parts(lb as int, w, elen);
            lemma_stride_parts(lb + 1, w, elen);
        }
        let src = lb * line_len;
        let dest = src + lb * line_ending_len;
        let ghost srcg = src as int;
        let ghost destg = dest as int;
        let mut j = line_len;
        while j > 0
            invariant
                j <= line_len,
                encoded_buf@.len() == buflen,
                forall|m: int|
                    0 <= m < buflen ==> encoded_buf@[m] == (if destg + j <= m < destg + w {
                        orig[srcg + (m - destg)]
                    } else if (lb + 1) * stride <= m < total {
                        wrapped_char_at(content, w, line_ending, m)
                    } else {
                        orig[m]
                    }),
            decreases j,
        {
            j -= 1;
            let tmp = encoded_buf[src + j];
            encoded_buf[dest + j] = tmp;
        }
        match line_ending {
            LineEnding::LF => {
                encoded_buf[dest + line_len] = 10;
            },
            LineEnding::CRLF => {
                encoded_buf[dest + line_len] = 13;
                let second = dest + line_len + 1;
                encoded_buf[second] = 10;
            },
        }
        proof {
            assert forall|m: int| lb * stride <= m < total implies encoded_buf@[m]
                == wrapped_char_at(content, w, line_ending, m) by {
                if m < (lb + 1) * stride {
                    let pos = m - lb * stride;
                    lemma_stride_split(lb as int, stride, pos);
                    assert(m / stride == lb && m % stride == pos);
                    assert(m < ec * stride);
                    if pos < w {
                        assert(encoded_buf@[m] == orig[srcg + pos]);
                        assert(lb * w + pos < ec * w);
                    }
                }
            }
        }
    }

    proof {
        assert(lb == 0);
        assert(lb * stride == 0) by (nonlinear_arith)
            requires
                lb == 0,
        ;
        assert(forall|m: int|
            0 <= m < total ==> #[trigger] encoded_buf@[m] == wrapped_char_at(
                content,
                w,
                line_ending,
                m,
            ));
        let ws = wrapped_seq(content, w, line_ending);
        let tail = orig.subrange(total, buflen as int);
        assert(ws.len() == total);
        assert forall|m: int| 0 <= m < buflen implies encoded_buf@[m] == (ws + tail)[m] by {
            if m < total {
                assert(encoded_buf@[m] == wrapped_char_at(content, w, line_ending, m));
                assert(ws[m] == wrapped_char_at(content, w, line_ending, m));
                assert((ws + tail)[m] == ws[m]);
            } else {
                assert(encoded_buf@[m] == orig[m]);
                assert((ws + tail)[m] == tail[m - total]);
                assert(tail[m - total] == orig[m]);
            }
        }
        assert(encoded_buf@ =~= ws + tail);
    }

    params.total_line_endings_len
}

} // verus!
