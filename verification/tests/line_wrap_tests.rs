use base64::LineEnding;
use base64::LineWrapParameters;
use base64::line_wrap;
use base64::line_wrap_parameters;

use rand::Rng;

fn do_line_wrap(buf: &mut Vec<u8>, line_len: usize, line_ending: LineEnding) -> usize {
    // a 3x inflation is enough for the worst case: line length 1, crlf ending
    let orig_len = buf.len();
    buf.resize(orig_len * 3, 0);

    let bytes_written = line_wrap(buf, orig_len, line_len, line_ending);

    buf.truncate(orig_len + bytes_written);

    bytes_written
}

#[test]
fn line_params_perfect_multiple_of_line_length_lf() {
    let params = line_wrap_parameters(100, 20, LineEnding::LF);

    assert_eq!(
        LineWrapParameters {
            lines_with_endings: 4,
            last_line_len: 20,
            total_full_wrapped_lines_len: 84,
            total_len: 104,
            total_line_endings_len: 4
        },
        params
    );
}

#[test]
fn line_params_partial_last_line_crlf() {
    let params = line_wrap_parameters(103, 20, LineEnding::CRLF);

    assert_eq!(
        LineWrapParameters {
            lines_with_endings: 5,
            last_line_len: 3,
            total_full_wrapped_lines_len: 110,
            total_len: 113,
            total_line_endings_len: 10
        },
        params
    );
}

#[test]
fn line_params_line_len_1_crlf() {
    let params = line_wrap_parameters(100, 1, LineEnding::CRLF);

    assert_eq!(
        LineWrapParameters {
            lines_with_endings: 99,
            last_line_len: 1,
            total_full_wrapped_lines_len: 99 * 3,
            total_len: 99 * 3 + 1,
            total_line_endings_len: 99 * 2
        },
        params
    );
}

#[test]
fn line_params_line_len_longer_than_input_crlf() {
    let params = line_wrap_parameters(100, 200, LineEnding::CRLF);

    assert_eq!(
        LineWrapParameters {
            lines_with_endings: 0,
            last_line_len: 100,
            total_full_wrapped_lines_len: 0,
            total_len: 100,
            total_line_endings_len: 0
        },
        params
    );
}

#[test]
fn line_params_line_len_same_as_input_crlf() {
    let params = line_wrap_parameters(100, 100, LineEnding::CRLF);

    assert_eq!(
        LineWrapParameters {
            lines_with_endings: 0,
            last_line_len: 100,
            total_full_wrapped_lines_len: 0,
            total_len: 100,
            total_line_endings_len: 0
        },
        params
    );
}

#[test]
fn line_wrap_length_1_lf() {
    let mut buf = vec![0x1, 0x2, 0x3, 0x4];

    do_line_wrap(&mut buf, 1, LineEnding::LF);

    assert_eq!(vec![0x1, 0xA, 0x2, 0xA, 0x3, 0xA, 0x4], buf);
}

#[test]
fn line_wrap_length_1_crlf() {
    let mut buf = vec![0x1, 0x2, 0x3, 0x4];

    do_line_wrap(&mut buf, 1, LineEnding::CRLF);

    assert_eq!(vec![0x1, 0xD, 0xA, 0x2, 0xD, 0xA, 0x3, 0xD, 0xA, 0x4], buf);
}

#[test]
fn line_wrap_length_2_lf_full_lines() {
    let mut buf = vec![0x1, 0x2, 0x3, 0x4];

    do_line_wrap(&mut buf, 2, LineEnding::LF);

    assert_eq!(vec![0x1, 0x2, 0xA, 0x3, 0x4], buf);
}

#[test]
fn line_wrap_length_2_crlf_full_lines() {
    let mut buf = vec![0x1, 0x2, 0x3, 0x4];

    do_line_wrap(&mut buf, 2, LineEnding::CRLF);

    assert_eq!(vec![0x1, 0x2, 0xD, 0xA, 0x3, 0x4], buf);
}

#[test]
fn line_wrap_length_2_lf_partial_line() {
    let mut buf = vec![0x1, 0x2, 0x3, 0x4, 0x5];

    do_line_wrap(&mut buf, 2, LineEnding::LF);

    assert_eq!(vec![0x1, 0x2, 0xA, 0x3, 0x4, 0xA, 0x5], buf);
}

#[test]
fn line_wrap_length_2_crlf_partial_line() {
    let mut buf = vec![0x1, 0x2, 0x3, 0x4, 0x5];

    do_line_wrap(&mut buf, 2, LineEnding::CRLF);

    assert_eq!(vec![0x1, 0x2, 0xD, 0xA, 0x3, 0x4, 0xD, 0xA, 0x5], buf);
}

#[test]
fn line_wrap_random() {
    let mut buf: Vec<u8> = Vec::new();
    let mut rng = rand::thread_rng();

    for _ in 0..10_000 {
        buf.clear();

        let buf_len: usize = rng.gen_range(10..1000);
        let line_len: usize = rng.gen_range(10..100);
        let line_ending = if rng.gen::<bool>() {
            LineEnding::LF
        } else {
            LineEnding::CRLF
        };
        let line_ending_len = match line_ending {
            LineEnding::LF => 1,
            LineEnding::CRLF => 2,
        };

        for _ in 0..buf_len {
            buf.push(rng.gen::<u8>());
        }

        let line_wrap_params = line_wrap_parameters(buf_len, line_len, line_ending);

        let not_wrapped_buf = buf.to_vec();

        let line_ending_bytes = do_line_wrap(&mut buf, line_len, line_ending);

        assert_eq!(
            buf_len + line_wrap_params.lines_with_endings * line_ending_len,
            buf.len()
        );
        assert_eq!(line_wrap_params.total_len, buf.len());
        assert_eq!(line_wrap_params.total_line_endings_len, line_ending_bytes);

        // remove the endings
        for line_ending_num in 0..line_wrap_params.lines_with_endings {
            let line_ending_offset = (line_ending_num + 1) * line_len;

            for _ in 0..line_ending_len {
                buf.remove(line_ending_offset);
            }
        }

        assert_eq!(not_wrapped_buf, buf);
    }
}
