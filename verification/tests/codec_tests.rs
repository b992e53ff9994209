use base64::CharacterSet;
use base64::Config;
use base64::DecodeError;
use base64::LineEnding;
use base64::LineWrap;
use base64::add_padding;
use base64::decode;
use base64::decode_config;
use base64::decode_config_buf;
use base64::encode;
use base64::encode_bytes;
use base64::encode_config;
use base64::encode_config_buf;
use base64::encoded_size;
use base64::mime;
use base64::remove_whitespace;
use base64::standard;
use base64::url_safe;
use base64::url_safe_no_pad;

#[test]
fn encode_rfc_vectors() {
    assert_eq!("Zg==", encode(b"f"));
    assert_eq!("Zm8=", encode(b"fo"));
    assert_eq!("Zm9v", encode(b"foo"));
    assert_eq!("Zm9vYg==", encode(b"foob"));
    assert_eq!("Zm9vYmE=", encode(b"fooba"));
    assert_eq!("Zm9vYmFy", encode(b"foobar"));
}

#[test]
fn encode_empty_every_config() {
    assert_eq!("", encode(b""));
    assert_eq!("", encode_config(b"", standard()));
    assert_eq!("", encode_config(b"", mime()));
    assert_eq!("", encode_config(b"", url_safe()));
    assert_eq!("", encode_config(b"", url_safe_no_pad()));
}

#[test]
fn encode_long_input_exact() {
    // long enough to exercise the wide eight-byte path
    assert_eq!("aGVsbG8gd29ybGQ=", encode(b"hello world"));
    assert_eq!(
        "dGhlIHF1aWNrIGJyb3duIGZveCBqdW1wZWQgb3ZlciB0aGUgbGF6eSBkb2c=",
        encode(b"the quick brown fox jumped over the lazy dog")
    );
}

#[test]
fn encode_url_safe_alphabet() {
    assert_eq!("_-8=", encode_config(&[0xFF, 0xEF], url_safe()));
    assert_eq!("_-8", encode_config(&[0xFF, 0xEF], url_safe_no_pad()));
    assert_eq!("/+8=", encode_config(&[0xFF, 0xEF], standard()));
}

#[test]
fn encode_config_buf_appends() {
    let mut buf = String::from("prefix:");
    encode_config_buf(b"foo", standard(), &mut buf);
    assert_eq!("prefix:Zm9v", buf);
}

#[test]
fn encode_mime_wraps_at_76_crlf() {
    let data: Vec<u8> = (0u8..=255).collect();
    let wrapped = encode_config(&data, mime());
    let plain = encode_config(&data, standard());
    for (i, line) in wrapped.split("\r\n").enumerate() {
        if i < wrapped.split("\r\n").count() - 1 {
            assert_eq!(76, line.len());
        } else {
            assert!(line.len() <= 76 && !line.is_empty());
        }
    }
    let stripped: String = wrapped.chars().filter(|c| *c != '\r' && *c != '\n').collect();
    assert_eq!(plain, stripped);
}

#[test]
fn decode_rfc_vectors() {
    assert_eq!(Ok(b"f".to_vec()), decode(b"Zg=="));
    assert_eq!(Ok(b"fo".to_vec()), decode(b"Zm8="));
    assert_eq!(Ok(b"foo".to_vec()), decode(b"Zm9v"));
    assert_eq!(Ok(b"foobar".to_vec()), decode(b"Zm9vYmFy"));
}

#[test]
fn decode_empty_and_chunk_boundaries() {
    assert_eq!(Ok(Vec::new()), decode(b""));
    // exactly one chunk: the whole input is the trailing chunk
    assert_eq!(Ok(vec![0u8; 6]), decode(b"AAAAAAAA"));
    // one full chunk through the fast pass plus a padded tail
    assert_eq!(Ok(b"hello world".to_vec()), decode(b"aGVsbG8gd29ybGQ="));
}

#[test]
fn decode_accepts_unpadded_regardless_of_config() {
    // decoding never consults the pad flag
    assert_eq!(Ok(b"f".to_vec()), decode(b"Zg"));
    assert_eq!(Ok(b"fo".to_vec()), decode(b"Zm8"));
    assert_eq!(Ok(b"f".to_vec()), decode_config(b"Zg", url_safe_no_pad()));
    assert_eq!(Ok(b"f".to_vec()), decode_config(b"Zg==", url_safe_no_pad()));
}

#[test]
fn decode_malformed_padding_reports_first_pad() {
    // padding cannot start at quad position one
    assert_eq!(Err(DecodeError::InvalidByte(1, b'=')), decode(b"A==="));
    // padding cannot start at quad position zero
    assert_eq!(Err(DecodeError::InvalidByte(0, b'=')), decode(b"="));
    // a non-pad byte after padding is reported at the first pad
    assert_eq!(Err(DecodeError::InvalidByte(2, b'=')), decode(b"Zm=v"));
}

#[test]
fn decode_non_alphabet_byte() {
    assert_eq!(Err(DecodeError::InvalidByte(2, b'#')), decode(b"Zg#="));
    // the url-safe characters are invalid in the standard alphabet
    assert_eq!(Err(DecodeError::InvalidByte(0, b'_')), decode(b"_-8="));
    // and the standard specials are invalid in the url-safe alphabet
    assert_eq!(
        Err(DecodeError::InvalidByte(0, b'/')),
        decode_config(b"/+8=", url_safe())
    );
}

#[test]
fn decode_invalid_byte_in_fast_path() {
    // seventeen characters: the first sixteen run through the chunked pass
    assert_eq!(
        Err(DecodeError::InvalidByte(15, b'!')),
        decode(b"AAAAAAAAAAAAAAA!B")
    );
}

#[test]
fn decode_invalid_length() {
    // a trailing group of one or five characters cannot form whole bytes
    assert_eq!(Err(DecodeError::InvalidLength), decode(b"Z"));
    assert_eq!(Err(DecodeError::InvalidLength), decode(b"Zm9vY"));
}

#[test]
fn decode_whitespace_only_with_mime() {
    assert_eq!(Ok(b"foo".to_vec()), decode_config(b"Zm 9\tv\r\n", mime()));
    assert_eq!(Err(DecodeError::InvalidByte(2, b' ')), decode(b"Zm 9v"));
}

#[test]
fn decode_config_buf_appends_or_leaves_alone() {
    let mut buf = vec![0xAAu8];
    assert_eq!(Ok(()), decode_config_buf(b"Zm9v", standard(), &mut buf));
    assert_eq!(vec![0xAA, b'f', b'o', b'o'], buf);

    let mut untouched = vec![0x55u8];
    assert_eq!(
        Err(DecodeError::InvalidByte(2, b'#')),
        decode_config_buf(b"Zg#=", standard(), &mut untouched)
    );
    assert_eq!(vec![0x55u8], untouched);
}

#[test]
fn round_trip_all_configs() {
    let mut data: Vec<u8> = Vec::new();
    for round in 0..3 {
        for b in 0u8..=255 {
            data.push(b.wrapping_add(round));
            let configs = [standard(), mime(), url_safe(), url_safe_no_pad()];
            for config in configs.iter() {
                let text = encode_config(&data, *config);
                assert_eq!(Ok(data.clone()), decode_config(text.as_bytes(), *config));
            }
        }
    }
}

#[test]
fn round_trip_custom_wrap_widths() {
    let data: Vec<u8> = (0u8..200).collect();
    for width in [1usize, 2, 3, 19, 64].iter() {
        let config = Config::new(
            CharacterSet::Standard,
            true,
            true,
            LineWrap::Wrap(*width, LineEnding::LF),
        );
        let text = encode_config(&data, config);
        assert_eq!(Ok(data.clone()), decode_config(text.as_bytes(), config));
    }
}

#[test]
fn config_new_normalizes_zero_width_wrap() {
    let config = Config::new(
        CharacterSet::Standard,
        true,
        false,
        LineWrap::Wrap(0, LineEnding::LF),
    );
    assert!(matches!(config.line_wrap, LineWrap::NoWrap));
    let text = encode_config(b"foo", config);
    assert_eq!("Zm9v", text);
}

#[test]
fn encoded_size_exact_values() {
    assert_eq!(Some(0), encoded_size(0, &standard()));
    assert_eq!(Some(4), encoded_size(1, &standard()));
    assert_eq!(Some(4), encoded_size(3, &standard()));
    assert_eq!(Some(8), encoded_size(4, &standard()));
    assert_eq!(Some(2), encoded_size(1, &url_safe_no_pad()));
    assert_eq!(Some(3), encoded_size(2, &url_safe_no_pad()));
    // 100 bytes make 136 characters, wrapped once at 76 with crlf
    assert_eq!(Some(138), encoded_size(100, &mime()));
}

#[test]
fn encoded_size_overflow_is_reported_not_wrapped() {
    assert_eq!(None, encoded_size(usize::MAX, &standard()));
    assert_eq!(None, encoded_size(usize::MAX - 2, &standard()));
    assert_eq!(None, encoded_size(usize::MAX / 4 * 3 + 3, &standard()));
}

#[test]
fn add_padding_counts() {
    let mut v: Vec<u8> = Vec::new();
    assert_eq!(0, add_padding(0, &mut v));
    assert_eq!(2, add_padding(1, &mut v));
    assert_eq!(1, add_padding(2, &mut v));
    assert_eq!(0, add_padding(3, &mut v));
    assert_eq!(vec![b'=', b'=', b'='], v);
}

#[test]
fn remove_whitespace_drops_the_whitespace_set() {
    assert_eq!(
        b"Zm9v".to_vec(),
        remove_whitespace(b" Z\tm\r\n9\x0b\x0cv ")
    );
    assert_eq!(b"".to_vec(), remove_whitespace(b" \t\r\n"));
}

#[test]
fn encode_bytes_matches_string_encode() {
    let data = b"any carnal pleasure.";
    let bytes = encode_bytes(data, standard());
    let text = encode_config(data, standard());
    assert_eq!(text.as_bytes(), bytes.as_slice());
    assert_eq!("YW55IGNhcm5hbCBwbGVhc3VyZS4=", text);
}
