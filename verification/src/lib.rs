//! Base64 encoding and decoding with configurable alphabet, padding,
//! whitespace handling and line wrapping.
use vstd::prelude::*;

pub mod alphabet;
pub mod decode;
pub mod encode;
pub mod endian;
pub mod laws;
pub mod line_wrap;

pub use alphabet::CharacterSet;
pub use decode::DecodeIssue;
pub use decode::decode_config;
pub use decode::decode_config_buf;
pub use decode::remove_whitespace;
pub use encode::add_padding;
pub use encode::encode_bytes;
pub use encode::encoded_size;
pub use line_wrap::LineWrapParameters;
pub use line_wrap::line_wrap;
pub use line_wrap::line_wrap_parameters;

verus! {

/// Line terminator written between wrapped lines.
#[derive(Clone, Copy, Debug)]
pub enum LineEnding {
    LF,
    CRLF,
}

impl LineEnding {
    /// Width of the terminator in bytes.
    pub open spec fn spec_len(self) -> int {
        match self {
            LineEnding::LF => 1,
            LineEnding::CRLF => 2,
        }
    }

    /// Width of the terminator in bytes.
    pub fn len(&self) -> (r: usize)
        ensures
            r == self.spec_len(),
    {
        match self {
            LineEnding::LF => 1,
            LineEnding::CRLF => 2,
        }
    }
}

/// Whether encoded output is broken into lines, and if so how.
#[derive(Clone, Copy, Debug)]
pub enum LineWrap {
    NoWrap,
    /// Wrap width is always greater than zero.
    Wrap(usize, LineEnding),
}

/// Contains configuration parameters for base64 encoding
#[derive(Clone, Copy, Debug)]
pub struct Config {
    /// Character set to use
    pub char_set: CharacterSet,
    /// True to pad output with `=` characters
    pub pad: bool,
    /// Remove whitespace before decoding, at the cost of an allocation
    pub strip_whitespace: bool,
    /// Whether to line-wrap output, and if so by how many characters and
    /// with what ending
    pub line_wrap: LineWrap,
}

impl Config {
    /// A configuration never wraps at width zero: `new` normalizes that
    /// request to no wrapping.
    pub open spec fn wf(self) -> bool {
        match self.line_wrap {
            LineWrap::NoWrap => true,
            LineWrap::Wrap(w, _) => w > 0,
        }
    }

    pub fn new(
        char_set: CharacterSet,
        pad: bool,
        strip_whitespace: bool,
        input_line_wrap: LineWrap,
    ) -> (r: Config)
        ensures
            r.wf(),
            r.char_set == char_set,
            r.pad == pad,
            r.strip_whitespace == strip_whitespace,
            r.line_wrap == (match input_line_wrap {
                LineWrap::Wrap(0, _) => LineWrap::NoWrap,
                _ => input_line_wrap,
            }),
    {
        let line_wrap = match input_line_wrap {
            LineWrap::Wrap(0, _) => LineWrap::NoWrap,
            _ => input_line_wrap,
        };
        Config { char_set, pad, strip_whitespace, line_wrap }
    }
}

/// The standard character set, padded, no whitespace stripping, no wrap.
pub fn standard() -> (r: Config)
    ensures
        r == (Config {
            char_set: CharacterSet::Standard,
            pad: true,
            strip_whitespace: false,
            line_wrap: LineWrap::NoWrap,
        }),
{
    Config {
        char_set: CharacterSet::Standard,
        pad: true,
        strip_whitespace: false,
        line_wrap: LineWrap::NoWrap,
    }
}

/// The MIME profile: standard character set, padded, whitespace-tolerant,
/// wrapped at 76 columns with CRLF.
pub fn mime() -> (r: Config)
    ensures
        r == (Config {
            char_set: CharacterSet::Standard,
            pad: true,
            strip_whitespace: true,
            line_wrap: LineWrap::Wrap(76, LineEnding::CRLF),
        }),
{
    Config {
        char_set: CharacterSet::Standard,
        pad: true,
        strip_whitespace: true,
        line_wrap: LineWrap::Wrap(76, LineEnding::CRLF),
    }
}

/// The URL-safe character set, padded.
pub fn url_safe() -> (r: Config)
    ensures
        r == (Config {
            char_set: CharacterSet::UrlSafe,
            pad: true,
            strip_whitespace: false,
            line_wrap: LineWrap::NoWrap,
        }),
{
    Config {
        char_set: CharacterSet::UrlSafe,
        pad: true,
        strip_whitespace: false,
        line_wrap: LineWrap::NoWrap,
    }
}

/// The URL-safe character set, unpadded.
pub fn url_safe_no_pad() -> (r: Config)
    ensures
        r == (Config {
            char_set: CharacterSet::UrlSafe,
            pad: false,
            strip_whitespace: false,
            line_wrap: LineWrap::NoWrap,
        }),
{
    Config {
        char_set: CharacterSet::UrlSafe,
        pad: false,
        strip_whitespace: false,
        line_wrap: LineWrap::NoWrap,
    }
}

/// The characters of an ASCII byte string, one per byte.
pub open spec fn chars_of(t: Seq<u8>) -> Seq<char> {
    t.map(|i: int, b: u8| b as char)
}

/// Relies on String::from_utf8: ASCII bytes are valid UTF-8 and decode to
/// one character per byte.
#[verifier::external_body]
fn ascii_string(bytes: &Vec<u8>) -> (r: String)
    requires
        forall|k: int| 0 <= k < bytes@.len() ==> bytes@[k] < 128,
    ensures
        r@ == chars_of(bytes@),
{
    match String::from_utf8(bytes.clone()) {
        Ok(s) => s,
        Err(_) => String::new(),
    }
}

/// Encode arbitrary octets as base64, written into the supplied buffer to
/// avoid allocations.
pub fn encode_config_buf(input: &[u8], config: Config, buf: &mut String)
    requires
        config.wf(),
        encode::encodable(input@.len() as int, config),
    ensures
        final(buf)@ == old(buf)@ + chars_of(encode::full_encoded_seq(input@, config)),
{
    let bytes = encode::encode_bytes(input, config);
    proof {
        encode::lemma_full_encoded_ascii(input@, config);
    }
    let text = ascii_string(&bytes);
    buf.append(text.as_str());
}

/// Encode arbitrary octets as base64. Returns a String.
pub fn encode_config(input: &[u8], config: Config) -> (r: String)
    requires
        config.wf(),
        encode::encodable(input@.len() as int, config),
    ensures
        r@ == chars_of(encode::full_encoded_seq(input@, config)),
{
    let mut buf = String::new();
    encode_config_buf(input, config, &mut buf);
    proof {
        assert(buf@ =~= chars_of(encode::full_encoded_seq(input@, config)));
    }
    buf
}

/// Encode arbitrary octets as base64 under the standard configuration.
/// Returns a String.
pub fn encode(input: &[u8]) -> (r: String)
    requires
        encode::encodable(input@.len() as int, spec_standard()),
    ensures
        r@ == chars_of(encode::full_encoded_seq(input@, spec_standard())),
{
    encode_config(input, standard())
}

/// Decode base64 text under the standard configuration. Returns the
/// decoded bytes, or the exact failure.
pub fn decode(input: &[u8]) -> (r: Result<Vec<u8>, DecodeError>)
    ensures
        match (r, decode::decode_spec(CharacterSet::Standard, input@)) {
            (Ok(v), Ok(bytes)) => v@ == bytes,
            (
                Err(DecodeError::InvalidByte(i, b)),
                Err(DecodeIssue::BadByte { offset, byte }),
            ) => i == offset && b == byte,
            (Err(DecodeError::InvalidLength), Err(DecodeIssue::BadLength)) => true,
            _ => false,
        },
{
    decode_config(input, standard())
}

/// The standard configuration's value.
pub open spec fn spec_standard() -> Config {
    Config {
        char_set: CharacterSet::Standard,
        pad: true,
        strip_whitespace: false,
        line_wrap: LineWrap::NoWrap,
    }
}

/// Why a decode rejected its input.
#[derive(Debug, PartialEq, Eq, Structural)]
pub enum DecodeError {
    /// A byte outside the alphabet, or a structurally misplaced `=`,
    /// with its absolute offset in the (whitespace-stripped) input.
    InvalidByte(usize, u8),
    /// The encoded text has a number of characters that cannot resolve
    /// to whole bytes.
    InvalidLength,
}

} // verus!
