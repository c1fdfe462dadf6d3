//! TOON: a lossless encoding of JSON-like value trees with three layouts —
//! indented text, length-prefixed compact binary, and a columnar "tabular"
//! layout for uniform arrays of objects.

use vstd::prelude::*;

pub mod codec;
pub mod laws;
pub mod decoder;
pub mod encoder;
pub mod trusted;
pub mod value;

verus! {

/// Why a decode call failed.
#[derive(Clone, Copy, Debug, PartialEq, Eq, Structural)]
pub enum DecodeError {
    /// The input was empty.
    EmptyInput,
    /// Malformed text: bad token, missing separator, unterminated quote or
    /// invalid escape.
    ParseError,
    /// The binary header did not match a known magic prefix.
    InvalidMagic,
    /// A binary read of a tag, length or payload ran past the buffer end.
    TruncatedBinary,
    /// A binary string payload was not valid UTF-8.
    InvalidUtf8,
    /// A binary number payload did not parse as a number.
    InvalidNumberText,
    /// An unrecognized binary type tag.
    UnknownTag,
}

/// Why an encode call failed.
#[derive(Clone, Copy, Debug, PartialEq, Eq, Structural)]
pub enum EncodeError {
    /// Tabular layout was demanded strictly and the input does not qualify.
    StrictViolation,
}

/// Options for encoding a value to TOON.
#[derive(Default, Clone, Debug)]
pub struct EncodeOptions {
    /// Use tabular layout for a top-level uniform array of objects.
    pub tabular_arrays: bool,
    /// Use the compact binary format.
    pub compact: bool,
    /// Indentation in spaces for the text format (2 when unset).
    pub indent: Option<u8>,
    /// Fail on validation errors instead of falling back.
    pub strict: bool,
}

/// Options for decoding TOON bytes.
#[derive(Default, Clone, Debug)]
pub struct DecodeOptions {
    /// Expect the compact format (auto-detect by magic when false).
    pub compact: bool,
    /// Reserved; the decode path does not currently use it.
    pub strict: bool,
}

/// Encode a value to TOON bytes; see the encode dispatcher for the layout
/// choice the options make.
pub fn encode_json_to_toon(input: &value::Value, opt: &EncodeOptions) -> (r: Result<
    Vec<u8>,
    EncodeError,
>)
    requires
        value::wf(input@),
        encoder::spec_encode_fits(input@, *opt),
    ensures
        match r {
            Ok(out) => encoder::spec_encode(input@, *opt) == Ok::<Seq<u8>, EncodeError>(out@),
            Err(e) => encoder::spec_encode(input@, *opt) == Err::<Seq<u8>, EncodeError>(e),
        },
{
    encoder::encode(input, opt)
}

/// Decode TOON bytes to a value; the compact layout is auto-detected by its
/// magic when the options leave the mode open.
pub fn decode_toon_to_json(bytes: &[u8], opt: &DecodeOptions) -> (r: Result<
    value::Value,
    DecodeError,
>)
    ensures
        match r {
            Ok(v) => decoder::spec_decode(bytes@, *opt) == Ok::<value::SpecValue, DecodeError>(
                v@,
            ),
            Err(e) => decoder::spec_decode(bytes@, *opt) == Err::<value::SpecValue, DecodeError>(
                e,
            ),
        },
{
    decoder::decode(bytes, opt)
}

} // verus!
