//! The decode dispatcher: empty input is always an error; the compact path
//! is taken when asked for or when the compact magic opens the input, and
//! the text path otherwise.

use vstd::prelude::*;
use crate::codec::compact;
use crate::codec::text;
use crate::value::{SpecValue, Value};
use crate::DecodeError;
use crate::DecodeOptions;

verus! {

/// What decoding returns: the compact reading when the option demands it or
/// the five-byte compact magic opens the input, else the text reading.
pub open spec fn spec_decode(b: Seq<u8>, opt: DecodeOptions) -> Result<SpecValue, DecodeError> {
    if b.len() == 0 {
        Err(DecodeError::EmptyInput)
    } else if opt.compact || (b.len() >= 5 && b.subrange(0, 5) == compact::magic()) {
        compact::spec_compact_decode(b)
    } else {
        text::spec_text_decode(b)
    }
}

/// Decode TOON bytes, auto-detecting the compact layout by its magic when
/// the option leaves the mode open.
pub fn decode(bytes: &[u8], opt: &DecodeOptions) -> (r: Result<Value, DecodeError>)
    ensures
        match r {
            Ok(v) => spec_decode(bytes@, *opt) == Ok::<SpecValue, DecodeError>(v@),
            Err(e) => spec_decode(bytes@, *opt) == Err::<SpecValue, DecodeError>(e),
        },
{
    if bytes.len() == 0 {
        return Err(DecodeError::EmptyInput);
    }
    if opt.compact {
        return compact::decode(bytes);
    }
    if bytes.len() >= 5 && bytes[0] == 84 && bytes[1] == 79 && bytes[2] == 79 && bytes[3] == 78
        && bytes[4] == 1 {
        proof {
            assert(bytes@.subrange(0, 5) =~= compact::magic());
        }
        compact::decode(bytes)
    } else {
        proof {
            if bytes@.len() >= 5 && bytes@.subrange(0, 5) == compact::magic() {
                assert(bytes@.subrange(0, 5)[0] == bytes@[0]);
                assert(bytes@.subrange(0, 5)[1] == bytes@[1]);
                assert(bytes@.subrange(0, 5)[2] == bytes@[2]);
                assert(bytes@.subrange(0, 5)[3] == bytes@[3]);
                assert(bytes@.subrange(0, 5)[4] == bytes@[4]);
                assert(false);
            }
        }
        text::decode(bytes)
    }
}

} // verus!
