//! The trusted boundary of the crate: named results of outside computations
//! and the few wrappers whose contracts Verus believes without proof.

use vstd::prelude::*;

verus! {

/// Whether `s` is valid JSON number text, exactly as serde_json's number
/// parser accepts it.
pub uninterp spec fn is_number_text(s: Seq<char>) -> bool;

/// The canonical decimal text of the number written as `s`: what
/// serde_json::Number prints after parsing `s`.
pub uninterp spec fn canon_number(s: Seq<char>) -> Seq<char>;

/// The characters that may occur in number text.
pub open spec fn is_number_char(c: char) -> bool {
    ||| ('0' as u32) <= (c as u32) <= ('9' as u32)
    ||| c == '-'
    ||| c == '+'
    ||| c == '.'
    ||| c == 'e'
    ||| c == 'E'
}

/// Canonical number text: fixed under re-parsing and shaped as serde_json's
/// number Display writes it (nonempty, first character a digit or `-`, all
/// characters drawn from the number alphabet).
pub open spec fn is_canon_number(s: Seq<char>) -> bool {
    &&& is_number_text(s)
    &&& canon_number(s) == s
    &&& s.len() > 0
    &&& (('0' as u32) <= (s[0] as u32) <= ('9' as u32) || s[0] == '-')
    &&& forall|i: int| 0 <= i < s.len() ==> is_number_char(#[trigger] s[i])
}

/// Relies on serde_json::Number: its FromStr accepts exactly valid JSON
/// number text, its Display prints the canonical decimal form of the parsed
/// number, and that form re-parses to itself. The re-parse clause needs the
/// float parse to be correctly rounded, which is why this crate builds
/// serde_json with its float_roundtrip feature: the shortest form a float
/// prints as recovers the value only under a correctly rounded parse. The
/// shape clauses restate the Display form: nonempty, beginning with a digit
/// or `-`, and written with the characters 0-9 - + . e E only.
#[verifier::external_body]
pub fn canonical_number(s: &str) -> (r: Option<String>)
    ensures
        r is Some <==> is_number_text(s@),
        r matches Some(c) ==> c@ == canon_number(s@) && is_canon_number(c@),
{
    match s.parse::<serde_json::Number>() {
        Ok(n) => Some(n.to_string()),
        Err(_) => None,
    }
}

/// Relies on std::str::from_utf8: it succeeds exactly on valid UTF-8 input,
/// and the returned string is carried by exactly the input bytes.
#[verifier::external_body]
pub fn bytes_to_string(b: &[u8]) -> (r: Option<String>)
    ensures
        r is Some <==> vstd::utf8::valid_utf8(b@),
        r matches Some(s) ==> vstd::utf8::encode_utf8(s@) == b@,
{
    match std::str::from_utf8(b) {
        Ok(s) => Some(s.to_owned()),
        Err(_) => None,
    }
}

/// Relies on String's FromIterator over char: collecting yields a string of
/// exactly the given characters.
#[verifier::external_body]
pub fn chars_to_string(v: &Vec<char>) -> (r: String)
    ensures
        r@ == v@,
{
    v.iter().collect()
}

/// Relies on char::from_u32: it succeeds exactly on Unicode scalar values
/// and returns the character with that value.
pub assume_specification[ char::from_u32 ](u: u32) -> (r: Option<char>)
    ensures
        r is Some <==> vstd::utf8::is_scalar(u),
        r matches Some(c) ==> c as u32 == u,
;

} // verus!
