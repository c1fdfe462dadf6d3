//! The encode dispatcher: try the tabular transform when asked, fall back
//! to the ordinary text or compact layout.

use vstd::prelude::*;
use vstd::utf8::encode_utf8;
use crate::codec::compact;
use crate::codec::tabular;
use crate::codec::tabular::{spec_columns, spec_uniform, tab_bin, tab_bin_fits, tab_text};
use crate::codec::text;
use crate::codec::text::txt_value;
use crate::value::{canon, lemma_view_items, view_entries, view_items, SpecValue, Value, wf};
use crate::EncodeError;
use crate::EncodeOptions;

verus! {

broadcast use {
    vstd::seq::axiom_seq_index_decreases,
    vstd::std_specs::vec::axiom_vec_decreases_to_view,
    vstd::std_specs::vec::axiom_vec_index_decreases,
};

/// The indent width an option set asks for: two spaces when unset.
pub open spec fn spec_indent(opt: EncodeOptions) -> nat {
    match opt.indent {
        Some(i) => i as nat,
        None => 2,
    }
}

/// Whether some immediate field of an object holds an array that does not
/// qualify for the tabular layout: what strict mode rejects.
pub open spec fn has_nonuniform_array_field(es: Seq<(Seq<char>, SpecValue)>) -> bool {
    exists|i: int|
        0 <= i < es.len() && (#[trigger] es[i]).1 is Arr && !spec_uniform(es[i].1->Arr_0)
}

/// What encoding returns: the tabular rendering of a qualifying top-level
/// array when asked; a strict error when tabular is demanded of input that
/// does not qualify; otherwise the ordinary compact or text rendering of
/// the canonical form.
pub open spec fn spec_encode(v: SpecValue, opt: EncodeOptions) -> Result<Seq<u8>, EncodeError> {
    if opt.tabular_arrays && v is Arr && spec_uniform(v->Arr_0) {
        if opt.compact {
            Ok(tab_bin(v->Arr_0, spec_columns(v->Arr_0)))
        } else {
            Ok(encode_utf8(tab_text(v->Arr_0, spec_columns(v->Arr_0), spec_indent(opt))))
        }
    } else if opt.tabular_arrays && opt.strict && v is Arr {
        Err(EncodeError::StrictViolation)
    } else if opt.tabular_arrays && opt.strict && v is Obj && has_nonuniform_array_field(
        v->Obj_0,
    ) {
        Err(EncodeError::StrictViolation)
    } else if opt.tabular_arrays && opt.strict && !(v is Arr) && !(v is Obj) {
        Err(EncodeError::StrictViolation)
    } else if opt.compact {
        Ok(compact::magic() + compact::bin_value(canon(v)))
    } else {
        Ok(encode_utf8(txt_value(canon(v), Seq::empty(), spec_indent(opt))))
    }
}

/// The size side conditions encoding needs: 32-bit fields in the compact
/// layouts must be wide enough for every length and count.
pub open spec fn spec_encode_fits(v: SpecValue, opt: EncodeOptions) -> bool {
    &&& (opt.compact ==> compact::fits(v))
    &&& (opt.tabular_arrays && opt.compact && v is Arr && spec_uniform(v->Arr_0)
        ==> tab_bin_fits(v->Arr_0, spec_columns(v->Arr_0)))
}

/// Attempt the tabular transform: the rendering for a qualifying top-level
/// array, a strict error where strict mode rejects the input, and nothing
/// when the transform declines.
#[verifier::loop_isolation(false)]
fn try_tabular_encode(input: &Value, opt: &EncodeOptions) -> (r: Result<
    Option<Vec<u8>>,
    EncodeError,
>)
    requires
        opt.tabular_arrays,
        wf(input@),
        spec_encode_fits(input@, *opt),
    ensures
        match r {
            Ok(Some(out)) => input@ is Arr && spec_uniform(input@->Arr_0) && out@ == (
            if opt.compact {
                tab_bin(input@->Arr_0, spec_columns(input@->Arr_0))
            } else {
                encode_utf8(tab_text(input@->Arr_0, spec_columns(input@->Arr_0), spec_indent(*opt)))
            }),
            Ok(None) => {
                &&& !(input@ is Arr && spec_uniform(input@->Arr_0))
                &&& !(opt.strict && input@ is Arr)
                &&& !(opt.strict && input@ is Obj && has_nonuniform_array_field(input@->Obj_0))
                &&& !(opt.strict && !(input@ is Arr) && !(input@ is Obj))
            },
            Err(e) => {
                &&& e == EncodeError::StrictViolation
                &&& !(input@ is Arr && spec_uniform(input@->Arr_0))
                &&& opt.strict
                &&& (input@ is Arr || (input@ is Obj && has_nonuniform_array_field(input@->Obj_0))
                    || (!(input@ is Arr) && !(input@ is Obj)))
            },
        },
{
    match input {
        Value::Arr(items) => {
            if tabular::is_uniform_object_array(items.as_slice()) {
                let out = if opt.compact {
                    tabular::encode_tabular_compact(items.as_slice())
                } else {
                    let ind = match opt.indent {
                        Some(i) => i,
                        None => 2,
                    };
                    tabular::encode_tabular_text(items.as_slice(), ind)
                };
                Ok(Some(out))
            } else if opt.strict {
                Err(EncodeError::StrictViolation)
            } else {
                Ok(None)
            }
        },
        Value::Obj(es) => {
            if opt.strict {
                proof {
                    crate::value::lemma_view_entries(es@);
                }
                let mut i: usize = 0;
                while i < es.len()
                    invariant
                        i <= es@.len(),
                        forall|t: int|
                            0 <= t < i ==> !((#[trigger] view_entries(es@)[t]).1 is Arr
                                && !spec_uniform(view_entries(es@)[t].1->Arr_0)),
                    decreases es@.len() - i,
                {
                    match &es[i].1 {
                        Value::Arr(inner) => {
                            proof {
                                assert(view_entries(es@)[i as int].1 == es@[i as int].1@);
                            }
                            if !tabular::is_uniform_object_array(inner.as_slice()) {
                                proof {
                                    assert(view_entries(es@)[i as int].1->Arr_0 == view_items(
                                        inner@,
                                    ));
                                }
                                return Err(EncodeError::StrictViolation);
                            }
                        },
                        _ => {
                            proof {
                                assert(view_entries(es@)[i as int].1 == es@[i as int].1@);
                            }
                        },
                    }
                    i = i + 1;
                }
                proof {
                    assert(!has_nonuniform_array_field(view_entries(es@)));
                }
            }
            Ok(None)
        },
        _ => {
            if opt.strict {
                Err(EncodeError::StrictViolation)
            } else {
                Ok(None)
            }
        },
    }
}

/// Encode a value: the tabular transform first when asked, then the
/// ordinary compact or text layout of the canonical form.
pub fn encode(input: &Value, opt: &EncodeOptions) -> (r: Result<Vec<u8>, EncodeError>)
    requires
        wf(input@),
        spec_encode_fits(input@, *opt),
    ensures
        match r {
            Ok(out) => spec_encode(input@, *opt) == Ok::<Seq<u8>, EncodeError>(out@),
            Err(e) => spec_encode(input@, *opt) == Err::<Seq<u8>, EncodeError>(e),
        },
{
    if opt.tabular_arrays {
        match try_tabular_encode(input, opt) {
            Err(e) => {
                return Err(e);
            },
            Ok(Some(out)) => {
                return Ok(out);
            },
            Ok(None) => {},
        }
    }
    if opt.compact {
        Ok(compact::encode(input))
    } else {
        let ind = match opt.indent {
            Some(i) => i,
            None => 2,
        };
        Ok(text::encode(input, ind))
    }
}

} // verus!
