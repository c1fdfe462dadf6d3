//! The tabular layout: a uniformity test for arrays of objects and the two
//! columnar renderings, text and binary. Nested arrays and objects inside a
//! cell are written as embedded single-line JSON text.

use vstd::prelude::*;
use vstd::utf8::encode_utf8;
use crate::codec::compact::{bin_string, le32, utf8_len, write_string, write_u32, TAG_FALSE,
    TAG_NULL, TAG_NUMBER, TAG_STRING, TAG_TRUE};
use crate::codec::text::{esc_str, kw_false, kw_null, kw_true, push_chars, push_escaped,
    push_str_chars, spaces, spec_needs_quote, str_needs_quote, txt_string};
use crate::trusted::chars_to_string;
use crate::value::{
    canon, canon_entries, entries_at, key_set, lemma_canon_entries, lemma_view_entries,
    lemma_lookup_wf, lemma_view_items, lookup_key, sort_entries, sorted_indices, view_entries, view_items,
    SpecValue, Value, wf,
};

verus! {

broadcast use {
    vstd::seq::axiom_seq_index_decreases,
    vstd::seq_lib::lemma_seq_skip_index,
    vstd::seq_lib::lemma_seq_skip_len,
    vstd::seq_lib::lemma_seq_take_index,
    vstd::seq_lib::lemma_seq_take_len,
    vstd::std_specs::vec::axiom_vec_decreases_to_view,
    vstd::std_specs::vec::axiom_vec_index_decreases,
};

/// Whether an array qualifies for the tabular layout: non-empty, its first
/// element an object with at least one key, and every element an object
/// with the same key set.
pub open spec fn spec_uniform(items: Seq<SpecValue>) -> bool {
    &&& items.len() > 0
    &&& items[0] is Obj
    &&& items[0]->Obj_0.len() > 0
    &&& forall|i: int|
        0 <= i < items.len() ==> (#[trigger] items[i]) is Obj && key_set(items[i]->Obj_0)
            == key_set(items[0]->Obj_0)
}

/// Whether a key is among an object's entries.
#[verifier::loop_isolation(false)]
fn has_key(es: &Vec<(String, Value)>, k: &String) -> (r: bool)
    ensures
        r == key_set(view_entries(es@)).contains(k@),
{
    proof {
        lemma_view_entries(es@);
    }
    let mut i: usize = 0;
    while i < es.len()
        invariant
            i <= es@.len(),
            forall|t: int| 0 <= t < i ==> view_entries(es@)[t].0 != k@,
        decreases es@.len() - i,
    {
        if es[i].0 == *k {
            proof {
                assert(view_entries(es@)[i as int].0 == k@);
            }
            return true;
        }
        i = i + 1;
    }
    proof {
        assert(!key_set(view_entries(es@)).contains(k@)) by {
            if key_set(view_entries(es@)).contains(k@) {
                let t = choose|t: int|
                    0 <= t < view_entries(es@).len() && view_entries(es@)[t].0 == k@;
                assert(view_entries(es@)[t].0 != k@);
            }
        }
    }
    false
}

/// Whether two objects carry the same key set.
#[verifier::loop_isolation(false)]
fn key_sets_equal(a: &Vec<(String, Value)>, b: &Vec<(String, Value)>) -> (r: bool)
    ensures
        r == (key_set(view_entries(a@)) == key_set(view_entries(b@))),
{
    proof {
        lemma_view_entries(a@);
        lemma_view_entries(b@);
    }
    let mut i: usize = 0;
    while i < a.len()
        invariant
            i <= a@.len(),
            forall|t: int|
                0 <= t < i ==> key_set(view_entries(b@)).contains(
                    #[trigger] view_entries(a@)[t].0,
                ),
        decreases a@.len() - i,
    {
        if !has_key(b, &a[i].0) {
            proof {
                assert(key_set(view_entries(a@)).contains(view_entries(a@)[i as int].0));
            }
            return false;
        }
        i = i + 1;
    }
    let mut j: usize = 0;
    while j < b.len()
        invariant
            j <= b@.len(),
            forall|t: int|
                0 <= t < a@.len() ==> key_set(view_entries(b@)).contains(
                    #[trigger] view_entries(a@)[t].0,
                ),
            forall|t: int|
                0 <= t < j ==> key_set(view_entries(a@)).contains(
                    #[trigger] view_entries(b@)[t].0,
                ),
        decreases b@.len() - j,
    {
        if !has_key(a, &b[j].0) {
            proof {
                assert(key_set(view_entries(b@)).contains(view_entries(b@)[j as int].0));
            }
            return false;
        }
        j = j + 1;
    }
    proof {
        assert(key_set(view_entries(a@)) =~= key_set(view_entries(b@))) by {
            assert forall|k: Seq<char>|
                key_set(view_entries(a@)).contains(k) == key_set(view_entries(b@)).contains(
                    k,
                ) by {
                if key_set(view_entries(a@)).contains(k) {
                    let t = choose|t: int|
                        0 <= t < view_entries(a@).len() && view_entries(a@)[t].0 == k;
                    assert(key_set(view_entries(b@)).contains(view_entries(a@)[t].0));
                }
                if key_set(view_entries(b@)).contains(k) {
                    let t = choose|t: int|
                        0 <= t < view_entries(b@).len() && view_entries(b@)[t].0 == k;
                    assert(key_set(view_entries(a@)).contains(view_entries(b@)[t].0));
                }
            }
        }
    }
    true
}

/// Whether the array qualifies for the tabular layout: non-empty, its first
/// element an object with at least one key, every element an object with
/// the same key set.
#[verifier::loop_isolation(false)]
pub fn is_uniform_object_array(arr: &[Value]) -> (r: bool)
    ensures
        r == spec_uniform(view_items(arr@)),
{
    proof {
        lemma_view_items(arr@);
    }
    if arr.len() == 0 {
        return false;
    }
    proof {
        assert(view_items(arr@)[0] == arr@[0]@);
    }
    let es0 = match &arr[0] {
        Value::Obj(es0) => es0,
        _ => {
            proof {
                assert(!(view_items(arr@)[0] is Obj));
            }
            return false;
        },
    };
    proof {
        assert(view_items(arr@)[0]->Obj_0 == view_entries(es0@));
        lemma_view_entries(es0@);
    }
    if es0.len() == 0 {
        return false;
    }
    let mut i: usize = 1;
    while i < arr.len()
        invariant
            1 <= i <= arr@.len(),
            forall|t: int|
                0 <= t < i ==> (#[trigger] view_items(arr@)[t]) is Obj && key_set(
                    view_items(arr@)[t]->Obj_0,
                ) == key_set(view_items(arr@)[0]->Obj_0),
        decreases arr@.len() - i,
    {
        proof {
            assert(view_items(arr@)[i as int] == arr@[i as int]@);
        }
        match &arr[i] {
            Value::Obj(es) => {
                proof {
                    assert(view_items(arr@)[i as int]->Obj_0 == view_entries(es@));
                }
                if !key_sets_equal(es, es0) {
                    return false;
                }
            },
            _ => {
                return false;
            },
        }
        i = i + 1;
    }
    true
}

/// Whether a string needs quoting when printed inline in a tabular cell:
/// the same rule the ordinary text layout uses.
pub fn needs_quotes(s: &str) -> (r: bool)
    ensures
        r == spec_needs_quote(s@),
{
    str_needs_quote(s)
}

/// The single-line JSON rendering of a value, entries as given (the
/// encoders hand this the canonical form).
pub open spec fn json_value(v: SpecValue) -> Seq<char>
    decreases v, 0int,
{
    match v {
        SpecValue::Null => kw_null(),
        SpecValue::Bool(b) => if b {
            kw_true()
        } else {
            kw_false()
        },
        SpecValue::Num(s) => s,
        SpecValue::Str(s) => seq!['"'] + esc_str(s, 0) + seq!['"'],
        SpecValue::Arr(items) => seq!['['] + json_items(items, 0) + seq![']'],
        SpecValue::Obj(es) => seq!['{'] + json_entries(es, 0) + seq!['}'],
    }
}

/// The comma-separated JSON items of an array from position `i` on.
pub open spec fn json_items(items: Seq<SpecValue>, i: int) -> Seq<char>
    decreases items, items.len() - i,
{
    if i < 0 || i >= items.len() {
        Seq::empty()
    } else {
        json_value(items[i]) + (if i + 1 < items.len() {
            seq![',']
        } else {
            Seq::empty()
        }) + json_items(items, i + 1)
    }
}

/// The comma-separated JSON entries of an object from position `i` on.
pub open spec fn json_entries(es: Seq<(Seq<char>, SpecValue)>, i: int) -> Seq<char>
    decreases es, es.len() - i,
{
    if i < 0 || i >= es.len() {
        Seq::empty()
    } else {
        seq!['"'] + esc_str(es[i].0, 0) + seq!['"', ':'] + json_value(es[i].1) + (if i + 1
            < es.len() {
            seq![',']
        } else {
            Seq::empty()
        }) + json_entries(es, i + 1)
    }
}

/// Append the single-line JSON rendering of `v` in canonical form.
#[verifier::loop_isolation(false)]
#[verifier::rlimit(100)]
pub fn encode_json_value(out: &mut Vec<char>, v: &Value)
    requires
        wf(v@),
    ensures
        final(out)@ == old(out)@ + json_value(canon(v@)),
    decreases v,
{
    match v {
        Value::Null => {
            out.push('n');
            out.push('u');
            out.push('l');
            out.push('l');
            proof {
                assert(out@ =~= old(out)@ + json_value(canon(v@)));
            }
        },
        Value::Bool(b) => {
            if *b {
                out.push('t');
                out.push('r');
                out.push('u');
                out.push('e');
            } else {
                out.push('f');
                out.push('a');
                out.push('l');
                out.push('s');
                out.push('e');
            }
            proof {
                assert(out@ =~= old(out)@ + json_value(canon(v@)));
            }
        },
        Value::Num(s) => {
            push_str_chars(out, s.as_str());
        },
        Value::Str(s) => {
            out.push('"');
            push_escaped(out, s.as_str());
            out.push('"');
            proof {
                assert(out@ =~= old(out)@ + json_value(canon(v@)));
            }
        },
        Value::Arr(items) => {
            proof {
                lemma_view_items(items@);
                crate::value::lemma_canon_items(view_items(items@));
            }
            let ghost citems = crate::value::canon_items(view_items(items@));
            out.push('[');
            let ghost base = out@;
            let mut i: usize = 0;
            while i < items.len()
                invariant
                    i <= items@.len(),
                    base + json_items(citems, 0) == out@ + json_items(citems, i as int),
                decreases items@.len() - i,
            {
                proof {
                    assert(decreases_to!(*v => v->Arr_0));
                    assert(decreases_to!(*items => items@));
                    assert(decreases_to!(items@ => items@[i as int]));
                    assert(wf(items@[i as int]@));
                    assert(citems[i as int] == canon(items@[i as int]@));
                }
                encode_json_value(out, &items[i]);
                if i + 1 < items.len() {
                    out.push(',');
                }
                proof {
                    assert(base + json_items(citems, 0) =~= out@ + json_items(
                        citems,
                        i as int + 1,
                    ));
                }
                i = i + 1;
            }
            out.push(']');
            proof {
                assert(json_items(citems, items@.len() as int) =~= Seq::<char>::empty());
                assert(out@ =~= old(out)@ + json_value(canon(v@)));
            }
        },
        Value::Obj(es) => {
            proof {
                lemma_view_entries(es@);
                lemma_canon_entries(view_entries(es@));
            }
            let ghost target = sort_entries(canon_entries(view_entries(es@)));
            let idxs = sorted_indices(es);
            out.push('{');
            let ghost base = out@;
            let mut i: usize = 0;
            while i < idxs.len()
                invariant
                    i <= idxs@.len(),
                    base + json_entries(target, 0) == out@ + json_entries(target, i as int),
                decreases idxs@.len() - i,
            {
                let t = idxs[i];
                proof {
                    assert(target[i as int] == (es@[t as int].0@, canon(es@[t as int].1@)));
                    assert(view_entries(es@)[t as int] == (es@[t as int].0@, es@[t as int].1@));
                    assert(wf(es@[t as int].1@));
                }
                out.push('"');
                push_escaped(out, es[t].0.as_str());
                out.push('"');
                out.push(':');
                proof {
                    assert(decreases_to!(*v => v->Obj_0));
                    assert(decreases_to!(*es => es@));
                    assert(decreases_to!(es@ => es@[t as int]));
                    assert(decreases_to!(es@[t as int] => es@[t as int].1));
                }
                encode_json_value(out, &es[t].1);
                if i + 1 < idxs.len() {
                    out.push(',');
                }
                proof {
                    assert(base + json_entries(target, 0) =~= out@ + json_entries(
                        target,
                        i as int + 1,
                    ));
                }
                i = i + 1;
            }
            out.push('}');
            proof {
                assert(json_entries(target, target.len() as int) =~= Seq::<char>::empty());
                assert(out@ =~= old(out)@ + json_value(canon(v@)));
            }
        },
    }
}

/// How one cell value prints inline: scalars by the ordinary literal and
/// quoting rules, nested arrays and objects as single-line JSON.
pub open spec fn cell_text(x: SpecValue) -> Seq<char> {
    match x {
        SpecValue::Null => kw_null(),
        SpecValue::Bool(b) => if b {
            kw_true()
        } else {
            kw_false()
        },
        SpecValue::Num(s) => s,
        SpecValue::Str(s) => txt_string(s),
        SpecValue::Arr(_) => json_value(x),
        SpecValue::Obj(_) => json_value(x),
    }
}

/// The cells of one row in the text rendering: one per key, in key order, a
/// missing key printing as null; a row that is not an object prints empty.
pub open spec fn row_text(v: SpecValue, keys: Seq<Seq<char>>, j: int) -> Seq<char>
    decreases keys.len() - j,
{
    if j < 0 || j >= keys.len() {
        Seq::empty()
    } else {
        (match v {
            SpecValue::Obj(es) => match lookup_key(es, keys[j]) {
                Some(x) => cell_text(canon(x)),
                None => kw_null(),
            },
            _ => Seq::empty(),
        }) + (if j + 1 < keys.len() {
            seq![',', ' ']
        } else {
            Seq::empty()
        }) + row_text(v, keys, j + 1)
    }
}

/// The header keys, comma-separated, each quoted when it must be.
pub open spec fn hdr_text(keys: Seq<Seq<char>>, j: int) -> Seq<char>
    decreases keys.len() - j,
{
    if j < 0 || j >= keys.len() {
        Seq::empty()
    } else {
        txt_string(keys[j]) + (if j + 1 < keys.len() {
            seq![',', ' ']
        } else {
            Seq::empty()
        }) + hdr_text(keys, j + 1)
    }
}

/// The row lines of the text rendering from row `i` on.
pub open spec fn rows_text(items: Seq<SpecValue>, i: int, keys: Seq<Seq<char>>, ind: nat) -> Seq<
    char,
>
    decreases items.len() - i,
{
    if i < 0 || i >= items.len() {
        Seq::empty()
    } else {
        spaces(ind) + row_text(items[i], keys, 0) + (if i + 1 < items.len() {
            seq![',']
        } else {
            Seq::empty()
        }) + seq!['\n'] + rows_text(items, i + 1, keys, ind)
    }
}

/// The whole tabular text document for a non-empty uniform array.
pub open spec fn tab_text(items: Seq<SpecValue>, keys: Seq<Seq<char>>, ind: nat) -> Seq<char> {
    seq!['[', '\n'] + spaces(ind) + seq!['#', ' '] + hdr_text(keys, 0) + seq!['\n'] + rows_text(
        items,
        0,
        keys,
        ind,
    ) + seq![']']
}

/// The sorted keys of the first row: the table's columns.
pub open spec fn spec_columns(items: Seq<SpecValue>) -> Seq<Seq<char>> {
    let sorted = sort_entries(canon_entries(items[0]->Obj_0));
    Seq::new(sorted.len(), |j: int| sorted[j].0)
}

/// The columns of the table, as strings: the first row's keys in sorted
/// order.
#[verifier::loop_isolation(false)]
fn extract_keys(es: &Vec<(String, Value)>) -> (keys: Vec<String>)
    requires
        crate::value::keys_unique(view_entries(es@)),
    ensures
        Seq::new(keys@.len(), |j: int| keys@[j]@) == Seq::new(
            sort_entries(canon_entries(view_entries(es@))).len(),
            |j: int| sort_entries(canon_entries(view_entries(es@)))[j].0,
        ),
        keys@.len() == es@.len(),
{
    proof {
        lemma_view_entries(es@);
        lemma_canon_entries(view_entries(es@));
    }
    let ghost target = sort_entries(canon_entries(view_entries(es@)));
    let idxs = sorted_indices(es);
    let mut keys: Vec<String> = Vec::new();
    let mut i: usize = 0;
    while i < idxs.len()
        invariant
            i <= idxs@.len(),
            keys@.len() == i,
            forall|j: int| 0 <= j < i ==> (#[trigger] keys@[j])@ == target[j].0,
        decreases idxs@.len() - i,
    {
        let t = idxs[i];
        proof {
            assert(target[i as int] == (es@[t as int].0@, canon(es@[t as int].1@)));
        }
        keys.push(es[t].0.clone());
        i = i + 1;
    }
    proof {
        assert(Seq::new(keys@.len(), |j: int| keys@[j]@) =~= Seq::new(
            target.len(),
            |j: int| target[j].0,
        ));
    }
    keys
}

/// Look a key up among an object's entries, first match.
#[verifier::loop_isolation(false)]
fn find_value<'a>(es: &'a Vec<(String, Value)>, k: &String) -> (r: Option<&'a Value>)
    ensures
        match r {
            Some(x) => lookup_key(view_entries(es@), k@) == Some(x@),
            None => lookup_key(view_entries(es@), k@) is None,
        },
{
    proof {
        lemma_view_entries(es@);
        assert(view_entries(es@).skip(0) =~= view_entries(es@));
    }
    let mut i: usize = 0;
    while i < es.len()
        invariant
            i <= es@.len(),
            forall|t: int| 0 <= t < i ==> view_entries(es@)[t].0 != k@,
            lookup_key(view_entries(es@), k@) == lookup_key(
                view_entries(es@).skip(i as int),
                k@,
            ),
        decreases es@.len() - i,
    {
        proof {
            assert(view_entries(es@).skip(i as int)[0] == view_entries(es@)[i as int]);
            assert(view_entries(es@).skip(i as int).skip(1) =~= view_entries(es@).skip(
                i as int + 1,
            ));
        }
        if es[i].0 == *k {
            return Some(&es[i].1);
        }
        i = i + 1;
    }
    proof {
        assert(view_entries(es@).skip(es@.len() as int).len() == 0);
    }
    None
}

/// Append one cell value inline: scalars by the ordinary rules, nested
/// collections as single-line JSON.
fn append_value_inline(out: &mut Vec<char>, x: &Value)
    requires
        wf(x@),
    ensures
        final(out)@ == old(out)@ + cell_text(canon(x@)),
{
    match x {
        Value::Null => {
            out.push('n');
            out.push('u');
            out.push('l');
            out.push('l');
            proof {
                assert(out@ =~= old(out)@ + cell_text(canon(x@)));
            }
        },
        Value::Bool(b) => {
            if *b {
                out.push('t');
                out.push('r');
                out.push('u');
                out.push('e');
            } else {
                out.push('f');
                out.push('a');
                out.push('l');
                out.push('s');
                out.push('e');
            }
            proof {
                assert(out@ =~= old(out)@ + cell_text(canon(x@)));
            }
        },
        Value::Num(s) => {
            push_str_chars(out, s.as_str());
        },
        Value::Str(s) => {
            crate::codec::text::encode_string(out, s.as_str());
        },
        Value::Arr(_) => {
            encode_json_value(out, x);
        },
        Value::Obj(_) => {
            encode_json_value(out, x);
        },
    }
}

/// Render a non-empty uniform array in the tabular text layout: a `# k1,
/// k2` header, then one row per element; an empty array prints as `[]`.
#[verifier::loop_isolation(false)]
#[verifier::rlimit(100)]
pub fn encode_tabular_text(arr: &[Value], indent: u8) -> (r: Vec<u8>)
    requires
        wf(SpecValue::Arr(view_items(arr@))),
        arr@.len() == 0 || spec_uniform(view_items(arr@)),
    ensures
        arr@.len() == 0 ==> r@ == encode_utf8(seq!['[', ']']),
        arr@.len() > 0 ==> r@ == encode_utf8(
            tab_text(view_items(arr@), spec_columns(view_items(arr@)), indent as nat),
        ),
{
    proof {
        lemma_view_items(arr@);
    }
    let mut out: Vec<char> = Vec::new();
    if arr.len() == 0 {
        out.push('[');
        out.push(']');
        proof {
            assert(out@ =~= seq!['[', ']']);
        }
        let s = chars_to_string(&out);
        return s.as_str().as_bytes_vec();
    }
    let ghost vitems = view_items(arr@);
    let es0 = match &arr[0] {
        Value::Obj(es) => es,
        _ => {
            proof {
                assert(false);
            }
            return Vec::new();
        },
    };
    proof {
        assert(vitems[0] == arr@[0]@);
        crate::value::lemma_wf_arr(view_items(arr@));
        assert(wf(vitems[0]));
    }
    proof {
        assert(vitems[0]->Obj_0 == view_entries(es0@));
    }
    let keys = extract_keys(es0);
    let ghost gkeys = spec_columns(vitems);
    proof {
        assert(gkeys == Seq::new(
            sort_entries(canon_entries(view_entries(es0@))).len(),
            |j: int| sort_entries(canon_entries(view_entries(es0@)))[j].0,
        ));
        assert(gkeys =~= Seq::new(keys@.len(), |j: int| keys@[j]@));
    }
    out.push('[');
    out.push('\n');
    let ind = indent as usize;
    let mut k: usize = 0;
    while k < ind
        invariant
            k <= ind,
            out@ == seq!['[', '\n'] + spaces(k as nat),
        decreases ind - k,
    {
        out.push(' ');
        proof {
            assert(out@ =~= seq!['[', '\n'] + spaces(k as nat + 1));
        }
        k = k + 1;
    }
    out.push('#');
    out.push(' ');
    let ghost hbase = out@;
    let mut j: usize = 0;
    while j < keys.len()
        invariant
            j <= keys@.len(),
            hbase + hdr_text(gkeys, 0) == out@ + hdr_text(gkeys, j as int),
        decreases keys@.len() - j,
    {
        proof {
            assert(gkeys[j as int] == keys@[j as int]@);
        }
        crate::codec::text::encode_string(&mut out, keys[j].as_str());
        if j + 1 < keys.len() {
            out.push(',');
            out.push(' ');
        }
        proof {
            assert(hbase + hdr_text(gkeys, 0) =~= out@ + hdr_text(gkeys, j as int + 1));
        }
        j = j + 1;
    }
    out.push('\n');
    proof {
        assert(hdr_text(gkeys, keys@.len() as int) =~= Seq::<char>::empty());
    }
    let ghost rbase = out@;
    let mut i: usize = 0;
    while i < arr.len()
        invariant
            i <= arr@.len(),
            rbase + rows_text(vitems, 0, gkeys, indent as nat) == out@ + rows_text(
                vitems,
                i as int,
                gkeys,
                indent as nat,
            ),
        decreases arr@.len() - i,
    {
        let mut k2: usize = 0;
        let ghost linebase = out@;
        while k2 < ind
            invariant
                k2 <= ind,
                out@ == linebase + spaces(k2 as nat),
            decreases ind - k2,
        {
            out.push(' ');
            proof {
                assert(out@ =~= linebase + spaces(k2 as nat + 1));
            }
            k2 = k2 + 1;
        }
        match &arr[i] {
            Value::Obj(es) => {
                proof {
                    assert(vitems[i as int] == arr@[i as int]@);
                    crate::value::lemma_wf_arr(view_items(arr@));
                    assert(wf(vitems[i as int]));
                }
                let ghost cellbase = out@;
                let mut j2: usize = 0;
                while j2 < keys.len()
                    invariant
                        j2 <= keys@.len(),
                        cellbase + row_text(vitems[i as int], gkeys, 0) == out@ + row_text(
                            vitems[i as int],
                            gkeys,
                            j2 as int,
                        ),
                        vitems[i as int] == SpecValue::Obj(view_entries(es@)),
                        wf(vitems[i as int]),
                        i < arr@.len(),
                    decreases keys@.len() - j2,
                {
                    proof {
                        assert(gkeys[j2 as int] == keys@[j2 as int]@);
                    }
                    match find_value(es, &keys[j2]) {
                        Some(x) => {
                            proof {
                                lemma_lookup_wf(view_entries(es@), keys@[j2 as int]@);
                            }
                            append_value_inline(&mut out, x);
                        },
                        None => {
                            out.push('n');
                            out.push('u');
                            out.push('l');
                            out.push('l');
                        },
                    }
                    if j2 + 1 < keys.len() {
                        out.push(',');
                        out.push(' ');
                    }
                    proof {
                        assert(cellbase + row_text(vitems[i as int], gkeys, 0) =~= out@
                            + row_text(vitems[i as int], gkeys, j2 as int + 1));
                    }
                    j2 = j2 + 1;
                }
                proof {
                    assert(row_text(vitems[i as int], gkeys, keys@.len() as int) =~= Seq::<
                        char,
                    >::empty());
                }
            },
            _ => {
                proof {
                    assert(vitems[i as int] == arr@[i as int]@);
                    assert(false);
                }
            },
        }
        if i + 1 < arr.len() {
            out.push(',');
        }
        out.push('\n');
        proof {
            assert(rbase + rows_text(vitems, 0, gkeys, indent as nat) =~= out@ + rows_text(
                vitems,
                i as int + 1,
                gkeys,
                indent as nat,
            ));
        }
        i = i + 1;
    }
    out.push(']');
    proof {
        assert(rows_text(vitems, arr@.len() as int, gkeys, indent as nat) =~= Seq::<
            char,
        >::empty());
        assert(out@ =~= tab_text(vitems, gkeys, indent as nat));
    }
    let s = chars_to_string(&out);
    s.as_str().as_bytes_vec()
}

/// A cell payload that fits its 32-bit length field.
pub open spec fn cell_fits(x: SpecValue) -> bool {
    match x {
        SpecValue::Num(s) => utf8_len(s) <= u32::MAX,
        SpecValue::Str(s) => utf8_len(s) <= u32::MAX,
        SpecValue::Arr(_) => utf8_len(json_value(x)) <= u32::MAX,
        SpecValue::Obj(_) => utf8_len(json_value(x)) <= u32::MAX,
        _ => true,
    }
}

/// Every count, key and cell of the binary table fits its 32-bit field.
pub open spec fn tab_bin_fits(items: Seq<SpecValue>, keys: Seq<Seq<char>>) -> bool {
    &&& items.len() <= u32::MAX
    &&& keys.len() <= u32::MAX
    &&& forall|j: int| 0 <= j < keys.len() ==> utf8_len(#[trigger] keys[j]) <= u32::MAX
    &&& forall|i: int, j: int|
        0 <= i < items.len() && 0 <= j < keys.len() && (#[trigger] items[i]) is Obj
            ==> match lookup_key(items[i]->Obj_0, #[trigger] keys[j]) {
            Some(x) => cell_fits(canon(x)),
            None => true,
        }
}

/// The binary form of one cell: the ordinary tag scheme, except that nested
/// arrays and objects ride as a string tag carrying their JSON text.
pub open spec fn bin_cell(x: SpecValue) -> Seq<u8> {
    match x {
        SpecValue::Null => seq![TAG_NULL],
        SpecValue::Bool(b) => if b {
            seq![TAG_TRUE]
        } else {
            seq![TAG_FALSE]
        },
        SpecValue::Num(s) => seq![TAG_NUMBER] + bin_string(s),
        SpecValue::Str(s) => seq![TAG_STRING] + bin_string(s),
        SpecValue::Arr(_) => seq![TAG_STRING] + bin_string(json_value(x)),
        SpecValue::Obj(_) => seq![TAG_STRING] + bin_string(json_value(x)),
    }
}

/// The binary cells of one row from column `j` on.
pub open spec fn bin_row(v: SpecValue, keys: Seq<Seq<char>>, j: int) -> Seq<u8>
    decreases keys.len() - j,
{
    if j < 0 || j >= keys.len() {
        Seq::empty()
    } else {
        (match v {
            SpecValue::Obj(es) => match lookup_key(es, keys[j]) {
                Some(x) => bin_cell(canon(x)),
                None => seq![TAG_NULL],
            },
            _ => Seq::empty(),
        }) + bin_row(v, keys, j + 1)
    }
}

/// The binary rows from row `i` on.
pub open spec fn bin_rows(items: Seq<SpecValue>, i: int, keys: Seq<Seq<char>>) -> Seq<u8>
    decreases items.len() - i,
{
    if i < 0 || i >= items.len() {
        Seq::empty()
    } else {
        bin_row(items[i], keys, 0) + bin_rows(items, i + 1, keys)
    }
}

/// The length-prefixed header keys from `j` on.
pub open spec fn bin_keys(keys: Seq<Seq<char>>, j: int) -> Seq<u8>
    decreases keys.len() - j,
{
    if j < 0 || j >= keys.len() {
        Seq::empty()
    } else {
        bin_string(keys[j]) + bin_keys(keys, j + 1)
    }
}

/// The whole tabular binary document for a non-empty uniform array.
pub open spec fn tab_bin(items: Seq<SpecValue>, keys: Seq<Seq<char>>) -> Seq<u8> {
    crate::codec::compact::tab_magic() + le32(keys.len()) + bin_keys(keys, 0) + le32(items.len())
        + bin_rows(items, 0, keys)
}

/// Append the binary form of one cell value.
fn encode_compact_value(buf: &mut Vec<u8>, x: &Value)
    requires
        wf(x@),
        cell_fits(canon(x@)),
    ensures
        final(buf)@ == old(buf)@ + bin_cell(canon(x@)),
{
    match x {
        Value::Null => {
            buf.push(TAG_NULL);
            proof {
                assert(buf@ =~= old(buf)@ + bin_cell(canon(x@)));
            }
        },
        Value::Bool(b) => {
            buf.push(if *b { TAG_TRUE } else { TAG_FALSE });
            proof {
                assert(buf@ =~= old(buf)@ + bin_cell(canon(x@)));
            }
        },
        Value::Num(s) => {
            buf.push(TAG_NUMBER);
            write_string(buf, s.as_str());
            proof {
                assert(buf@ =~= old(buf)@ + bin_cell(canon(x@)));
            }
        },
        Value::Str(s) => {
            buf.push(TAG_STRING);
            write_string(buf, s.as_str());
            proof {
                assert(buf@ =~= old(buf)@ + bin_cell(canon(x@)));
            }
        },
        Value::Arr(_) => {
            buf.push(TAG_STRING);
            let mut jc: Vec<char> = Vec::new();
            encode_json_value(&mut jc, x);
            proof {
                assert(jc@ =~= json_value(canon(x@)));
            }
            let js = chars_to_string(&jc);
            write_string(buf, js.as_str());
            proof {
                assert(buf@ =~= old(buf)@ + bin_cell(canon(x@)));
            }
        },
        Value::Obj(_) => {
            buf.push(TAG_STRING);
            let mut jc: Vec<char> = Vec::new();
            encode_json_value(&mut jc, x);
            proof {
                assert(jc@ =~= json_value(canon(x@)));
            }
            let js = chars_to_string(&jc);
            write_string(buf, js.as_str());
            proof {
                assert(buf@ =~= old(buf)@ + bin_cell(canon(x@)));
            }
        },
    }
}

/// Render a non-empty uniform array in the tabular binary layout; an empty
/// array renders as the two text bytes `[]`.
#[verifier::loop_isolation(false)]
#[verifier::rlimit(100)]
pub fn encode_tabular_compact(arr: &[Value]) -> (r: Vec<u8>)
    requires
        wf(SpecValue::Arr(view_items(arr@))),
        arr@.len() == 0 || spec_uniform(view_items(arr@)),
        arr@.len() > 0 ==> tab_bin_fits(view_items(arr@), spec_columns(view_items(arr@))),
    ensures
        arr@.len() == 0 ==> r@ == seq![91u8, 93u8],
        arr@.len() > 0 ==> r@ == tab_bin(view_items(arr@), spec_columns(view_items(arr@))),
{
    proof {
        lemma_view_items(arr@);
    }
    let mut buf: Vec<u8> = Vec::new();
    if arr.len() == 0 {
        buf.push(91);
        buf.push(93);
        proof {
            assert(buf@ =~= seq![91u8, 93u8]);
        }
        return buf;
    }
    let ghost vitems = view_items(arr@);
    let es0 = match &arr[0] {
        Value::Obj(es) => es,
        _ => {
            proof {
                assert(false);
            }
            return Vec::new();
        },
    };
    proof {
        assert(vitems[0] == arr@[0]@);
        crate::value::lemma_wf_arr(view_items(arr@));
        assert(wf(vitems[0]));
    }
    proof {
        assert(vitems[0]->Obj_0 == view_entries(es0@));
    }
    let keys = extract_keys(es0);
    let ghost gkeys = spec_columns(vitems);
    proof {
        assert(gkeys == Seq::new(
            sort_entries(canon_entries(view_entries(es0@))).len(),
            |j: int| sort_entries(canon_entries(view_entries(es0@)))[j].0,
        ));
        assert(gkeys =~= Seq::new(keys@.len(), |j: int| keys@[j]@));
    }
    buf.push(84);
    buf.push(79);
    buf.push(79);
    buf.push(78);
    buf.push(45);
    buf.push(84);
    buf.push(65);
    buf.push(66);
    buf.push(1);
    proof {
        assert(buf@ =~= crate::codec::compact::tab_magic());
    }
    write_u32(&mut buf, keys.len() as u32);
    let ghost kbase = buf@;
    let mut j: usize = 0;
    while j < keys.len()
        invariant
            j <= keys@.len(),
            kbase + bin_keys(gkeys, 0) == buf@ + bin_keys(gkeys, j as int),
        decreases keys@.len() - j,
    {
        proof {
            assert(gkeys[j as int] == keys@[j as int]@);
        }
        write_string(&mut buf, keys[j].as_str());
        proof {
            assert(kbase + bin_keys(gkeys, 0) =~= buf@ + bin_keys(gkeys, j as int + 1));
        }
        j = j + 1;
    }
    proof {
        assert(bin_keys(gkeys, keys@.len() as int) =~= Seq::<u8>::empty());
    }
    write_u32(&mut buf, arr.len() as u32);
    let ghost rbase = buf@;
    let mut i: usize = 0;
    while i < arr.len()
        invariant
            i <= arr@.len(),
            rbase + bin_rows(vitems, 0, gkeys) == buf@ + bin_rows(vitems, i as int, gkeys),
        decreases arr@.len() - i,
    {
        match &arr[i] {
            Value::Obj(es) => {
                proof {
                    assert(vitems[i as int] == arr@[i as int]@);
                    crate::value::lemma_wf_arr(view_items(arr@));
                    assert(wf(vitems[i as int]));
                }
                let ghost cellbase = buf@;
                let mut j2: usize = 0;
                while j2 < keys.len()
                    invariant
                        j2 <= keys@.len(),
                        cellbase + bin_row(vitems[i as int], gkeys, 0) == buf@ + bin_row(
                            vitems[i as int],
                            gkeys,
                            j2 as int,
                        ),
                        vitems[i as int] == SpecValue::Obj(view_entries(es@)),
                        wf(vitems[i as int]),
                        i < arr@.len(),
                    decreases keys@.len() - j2,
                {
                    proof {
                        assert(gkeys[j2 as int] == keys@[j2 as int]@);
                    }
                    match find_value(es, &keys[j2]) {
                        Some(x) => {
                            proof {
                                lemma_lookup_wf(view_entries(es@), keys@[j2 as int]@);
                            }
                            encode_compact_value(&mut buf, x);
                        },
                        None => {
                            buf.push(TAG_NULL);
                        },
                    }
                    proof {
                        assert(cellbase + bin_row(vitems[i as int], gkeys, 0) =~= buf@ + bin_row(
                            vitems[i as int],
                            gkeys,
                            j2 as int + 1,
                        ));
                    }
                    j2 = j2 + 1;
                }
                proof {
                    assert(bin_row(vitems[i as int], gkeys, keys@.len() as int) =~= Seq::<
                        u8,
                    >::empty());
                }
            },
            _ => {
                proof {
                    assert(vitems[i as int] == arr@[i as int]@);
                    assert(false);
                }
            },
        }
        proof {
            assert(rbase + bin_rows(vitems, 0, gkeys) =~= buf@ + bin_rows(
                vitems,
                i as int + 1,
                gkeys,
            ));
        }
        i = i + 1;
    }
    proof {
        assert(bin_rows(vitems, arr@.len() as int, gkeys) =~= Seq::<u8>::empty());
        assert(buf@ =~= tab_bin(vitems, gkeys));
    }
    buf
}

} // verus!
