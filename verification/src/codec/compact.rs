//! The compact binary layout: a five-byte magic prefix, then one tag byte
//! per value followed by a tag-specific payload; lengths and counts are
//! 32-bit little-endian.

use vstd::prelude::*;
use vstd::utf8::encode_utf8;
use crate::value::{
    canon, canon_entries, canon_items, entries_at, entries_sorted, entry_insert,
    lemma_canon_entries, lemma_canon_items, lemma_view_entries, lemma_view_items,
    lemma_view_items_push, obj_insert, sort_entries, sorted_indices, view_entries, view_items,
    SpecValue, Value, wf,
};
use crate::trusted::{bytes_to_string, canonical_number};
use crate::DecodeError;

verus! {

broadcast use {
    vstd::seq::axiom_seq_index_decreases,
    vstd::seq_lib::lemma_seq_skip_index,
    vstd::seq_lib::lemma_seq_skip_len,
    vstd::seq_lib::lemma_seq_take_index,
    vstd::seq_lib::lemma_seq_take_len,
    vstd::std_specs::vec::axiom_vec_decreases_to_view,
    vstd::std_specs::vec::axiom_vec_index_decreases,
};

pub const TAG_NULL: u8 = 0;

pub const TAG_FALSE: u8 = 1;

pub const TAG_TRUE: u8 = 2;

pub const TAG_NUMBER: u8 = 3;

pub const TAG_STRING: u8 = 4;

pub const TAG_ARRAY: u8 = 5;

pub const TAG_OBJECT: u8 = 6;

/// The magic prefix of an ordinary compact document: `TOON\x01`.
pub open spec fn magic() -> Seq<u8> {
    seq![84u8, 79u8, 79u8, 78u8, 1u8]
}

/// The four little-endian bytes of a 32-bit length or count.
pub open spec fn le32(n: nat) -> Seq<u8> {
    seq![
        (n % 256) as u8,
        ((n / 256) % 256) as u8,
        ((n / 65536) % 256) as u8,
        ((n / 16777216) % 256) as u8,
    ]
}

/// Byte length of the UTF-8 encoding of `s`.
pub open spec fn utf8_len(s: Seq<char>) -> nat {
    encode_utf8(s).len()
}

/// A length-prefixed UTF-8 string payload.
pub open spec fn bin_string(s: Seq<char>) -> Seq<u8> {
    le32(utf8_len(s)) + encode_utf8(s)
}

/// The compact encoding of one value (without the document magic). Object
/// entries are emitted as given: the encoder hands this function the
/// canonical form, whose keys are sorted.
pub open spec fn bin_value(v: SpecValue) -> Seq<u8>
    decreases v,
{
    match v {
        SpecValue::Null => seq![TAG_NULL],
        SpecValue::Bool(b) => if b {
            seq![TAG_TRUE]
        } else {
            seq![TAG_FALSE]
        },
        SpecValue::Num(s) => seq![TAG_NUMBER] + bin_string(s),
        SpecValue::Str(s) => seq![TAG_STRING] + bin_string(s),
        SpecValue::Arr(items) => seq![TAG_ARRAY] + le32(items.len()) + bin_items(items, 0),
        SpecValue::Obj(es) => seq![TAG_OBJECT] + le32(es.len()) + bin_entries(es, 0),
    }
}

/// The concatenated encodings of the items of `items` from position `i` on.
pub open spec fn bin_items(items: Seq<SpecValue>, i: int) -> Seq<u8>
    decreases items, items.len() - i,
{
    if i < 0 || i >= items.len() {
        Seq::empty()
    } else {
        bin_value(items[i]) + bin_items(items, i + 1)
    }
}

/// The concatenated key/value encodings of the entries of `es` from
/// position `i` on.
pub open spec fn bin_entries(es: Seq<(Seq<char>, SpecValue)>, i: int) -> Seq<u8>
    decreases es, es.len() - i,
{
    if i < 0 || i >= es.len() {
        Seq::empty()
    } else {
        bin_string(es[i].0) + bin_value(es[i].1) + bin_entries(es, i + 1)
    }
}

/// Every string, key, array and object in `v` is small enough for its
/// 32-bit length or count field.
pub open spec fn fits(v: SpecValue) -> bool
    decreases v,
{
    match v {
        SpecValue::Num(s) => utf8_len(s) <= u32::MAX,
        SpecValue::Str(s) => utf8_len(s) <= u32::MAX,
        SpecValue::Arr(items) => items.len() <= u32::MAX && fits_items(items, 0),
        SpecValue::Obj(es) => es.len() <= u32::MAX && fits_entries(es, 0),
        _ => true,
    }
}

/// All items from position `i` on fit.
pub open spec fn fits_items(items: Seq<SpecValue>, i: int) -> bool
    decreases items, items.len() - i,
{
    if i < 0 || i >= items.len() {
        true
    } else {
        fits(items[i]) && fits_items(items, i + 1)
    }
}

/// All entries from position `i` on fit.
pub open spec fn fits_entries(es: Seq<(Seq<char>, SpecValue)>, i: int) -> bool
    decreases es, es.len() - i,
{
    if i < 0 || i >= es.len() {
        true
    } else {
        utf8_len(es[i].0) <= u32::MAX && fits(es[i].1) && fits_entries(es, i + 1)
    }
}

/// Pointwise reading of `fits_items` and `fits_entries`.
pub proof fn lemma_fits_items(items: Seq<SpecValue>, i: int)
    requires
        fits_items(items, i),
        0 <= i,
    ensures
        forall|j: int| i <= j < items.len() ==> fits(#[trigger] items[j]),
    decreases items.len() - i,
{
    if i < items.len() {
        lemma_fits_items(items, i + 1);
    }
}

/// Pointwise reading of `fits_entries`.
pub proof fn lemma_fits_entries(es: Seq<(Seq<char>, SpecValue)>, i: int)
    requires
        fits_entries(es, i),
        0 <= i,
    ensures
        forall|j: int|
            i <= j < es.len() ==> utf8_len((#[trigger] es[j]).0) <= u32::MAX && fits(es[j].1),
    decreases es.len() - i,
{
    if i < es.len() {
        lemma_fits_entries(es, i + 1);
    }
}

/// Append the four little-endian bytes of `val`.
pub fn write_u32(buf: &mut Vec<u8>, val: u32)
    ensures
        final(buf)@ == old(buf)@ + le32(val as nat),
{
    buf.push((val % 256) as u8);
    buf.push(((val / 256) % 256) as u8);
    buf.push(((val / 65536) % 256) as u8);
    buf.push(((val / 16777216) % 256) as u8);
    proof {
        assert(buf@ =~= old(buf)@ + le32(val as nat));
    }
}

/// Append a length-prefixed UTF-8 string payload.
pub fn write_string(buf: &mut Vec<u8>, s: &str)
    requires
        utf8_len(s@) <= u32::MAX,
    ensures
        final(buf)@ == old(buf)@ + bin_string(s@),
{
    let n = s.len();
    write_u32(buf, n as u32);
    let mut bytes = s.as_bytes_vec();
    buf.append(&mut bytes);
    proof {
        assert(buf@ =~= old(buf)@ + bin_string(s@));
    }
}

/// Append the compact encoding of `v` in canonical form.
#[verifier::loop_isolation(false)]
#[verifier::rlimit(50)]
pub fn encode_value(buf: &mut Vec<u8>, v: &Value)
    requires
        wf(v@),
        fits(v@),
    ensures
        final(buf)@ == old(buf)@ + bin_value(canon(v@)),
    decreases v,
{
    match v {
        Value::Null => {
            buf.push(TAG_NULL);
            proof {
                assert(buf@ =~= old(buf)@ + bin_value(canon(v@)));
            }
        },
        Value::Bool(b) => {
            buf.push(if *b { TAG_TRUE } else { TAG_FALSE });
            proof {
                assert(buf@ =~= old(buf)@ + bin_value(canon(v@)));
            }
        },
        Value::Num(s) => {
            buf.push(TAG_NUMBER);
            write_string(buf, s.as_str());
            proof {
                assert(buf@ =~= old(buf)@ + bin_value(canon(v@)));
            }
        },
        Value::Str(s) => {
            buf.push(TAG_STRING);
            write_string(buf, s.as_str());
            proof {
                assert(buf@ =~= old(buf)@ + bin_value(canon(v@)));
            }
        },
        Value::Arr(items) => {
            proof {
                lemma_view_items(items@);
                lemma_canon_items(view_items(items@));
                lemma_fits_items(view_items(items@), 0);
            }
            let ghost citems = canon_items(view_items(items@));
            buf.push(TAG_ARRAY);
            write_u32(buf, items.len() as u32);
            let ghost base = buf@;
            let mut i: usize = 0;
            while i < items.len()
                invariant
                    i <= items@.len(),
                    base + bin_items(citems, 0) == buf@ + bin_items(citems, i as int),
                decreases items@.len() - i,
            {
                proof {
                    assert(wf(items@[i as int]@) && fits(items@[i as int]@));
                    assert(citems[i as int] == canon(items@[i as int]@));
                    assert(*items == v->Arr_0);
                    assert(decreases_to!(*v => v->Arr_0));
                    assert(decreases_to!(*items => items@));
                    assert(decreases_to!(items@ => items@[i as int]));
                }
                encode_value(buf, &items[i]);
                proof {
                    assert(base + bin_items(citems, 0) =~= buf@ + bin_items(
                        citems,
                        i as int + 1,
                    ));
                }
                i = i + 1;
            }
            proof {
                assert(bin_items(citems, items@.len() as int) =~= Seq::<u8>::empty());
                assert(buf@ =~= buf@ + bin_items(citems, items@.len() as int));
                assert(buf@ =~= old(buf)@ + bin_value(canon(v@)));
            }
        },
        Value::Obj(es) => {
            proof {
                lemma_view_entries(es@);
                lemma_canon_entries(view_entries(es@));
                lemma_fits_entries(view_entries(es@), 0);
            }
            let ghost target = sort_entries(canon_entries(view_entries(es@)));
            let idxs = sorted_indices(es);
            proof {
                assert(target.len() == es@.len());
            }
            buf.push(TAG_OBJECT);
            write_u32(buf, es.len() as u32);
            let ghost base = buf@;
            let mut i: usize = 0;
            while i < idxs.len()
                invariant
                    i <= idxs@.len(),
                    base + bin_entries(target, 0) == buf@ + bin_entries(target, i as int),
                decreases idxs@.len() - i,
            {
                let t = idxs[i];
                proof {
                    assert(view_entries(es@)[t as int] == (es@[t as int].0@, es@[t as int].1@));
                    assert(utf8_len(es@[t as int].0@) <= u32::MAX);
                    assert(wf(es@[t as int].1@) && fits(es@[t as int].1@));
                }
                write_string(buf, es[t].0.as_str());
                proof {
                    assert(*es == v->Obj_0);
                    assert(decreases_to!(*v => v->Obj_0));
                    assert(decreases_to!(*es => es@));
                    assert(decreases_to!(es@ => es@[t as int]));
                    assert(decreases_to!(es@[t as int] => es@[t as int].1));
                }
                encode_value(buf, &es[t].1);
                proof {
                    assert(target[i as int] == (es@[t as int].0@, canon(es@[t as int].1@)));
                    assert(base + bin_entries(target, 0) =~= buf@ + bin_entries(
                        target,
                        i as int + 1,
                    ));
                }
                i = i + 1;
            }
            proof {
                assert(bin_entries(target, es@.len() as int) =~= Seq::<u8>::empty());
                assert(buf@ =~= buf@ + bin_entries(target, es@.len() as int));
                assert(buf@ =~= old(buf)@ + bin_value(canon(v@)));
            }
        },
    }
}

/// Encode `value` in the compact binary layout: the magic prefix, then the
/// canonical form of the value.
pub fn encode(value: &Value) -> (r: Vec<u8>)
    requires
        wf(value@),
        fits(value@),
    ensures
        r@ == magic() + bin_value(canon(value@)),
{
    let mut buf: Vec<u8> = Vec::new();
    buf.push(84);
    buf.push(79);
    buf.push(79);
    buf.push(78);
    buf.push(1);
    proof {
        assert(buf@ =~= magic());
    }
    encode_value(&mut buf, value);
    buf
}

/// The magic prefix of a tabular compact document: `TOON-TAB\x01`.
pub open spec fn tab_magic() -> Seq<u8> {
    seq![84u8, 79u8, 79u8, 78u8, 45u8, 84u8, 65u8, 66u8, 1u8]
}

/// The 32-bit little-endian value stored at position `i`.
pub open spec fn u32_at(b: Seq<u8>, i: int) -> nat {
    (b[i] as nat) + 256 * (b[i + 1] as nat) + 65536 * (b[i + 2] as nat) + 16777216 * (b[i + 3]
        as nat)
}

/// Read a 32-bit length or count at position `i`.
pub open spec fn sp_read_u32(b: Seq<u8>, i: int) -> Result<(nat, int), DecodeError> {
    if i + 4 > b.len() {
        Err(DecodeError::TruncatedBinary)
    } else {
        Ok((u32_at(b, i), i + 4))
    }
}

/// Read a length-prefixed UTF-8 string at position `i`.
pub open spec fn sp_read_str(b: Seq<u8>, i: int) -> Result<(Seq<char>, int), DecodeError> {
    match sp_read_u32(b, i) {
        Err(e) => Err(e),
        Ok((n, j)) => if j + n > b.len() {
            Err(DecodeError::TruncatedBinary)
        } else {
            let bytes = b.subrange(j, j + n);
            if vstd::utf8::valid_utf8(bytes) {
                Ok((vstd::utf8::decode_utf8(bytes), j + n))
            } else {
                Err(DecodeError::InvalidUtf8)
            }
        },
    }
}

/// Parse one compact value at position `i`. The fuel only falls on descent
/// into an array or object, and every descent first consumes five bytes, so
/// a fuel of the buffer length never runs out.
pub open spec fn sp_bin_value(b: Seq<u8>, i: int, f: nat) -> Result<
    (SpecValue, int),
    DecodeError,
>
    decreases f, 0nat, 0nat,
{
    if i >= b.len() {
        Err(DecodeError::TruncatedBinary)
    } else {
        let tag = b[i];
        if tag == TAG_NULL {
            Ok((SpecValue::Null, i + 1))
        } else if tag == TAG_FALSE {
            Ok((SpecValue::Bool(false), i + 1))
        } else if tag == TAG_TRUE {
            Ok((SpecValue::Bool(true), i + 1))
        } else if tag == TAG_NUMBER {
            match sp_read_str(b, i + 1) {
                Err(e) => Err(e),
                Ok((s, j)) => if crate::trusted::is_number_text(s) {
                    Ok((SpecValue::Num(crate::trusted::canon_number(s)), j))
                } else {
                    Err(DecodeError::InvalidNumberText)
                },
            }
        } else if tag == TAG_STRING {
            match sp_read_str(b, i + 1) {
                Err(e) => Err(e),
                Ok((s, j)) => Ok((SpecValue::Str(s), j)),
            }
        } else if tag == TAG_ARRAY {
            match sp_read_u32(b, i + 1) {
                Err(e) => Err(e),
                Ok((n, j)) => if f == 0 {
                    Err(DecodeError::TruncatedBinary)
                } else {
                    sp_bin_items(b, j, n, Seq::empty(), (f - 1) as nat)
                },
            }
        } else if tag == TAG_OBJECT {
            match sp_read_u32(b, i + 1) {
                Err(e) => Err(e),
                Ok((n, j)) => if f == 0 {
                    Err(DecodeError::TruncatedBinary)
                } else {
                    sp_bin_obj(b, j, n, Seq::empty(), (f - 1) as nat)
                },
            }
        } else {
            Err(DecodeError::UnknownTag)
        }
    }
}

/// Parse `n` more array items, the ones already parsed in `acc`.
pub open spec fn sp_bin_items(
    b: Seq<u8>,
    i: int,
    n: nat,
    acc: Seq<SpecValue>,
    f: nat,
) -> Result<(SpecValue, int), DecodeError>
    decreases f, n, 0nat,
{
    if n == 0 {
        Ok((SpecValue::Arr(acc), i))
    } else {
        match sp_bin_value(b, i, f) {
            Err(e) => Err(e),
            Ok((v, j)) => sp_bin_items(b, j, (n - 1) as nat, acc.push(v), f),
        }
    }
}

/// Parse `n` more object entries, map-inserting each into `acc`: keys end
/// up sorted and a later duplicate key wins.
pub open spec fn sp_bin_obj(
    b: Seq<u8>,
    i: int,
    n: nat,
    acc: Seq<(Seq<char>, SpecValue)>,
    f: nat,
) -> Result<(SpecValue, int), DecodeError>
    decreases f, n, 0nat,
{
    if n == 0 {
        Ok((SpecValue::Obj(acc), i))
    } else {
        match sp_read_str(b, i) {
            Err(e) => Err(e),
            Ok((k, j)) => match sp_bin_value(b, j, f) {
                Err(e) => Err(e),
                Ok((v, j2)) => sp_bin_obj(b, j2, (n - 1) as nat, entry_insert(acc, k, v), f),
            },
        }
    }
}

/// Parse `n` more tabular header keys.
pub open spec fn sp_tab_keys(b: Seq<u8>, i: int, n: nat, acc: Seq<Seq<char>>) -> Result<
    (Seq<Seq<char>>, int),
    DecodeError,
>
    decreases n,
{
    if n == 0 {
        Ok((acc, i))
    } else {
        match sp_read_str(b, i) {
            Err(e) => Err(e),
            Ok((k, j)) => sp_tab_keys(b, j, (n - 1) as nat, acc.push(k)),
        }
    }
}

/// Parse `rows` more tabular rows, each one object built from `keys`.
pub open spec fn sp_tab_rows(
    b: Seq<u8>,
    i: int,
    keys: Seq<Seq<char>>,
    rows: nat,
    acc: Seq<SpecValue>,
    f: nat,
) -> Result<(SpecValue, int), DecodeError>
    decreases f, rows, keys.len() + 1,
{
    if rows == 0 {
        Ok((SpecValue::Arr(acc), i))
    } else {
        match sp_tab_cells(b, i, keys, 0, Seq::empty(), rows, f) {
            Err(e) => Err(e),
            Ok((obj, j)) => sp_tab_rows(b, j, keys, (rows - 1) as nat, acc.push(obj), f),
        }
    }
}

/// Parse the remaining cells of one tabular row, from column `idx` on.
pub open spec fn sp_tab_cells(
    b: Seq<u8>,
    i: int,
    keys: Seq<Seq<char>>,
    idx: nat,
    acc: Seq<(Seq<char>, SpecValue)>,
    rows: nat,
    f: nat,
) -> Result<(SpecValue, int), DecodeError>
    decreases f, rows, keys.len() - idx,
{
    if idx >= keys.len() {
        Ok((SpecValue::Obj(acc), i))
    } else {
        match sp_bin_value(b, i, f) {
            Err(e) => Err(e),
            Ok((v, j)) => sp_tab_cells(
                b,
                j,
                keys,
                idx + 1,
                entry_insert(acc, keys[idx as int], v),
                rows,
                f,
            ),
        }
    }
}

/// Parse a tabular compact document body, after its magic prefix.
pub open spec fn sp_tab_doc(b: Seq<u8>) -> Result<SpecValue, DecodeError> {
    match sp_read_u32(b, 9) {
        Err(e) => Err(e),
        Ok((kc, i)) => match sp_tab_keys(b, i, kc, Seq::empty()) {
            Err(e) => Err(e),
            Ok((keys, j)) => match sp_read_u32(b, j) {
                Err(e) => Err(e),
                Ok((rc, j2)) => match sp_tab_rows(b, j2, keys, rc, Seq::empty(), b.len() as nat) {
                    Err(e) => Err(e),
                    Ok((v, _)) => Ok(v),
                },
            },
        },
    }
}

/// What decoding a compact document returns: magic dispatch, then the
/// ordinary or tabular body; trailing bytes are ignored.
pub open spec fn spec_compact_decode(b: Seq<u8>) -> Result<SpecValue, DecodeError> {
    if b.len() < 5 {
        Err(DecodeError::TruncatedBinary)
    } else if b.subrange(0, 5) == magic() {
        match sp_bin_value(b, 5, b.len() as nat) {
            Err(e) => Err(e),
            Ok((v, _)) => Ok(v),
        }
    } else if b.len() >= 9 && b.subrange(0, 9) == tab_magic() {
        sp_tab_doc(b)
    } else {
        Err(DecodeError::InvalidMagic)
    }
}

/// Read a 32-bit little-endian length or count at `pos`.
pub fn read_u32(bytes: &[u8], pos: usize) -> (r: Result<(u32, usize), DecodeError>)
    ensures
        match r {
            Ok(p) => sp_read_u32(bytes@, pos as int) == Ok::<(nat, int), DecodeError>(
                (p.0 as nat, p.1 as int),
            ) && p.1 == pos + 4,
            Err(e) => sp_read_u32(bytes@, pos as int) == Err::<(nat, int), DecodeError>(e),
        },
{
    if pos > bytes.len() || bytes.len() - pos < 4 {
        return Err(DecodeError::TruncatedBinary);
    }
    let v0 = bytes[pos] as u32;
    let v1 = bytes[pos + 1] as u32;
    let v2 = bytes[pos + 2] as u32;
    let v3 = bytes[pos + 3] as u32;
    Ok((v0 + 256 * v1 + 65536 * v2 + 16777216 * v3, pos + 4))
}

/// Read a length-prefixed UTF-8 string at `pos`.
pub fn read_string(bytes: &[u8], pos: usize) -> (r: Result<(String, usize), DecodeError>)
    ensures
        match r {
            Ok(p) => sp_read_str(bytes@, pos as int) == Ok::<(Seq<char>, int), DecodeError>(
                (p.0@, p.1 as int),
            ) && pos <= p.1 <= bytes@.len(),
            Err(e) => sp_read_str(bytes@, pos as int) == Err::<(Seq<char>, int), DecodeError>(e),
        },
{
    let (n32, j) = match read_u32(bytes, pos) {
        Ok(p) => p,
        Err(e) => {
            return Err(e);
        },
    };
    let n = n32 as usize;
    if n > bytes.len() - j {
        return Err(DecodeError::TruncatedBinary);
    }
    let sub = &bytes[j..j + n];
    proof {
        assert(sub@ == bytes@.subrange(j as int, j as int + n as int));
    }
    match bytes_to_string(sub) {
        Some(s) => {
            proof {
                vstd::utf8::encode_utf8_decode_utf8(s@);
            }
            Ok((s, j + n))
        },
        None => Err(DecodeError::InvalidUtf8),
    }
}

/// Parse one compact value at `pos` and return it with the position after
/// it; `fuel` mirrors the specification's descent allowance.
#[verifier::loop_isolation(false)]
#[verifier::rlimit(100)]
fn decode_value(bytes: &[u8], pos: usize, fuel: usize) -> (r: Result<(Value, usize), DecodeError>)
    ensures
        match r {
            Ok(p) => sp_bin_value(bytes@, pos as int, fuel as nat) == Ok::<
                (SpecValue, int),
                DecodeError,
            >((p.0@, p.1 as int)) && p.1 <= bytes@.len(),
            Err(e) => sp_bin_value(bytes@, pos as int, fuel as nat) == Err::<
                (SpecValue, int),
                DecodeError,
            >(e),
        },
    decreases fuel,
{
    if pos >= bytes.len() {
        return Err(DecodeError::TruncatedBinary);
    }
    let tag = bytes[pos];
    if tag == TAG_NULL {
        Ok((Value::Null, pos + 1))
    } else if tag == TAG_FALSE {
        Ok((Value::Bool(false), pos + 1))
    } else if tag == TAG_TRUE {
        Ok((Value::Bool(true), pos + 1))
    } else if tag == TAG_NUMBER {
        match read_string(bytes, pos + 1) {
            Err(e) => Err(e),
            Ok((s, j)) => match canonical_number(s.as_str()) {
                Some(c) => Ok((Value::Num(c), j)),
                None => Err(DecodeError::InvalidNumberText),
            },
        }
    } else if tag == TAG_STRING {
        match read_string(bytes, pos + 1) {
            Err(e) => Err(e),
            Ok((s, j)) => Ok((Value::Str(s), j)),
        }
    } else if tag == TAG_ARRAY {
        let (n, j) = match read_u32(bytes, pos + 1) {
            Ok(p) => p,
            Err(e) => {
                return Err(e);
            },
        };
        if fuel == 0 {
            return Err(DecodeError::TruncatedBinary);
        }
        let ghost f1 = (fuel - 1) as nat;
        let mut acc: Vec<Value> = Vec::new();
        let mut p = j;
        let mut rem = n;
        let ghost gacc: Seq<SpecValue> = Seq::empty();
        let mut items_done: Ghost<Seq<SpecValue>> = Ghost(gacc);
        proof {
            assert(view_items(acc@) =~= items_done@);
        }
        loop
            invariant
                p <= bytes@.len(),
                view_items(acc@) == items_done@,
                sp_bin_items(bytes@, j as int, n as nat, Seq::empty(), f1) == sp_bin_items(
                    bytes@,
                    p as int,
                    rem as nat,
                    items_done@,
                    f1,
                ),
            decreases rem,
        {
            if rem == 0 {
                break;
            }
            match decode_value(bytes, p, fuel - 1) {
                Err(e) => {
                    return Err(e);
                },
                Ok((v, p2)) => {
                    proof {
                        lemma_view_items_push(acc@, v);
                    }
                    proof {
                        items_done@ = items_done@.push(v@);
                    }
                    acc.push(v);
                    p = p2;
                    rem = rem - 1;
                },
            }
        }
        Ok((Value::Arr(acc), p))
    } else if tag == TAG_OBJECT {
        let (n, j) = match read_u32(bytes, pos + 1) {
            Ok(p) => p,
            Err(e) => {
                return Err(e);
            },
        };
        if fuel == 0 {
            return Err(DecodeError::TruncatedBinary);
        }
        let ghost f1 = (fuel - 1) as nat;
        let mut acc: Vec<(String, Value)> = Vec::new();
        let mut p = j;
        let mut rem = n;
        let mut entries_done: Ghost<Seq<(Seq<char>, SpecValue)>> = Ghost(Seq::empty());
        proof {
            assert(view_entries(acc@) =~= entries_done@);
        }
        loop
            invariant
                p <= bytes@.len(),
                view_entries(acc@) == entries_done@,
                entries_sorted(entries_done@),
                sp_bin_obj(bytes@, j as int, n as nat, Seq::empty(), f1) == sp_bin_obj(
                    bytes@,
                    p as int,
                    rem as nat,
                    entries_done@,
                    f1,
                ),
            decreases rem,
        {
            if rem == 0 {
                break;
            }
            let (k, p1) = match read_string(bytes, p) {
                Ok(q) => q,
                Err(e) => {
                    return Err(e);
                },
            };
            match decode_value(bytes, p1, fuel - 1) {
                Err(e) => {
                    return Err(e);
                },
                Ok((v, p2)) => {
                    proof {
                        entries_done@ = entry_insert(entries_done@, k@, v@);
                    }
                    obj_insert(&mut acc, k, v);
                    p = p2;
                    rem = rem - 1;
                },
            }
        }
        Ok((Value::Obj(acc), p))
    } else {
        Err(DecodeError::UnknownTag)
    }
}

/// Parse the body of a tabular compact document, after its magic prefix:
/// the header keys, then one tagged scalar cell per key and row.
#[verifier::loop_isolation(false)]
#[verifier::rlimit(100)]
fn decode_tabular(bytes: &[u8]) -> (r: Result<Value, DecodeError>)
    requires
        bytes@.len() >= 9,
    ensures
        match r {
            Ok(v) => sp_tab_doc(bytes@) == Ok::<SpecValue, DecodeError>(v@),
            Err(e) => sp_tab_doc(bytes@) == Err::<SpecValue, DecodeError>(e),
        },
{
    let (kc, i) = match read_u32(bytes, 9) {
        Ok(p) => p,
        Err(e) => {
            return Err(e);
        },
    };
    let mut keys: Vec<String> = Vec::new();
    let mut gkeys: Ghost<Seq<Seq<char>>> = Ghost(Seq::empty());
    let mut p = i;
    let mut rem = kc;
    while rem > 0
        invariant
            p <= bytes@.len(),
            gkeys@.len() == keys@.len(),
            forall|t: int| 0 <= t < keys@.len() ==> gkeys@[t] == #[trigger] keys@[t]@,
            sp_tab_keys(bytes@, i as int, kc as nat, Seq::empty()) == sp_tab_keys(
                bytes@,
                p as int,
                rem as nat,
                gkeys@,
            ),
        decreases rem,
    {
        match read_string(bytes, p) {
            Err(e) => {
                return Err(e);
            },
            Ok((k, p2)) => {
                proof {
                    gkeys@ = gkeys@.push(k@);
                }
                keys.push(k);
                p = p2;
                rem = rem - 1;
            },
        }
    }
    let (rc, j2) = match read_u32(bytes, p) {
        Ok(q) => q,
        Err(e) => {
            return Err(e);
        },
    };
    let ghost blen = bytes@.len() as nat;
    let mut rows: Vec<Value> = Vec::new();
    let mut grows: Ghost<Seq<SpecValue>> = Ghost(Seq::empty());
    let mut q = j2;
    let mut rrem = rc;
    proof {
        assert(view_items(rows@) =~= grows@);
    }
    while rrem > 0
        invariant
            q <= bytes@.len(),
            view_items(rows@) == grows@,
            sp_tab_rows(bytes@, j2 as int, gkeys@, rc as nat, Seq::empty(), blen) == sp_tab_rows(
                bytes@,
                q as int,
                gkeys@,
                rrem as nat,
                grows@,
                blen,
            ),
        decreases rrem,
    {
        let ghost row_start = q as int;
        let mut obj: Vec<(String, Value)> = Vec::new();
        let mut gobj: Ghost<Seq<(Seq<char>, SpecValue)>> = Ghost(Seq::empty());
        let mut idx: usize = 0;
        proof {
            assert(view_entries(obj@) =~= gobj@);
        }
        while idx < keys.len()
            invariant
                idx <= keys@.len(),
                q <= bytes@.len(),
                view_entries(obj@) == gobj@,
                entries_sorted(gobj@),
                sp_tab_cells(bytes@, row_start, gkeys@, 0, Seq::empty(), rrem as nat, blen)
                    == sp_tab_cells(
                    bytes@,
                    q as int,
                    gkeys@,
                    idx as nat,
                    gobj@,
                    rrem as nat,
                    blen,
                ),
            decreases keys@.len() - idx,
        {
            match decode_value(bytes, q, bytes.len()) {
                Err(e) => {
                    return Err(e);
                },
                Ok((v, q2)) => {
                    let k = keys[idx].clone();
                    proof {
                        gobj@ = entry_insert(gobj@, k@, v@);
                    }
                    obj_insert(&mut obj, k, v);
                    q = q2;
                    idx = idx + 1;
                },
            }
        }
        proof {
            grows@ = grows@.push(SpecValue::Obj(gobj@));
            lemma_view_items_push(rows@, Value::Obj(obj));
        }
        rows.push(Value::Obj(obj));
        rrem = rrem - 1;
    }
    Ok(Value::Arr(rows))
}

/// Decode a compact document: check the magic prefix, then parse one value
/// (ordinary layout) or the tabular header and rows; trailing bytes are
/// ignored.
pub fn decode(bytes: &[u8]) -> (r: Result<Value, DecodeError>)
    ensures
        match r {
            Ok(v) => spec_compact_decode(bytes@) == Ok::<SpecValue, DecodeError>(v@),
            Err(e) => spec_compact_decode(bytes@) == Err::<SpecValue, DecodeError>(e),
        },
{
    if bytes.len() < 5 {
        return Err(DecodeError::TruncatedBinary);
    }
    if bytes[0] == 84 && bytes[1] == 79 && bytes[2] == 79 && bytes[3] == 78 && bytes[4] == 1 {
        proof {
            assert(bytes@.subrange(0, 5) =~= magic());
        }
        match decode_value(bytes, 5, bytes.len()) {
            Ok((v, _)) => Ok(v),
            Err(e) => Err(e),
        }
    } else if bytes.len() >= 9 && bytes[0] == 84 && bytes[1] == 79 && bytes[2] == 79 && bytes[3]
        == 78 && bytes[4] == 45 && bytes[5] == 84 && bytes[6] == 65 && bytes[7] == 66 && bytes[8]
        == 1 {
        proof {
            assert(bytes@.subrange(0, 9) =~= tab_magic());
            if bytes@.subrange(0, 5) == magic() {
                assert(bytes@.subrange(0, 5)[4] == bytes@[4]);
                assert(magic()[4] == 1u8);
                assert(false);
            }
        }
        decode_tabular(bytes)
    } else {
        proof {
            if bytes@.subrange(0, 5) == magic() {
                assert(bytes@.subrange(0, 5)[0] == bytes@[0]);
                assert(bytes@.subrange(0, 5)[1] == bytes@[1]);
                assert(bytes@.subrange(0, 5)[2] == bytes@[2]);
                assert(bytes@.subrange(0, 5)[3] == bytes@[3]);
                assert(bytes@.subrange(0, 5)[4] == bytes@[4]);
                assert(false);
            }
            if bytes@.len() >= 9 && bytes@.subrange(0, 9) == tab_magic() {
                assert(bytes@.subrange(0, 9)[0] == bytes@[0]);
                assert(bytes@.subrange(0, 9)[1] == bytes@[1]);
                assert(bytes@.subrange(0, 9)[2] == bytes@[2]);
                assert(bytes@.subrange(0, 9)[3] == bytes@[3]);
                assert(bytes@.subrange(0, 9)[4] == bytes@[4]);
                assert(bytes@.subrange(0, 9)[5] == bytes@[5]);
                assert(bytes@.subrange(0, 9)[6] == bytes@[6]);
                assert(bytes@.subrange(0, 9)[7] == bytes@[7]);
                assert(bytes@.subrange(0, 9)[8] == bytes@[8]);
                assert(false);
            }
        }
        Err(DecodeError::InvalidMagic)
    }
}

} // verus!
