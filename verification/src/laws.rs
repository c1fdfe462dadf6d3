//! Laws of the codec, stated and proved over the specification functions
//! that the executable functions' contracts are written in.

use vstd::prelude::*;
use vstd::utf8::encode_utf8;
use crate::codec::compact::{
    bin_string, bin_value, fits, le32, magic, sp_bin_value, sp_read_str, sp_read_u32,
    spec_compact_decode, u32_at, utf8_len, TAG_ARRAY, TAG_FALSE, TAG_NULL, TAG_NUMBER, TAG_STRING,
    TAG_TRUE,
};
use crate::codec::tabular::spec_uniform;
use crate::codec::text::{spec_text_decode, txt_value};
use crate::decoder::spec_decode;
use crate::encoder::{spec_encode, spec_indent};
use crate::value::{canon, wf, SpecValue};
use crate::{DecodeError, DecodeOptions, EncodeError, EncodeOptions};

verus! {

broadcast use {
    vstd::seq_lib::lemma_seq_skip_index,
    vstd::seq_lib::lemma_seq_skip_len,
    vstd::seq_lib::lemma_seq_take_index,
    vstd::seq_lib::lemma_seq_take_len,
};

/// Magic detection: with the compact option unset, input that does not open
/// with the five-byte compact magic always takes the text path.
pub proof fn lemma_magic_detection(b: Seq<u8>, opt: DecodeOptions)
    requires
        !opt.compact,
        b.len() > 0,
        !(b.len() >= 5 && b.subrange(0, 5) == magic()),
    ensures
        spec_decode(b, opt) == spec_text_decode(b),
{
}

/// Non-uniform fallback: a tabular request on a top-level array that does
/// not qualify falls back to the ordinary layout when strict mode is off,
/// and fails with the strict violation when it is on.
pub proof fn lemma_nonuniform_fallback(v: SpecValue, opt: EncodeOptions)
    requires
        opt.tabular_arrays,
        v is Arr,
        !spec_uniform(v->Arr_0),
    ensures
        opt.strict ==> spec_encode(v, opt) == Err::<Seq<u8>, EncodeError>(
            EncodeError::StrictViolation,
        ),
        !opt.strict && opt.compact ==> spec_encode(v, opt) == Ok::<Seq<u8>, EncodeError>(
            magic() + bin_value(canon(v)),
        ),
        !opt.strict && !opt.compact ==> spec_encode(v, opt) == Ok::<Seq<u8>, EncodeError>(
            encode_utf8(txt_value(canon(v), Seq::empty(), spec_indent(opt))),
        ),
{
}

/// A 32-bit length written little-endian reads back as itself, wherever it
/// stands in a buffer.
pub proof fn lemma_le32_roundtrip(n: nat, pre: Seq<u8>, post: Seq<u8>)
    requires
        n <= u32::MAX,
    ensures
        sp_read_u32(pre + le32(n) + post, pre.len() as int) == Ok::<(nat, int), DecodeError>(
            (n, pre.len() as int + 4),
        ),
{
    let b = pre + le32(n) + post;
    let i = pre.len() as int;
    assert(b.len() == pre.len() + 4 + post.len());
    assert(b[i] == le32(n)[0]);
    assert(b[i + 1] == le32(n)[1]);
    assert(b[i + 2] == le32(n)[2]);
    assert(b[i + 3] == le32(n)[3]);
    assert(le32(n)[0] == (n % 256) as u8);
    assert(le32(n)[1] == ((n / 256) % 256) as u8);
    assert(le32(n)[2] == ((n / 65536) % 256) as u8);
    assert(le32(n)[3] == ((n / 16777216) % 256) as u8);
    assert((n / 256) / 256 == n / 65536) by {
        vstd::arithmetic::div_mod::lemma_div_denominator(n as int, 256, 256);
    }
    assert((n / 65536) / 256 == n / 16777216) by {
        vstd::arithmetic::div_mod::lemma_div_denominator(n as int, 65536, 256);
    }
    assert(n / 16777216 < 256);
    assert((n / 16777216) % 256 == n / 16777216);
    assert(n % 256 + 256 * ((n / 256) % 256 + 256 * ((n / 65536) % 256 + 256 * (n / 16777216)))
        == n) by {
        assert(n % 256 + 256 * (n / 256) == n);
        assert((n / 256) % 256 + 256 * (n / 65536) == n / 256);
        assert((n / 65536) % 256 + 256 * (n / 16777216) == n / 65536);
    }
    assert(u32_at(b, i) == n);
}

/// A length-prefixed string payload reads back as itself, wherever it
/// stands in a buffer.
pub proof fn lemma_bin_string_roundtrip(s: Seq<char>, pre: Seq<u8>, post: Seq<u8>)
    requires
        utf8_len(s) <= u32::MAX,
    ensures
        sp_read_str(pre + bin_string(s) + post, pre.len() as int) == Ok::<
            (Seq<char>, int),
            DecodeError,
        >((s, pre.len() as int + bin_string(s).len())),
{
    let n = utf8_len(s);
    let b = pre + bin_string(s) + post;
    assert(b =~= pre + le32(n) + (encode_utf8(s) + post));
    lemma_le32_roundtrip(n, pre, encode_utf8(s) + post);
    let j = pre.len() + 4;
    assert(j + n <= b.len());
    assert(b.subrange(j as int, (j + n) as int) =~= encode_utf8(s));
    vstd::utf8::encode_utf8_valid_utf8(s);
    vstd::utf8::encode_utf8_decode_utf8(s);
}

/// Round-trip identity of the compact layout for leaf documents: a null,
/// boolean, number or string written by the encoder reads back as its
/// canonical form, wherever it stands in a buffer. The array and object
/// cases are not proved here.
pub proof fn lemma_compact_leaf_roundtrip(v: SpecValue, pre: Seq<u8>, post: Seq<u8>, f: nat)
    requires
        wf(v),
        fits(v),
        !(v is Arr),
        !(v is Obj),
    ensures
        sp_bin_value(pre + bin_value(canon(v)) + post, pre.len() as int, f) == Ok::<
            (SpecValue, int),
            DecodeError,
        >((canon(v), pre.len() as int + bin_value(canon(v)).len())),
{
    let b = pre + bin_value(canon(v)) + post;
    let i = pre.len() as int;
    match v {
        SpecValue::Null => {
            assert(bin_value(canon(v)) =~= seq![TAG_NULL]);
            assert(b[i] == TAG_NULL);
        },
        SpecValue::Bool(x) => {
            if x {
                assert(bin_value(canon(v)) =~= seq![TAG_TRUE]);
                assert(b[i] == TAG_TRUE);
            } else {
                assert(bin_value(canon(v)) =~= seq![TAG_FALSE]);
                assert(b[i] == TAG_FALSE);
            }
        },
        SpecValue::Num(s) => {
            assert(canon(v) == v);
            assert(bin_value(v) == seq![TAG_NUMBER] + bin_string(s));
            assert(b =~= (pre + seq![TAG_NUMBER]) + bin_string(s) + post);
            assert(b[i] == TAG_NUMBER);
            lemma_bin_string_roundtrip(s, pre + seq![TAG_NUMBER], post);
            assert(crate::trusted::is_number_text(s));
            assert(crate::trusted::canon_number(s) == s);
        },
        SpecValue::Str(s) => {
            assert(canon(v) == v);
            assert(bin_value(v) == seq![TAG_STRING] + bin_string(s));
            assert(b =~= (pre + seq![TAG_STRING]) + bin_string(s) + post);
            assert(b[i] == TAG_STRING);
            lemma_bin_string_roundtrip(s, pre + seq![TAG_STRING], post);
        },
        _ => {},
    }
}

/// A value with no children.
pub open spec fn is_leaf(v: SpecValue) -> bool {
    !(v is Arr) && !(v is Obj)
}

/// Sorting an already key-sorted entry list yields the list itself.
pub proof fn lemma_sort_fixed(ces: Seq<(Seq<char>, SpecValue)>)
    requires
        crate::value::entries_sorted(ces),
    ensures
        crate::value::sort_entries(ces) == ces,
    decreases ces.len(),
{
    if ces.len() > 0 {
        let head = ces.drop_last();
        assert(crate::value::entries_sorted(head)) by {
            assert(forall|q: int| 0 <= q < head.len() ==> #[trigger] head[q] == ces[q]);
        }
        lemma_sort_fixed(head);
        assert(forall|q: int|
            0 <= q < head.len() ==> crate::value::lex_lt(
                (#[trigger] head[q]).0,
                ces.last().0,
            ));
        crate::value::lemma_entry_insert_at(head, ces.last().0, ces.last().1, head.len() as int);
        assert(crate::value::entry_insert(head, ces.last().0, ces.last().1) =~= ces);
    }
}

/// Binary truncation for leaf documents: a compact document cut anywhere
/// after its first byte and before its end reads back as a truncation
/// error, never as a wrong but successful decode.
#[verifier::rlimit(100)]
pub proof fn lemma_compact_leaf_truncation(v: SpecValue, cut: int)
    requires
        wf(v),
        fits(v),
        !(v is Arr),
        !(v is Obj),
        1 <= cut < (magic() + bin_value(canon(v))).len(),
    ensures
        spec_compact_decode((magic() + bin_value(canon(v))).take(cut)) == Err::<
            SpecValue,
            DecodeError,
        >(DecodeError::TruncatedBinary),
{
    let full = magic() + bin_value(canon(v));
    let b = full.take(cut);
    assert(b.len() == cut);
    if cut < 5 {
    } else {
        assert(b.subrange(0, 5) =~= magic());
        if cut == 5 {
            // the tag itself is cut off
        } else {
            assert(b[5] == full[5]);
            let body = bin_value(canon(v));
            match v {
                SpecValue::Null => {
                    assert(body =~= seq![TAG_NULL]);
                    assert(false);
                },
                SpecValue::Bool(x) => {
                    if x {
                        assert(body =~= seq![TAG_TRUE]);
                    } else {
                        assert(body =~= seq![TAG_FALSE]);
                    }
                    assert(false);
                },
                SpecValue::Num(s) => {
                    assert(canon(v) == v);
                    assert(body == seq![TAG_NUMBER] + bin_string(s));
                    assert(full =~= (magic() + seq![TAG_NUMBER]) + bin_string(s));
                    lemma_truncated_string_read(s, magic() + seq![TAG_NUMBER], full, cut);
                },
                SpecValue::Str(s) => {
                    assert(canon(v) == v);
                    assert(body == seq![TAG_STRING] + bin_string(s));
                    assert(full =~= (magic() + seq![TAG_STRING]) + bin_string(s));
                    lemma_truncated_string_read(s, magic() + seq![TAG_STRING], full, cut);
                },
                _ => {},
            }
        }
    }
}

/// Reading a length-prefixed string whose buffer was cut before the payload
/// end reports a truncation.
pub proof fn lemma_truncated_string_read(s: Seq<char>, pre: Seq<u8>, full: Seq<u8>, cut: int)
    requires
        utf8_len(s) <= u32::MAX,
        full == pre + bin_string(s),
        pre.len() <= cut < full.len(),
    ensures
        sp_read_str(full.take(cut), pre.len() as int) == Err::<(Seq<char>, int), DecodeError>(
            DecodeError::TruncatedBinary,
        ),
{
    let b = full.take(cut);
    let i = pre.len() as int;
    let n = utf8_len(s);
    if cut < pre.len() + 4 {
        assert(i + 4 > b.len());
    } else {
        assert(b[i] == full[i]);
        assert(b[i + 1] == full[i + 1]);
        assert(b[i + 2] == full[i + 2]);
        assert(b[i + 3] == full[i + 3]);
        assert(full[i] == le32(n)[0] && full[i + 1] == le32(n)[1] && full[i + 2] == le32(n)[2]
            && full[i + 3] == le32(n)[3]);
        assert(u32_at(b, i) == u32_at(full, i));
        lemma_le32_roundtrip(n, pre, encode_utf8(s));
        assert(full =~= pre + le32(n) + encode_utf8(s));
        assert(u32_at(full, i) == n);
        assert(full.len() == pre.len() + 4 + n);
        assert(i + 4 + n > b.len());
    }
}

/// Pointwise fitting implies the suffix predicates.
pub proof fn lemma_fits_items_intro(items: Seq<SpecValue>, i: int)
    requires
        0 <= i <= items.len(),
        forall|j: int| i <= j < items.len() ==> fits(#[trigger] items[j]),
    ensures
        crate::codec::compact::fits_items(items, i),
    decreases items.len() - i,
{
    if i < items.len() {
        lemma_fits_items_intro(items, i + 1);
    }
}

/// Pointwise fitting implies the suffix predicate for entries.
pub proof fn lemma_fits_entries_intro(es: Seq<(Seq<char>, SpecValue)>, i: int)
    requires
        0 <= i <= es.len(),
        forall|j: int|
            i <= j < es.len() ==> utf8_len((#[trigger] es[j]).0) <= u32::MAX && fits(es[j].1),
    ensures
        crate::codec::compact::fits_entries(es, i),
    decreases es.len() - i,
{
    if i < es.len() {
        lemma_fits_entries_intro(es, i + 1);
    }
}

/// Canonicalization preserves the 32-bit size bounds.
pub proof fn lemma_canon_fits(v: SpecValue)
    requires
        fits(v),
    ensures
        fits(canon(v)),
    decreases v,
{
    match v {
        SpecValue::Arr(items) => {
            crate::codec::compact::lemma_fits_items(items, 0);
            crate::value::lemma_canon_items(items);
            let citems = crate::value::canon_items(items);
            assert forall|t: int| 0 <= t < citems.len() implies fits(#[trigger] citems[t]) by {
                assert(citems[t] == canon(items[t]));
                lemma_canon_fits(items[t]);
            }
            lemma_fits_items_intro(citems, 0);
            assert(fits(SpecValue::Arr(citems)));
        },
        SpecValue::Obj(es) => {
            crate::codec::compact::lemma_fits_entries(es, 0);
            crate::value::lemma_canon_entries(es);
            let ces = crate::value::canon_entries(es);
            let sorted = crate::value::sort_entries(ces);
            crate::value::lemma_sort_entries_props(ces);
            assert forall|t: int|
                0 <= t < sorted.len() implies utf8_len((#[trigger] sorted[t]).0) <= u32::MAX
                && fits(sorted[t].1) by {
                let j = choose|j: int| 0 <= j < ces.len() && ces[j] == sorted[t];
                assert(ces[j] == (es[j].0, canon(es[j].1)));
                lemma_canon_fits(es[j].1);
            }
            lemma_fits_entries_intro(sorted, 0);
            assert(fits(SpecValue::Obj(sorted)));
        },
        _ => {},
    }
}

/// Round-trip identity of one compact value, for every value: what the
/// encoder wrote reads back as the canonical form of the input, wherever it
/// stands in a buffer, with any fuel at least the encoding's length.
#[verifier::rlimit(100)]
pub proof fn lemma_compact_value_roundtrip(v: SpecValue, pre: Seq<u8>, post: Seq<u8>, f: nat)
    requires
        wf(v),
        fits(v),
        f >= bin_value(canon(v)).len(),
    ensures
        sp_bin_value(pre + bin_value(canon(v)) + post, pre.len() as int, f) == Ok::<
            (SpecValue, int),
            DecodeError,
        >((canon(v), pre.len() as int + bin_value(canon(v)).len())),
    decreases v, 0int, 0int,
{
    let b = pre + bin_value(canon(v)) + post;
    let i = pre.len() as int;
    match v {
        SpecValue::Arr(items) => {
            crate::value::lemma_wf_arr(items);
            crate::codec::compact::lemma_fits_items(items, 0);
            crate::value::lemma_canon_items(items);
            let citems = crate::value::canon_items(items);
            let n = citems.len() as nat;
            assert(canon(v) == SpecValue::Arr(citems));
            let body = crate::codec::compact::bin_items(citems, 0);
            assert(bin_value(canon(v)) == seq![TAG_ARRAY] + le32(n) + body);
            assert(b[i] == TAG_ARRAY);
            assert(b =~= (pre + seq![TAG_ARRAY]) + le32(n) + (body + post));
            lemma_le32_roundtrip(n, pre + seq![TAG_ARRAY], body + post);
            assert(b =~= (pre + seq![TAG_ARRAY] + le32(n)) + body + post);
            assert(citems.take(0) =~= Seq::<SpecValue>::empty());
            lemma_compact_items_roundtrip(
                items,
                0,
                pre + seq![TAG_ARRAY] + le32(n),
                post,
                (f - 1) as nat,
            );
        },
        SpecValue::Obj(es) => {
            crate::value::lemma_wf_obj(es);
            crate::codec::compact::lemma_fits_entries(es, 0);
            crate::value::lemma_canon_entries(es);
            let ces = crate::value::sort_entries(crate::value::canon_entries(es));
            crate::value::lemma_sort_entries_props(crate::value::canon_entries(es));
            let n = ces.len() as nat;
            assert(n <= u32::MAX);
            assert(canon(v) == SpecValue::Obj(ces));
            let body = crate::codec::compact::bin_entries(ces, 0);
            assert(bin_value(canon(v)) == seq![crate::codec::compact::TAG_OBJECT] + le32(n)
                + body);
            assert(b[i] == crate::codec::compact::TAG_OBJECT);
            assert(b =~= (pre + seq![crate::codec::compact::TAG_OBJECT]) + le32(n) + (body
                + post));
            lemma_le32_roundtrip(n, pre + seq![crate::codec::compact::TAG_OBJECT], body + post);
            assert(b =~= (pre + seq![crate::codec::compact::TAG_OBJECT] + le32(n)) + body + post);
            assert(ces.take(0) =~= Seq::<(Seq<char>, SpecValue)>::empty());
            lemma_compact_entries_roundtrip(
                es,
                0,
                pre + seq![crate::codec::compact::TAG_OBJECT] + le32(n),
                post,
                (f - 1) as nat,
            );
        },
        _ => {
            lemma_compact_leaf_roundtrip(v, pre, post, f);
        },
    }
}

/// The items of an array read back one after the other, for every item.
#[verifier::rlimit(100)]
pub proof fn lemma_compact_items_roundtrip(
    items: Seq<SpecValue>,
    t: int,
    pre: Seq<u8>,
    post: Seq<u8>,
    f: nat,
)
    requires
        0 <= t <= items.len(),
        forall|j: int| 0 <= j < items.len() ==> wf(#[trigger] items[j]) && fits(items[j]),
        f >= crate::codec::compact::bin_items(crate::value::canon_items(items), t).len(),
    ensures
        crate::codec::compact::sp_bin_items(
            pre + crate::codec::compact::bin_items(crate::value::canon_items(items), t) + post,
            pre.len() as int,
            (crate::value::canon_items(items).len() - t) as nat,
            crate::value::canon_items(items).take(t),
            f,
        ) == Ok::<(SpecValue, int), DecodeError>(
            (
                SpecValue::Arr(crate::value::canon_items(items)),
                pre.len() as int + crate::codec::compact::bin_items(
                    crate::value::canon_items(items),
                    t,
                ).len(),
            ),
        ),
    decreases items, 1int, items.len() - t,
{
    crate::value::lemma_canon_items(items);
    let citems = crate::value::canon_items(items);
    let enc = crate::codec::compact::bin_items(citems, t);
    let b = pre + enc + post;
    if t == citems.len() {
        assert(enc =~= Seq::<u8>::empty());
        assert(citems.take(t) =~= citems);
    } else {
        let c = citems[t];
        assert(c == canon(items[t]));
        let rest = crate::codec::compact::bin_items(citems, t + 1);
        assert(enc == bin_value(c) + rest);
        assert(b =~= pre + bin_value(canon(items[t])) + (rest + post));
        lemma_compact_value_roundtrip(items[t], pre, rest + post, f);
        assert(b =~= (pre + bin_value(c)) + rest + post);
        lemma_compact_items_roundtrip(items, t + 1, pre + bin_value(c), post, f);
        assert(citems.take(t).push(c) =~= citems.take(t + 1));
    }
}

/// The entries of an object read back one after the other, each map-inserted
/// at the end of the sorted accumulator, for every entry value.
#[verifier::rlimit(100)]
pub proof fn lemma_compact_entries_roundtrip(
    es: Seq<(Seq<char>, SpecValue)>,
    t: int,
    pre: Seq<u8>,
    post: Seq<u8>,
    f: nat,
)
    requires
        forall|j: int|
            0 <= j < es.len() ==> wf((#[trigger] es[j]).1) && fits(es[j].1) && utf8_len(es[j].0)
                <= u32::MAX,
        0 <= t <= crate::value::sort_entries(crate::value::canon_entries(es)).len(),
        f >= crate::codec::compact::bin_entries(
            crate::value::sort_entries(crate::value::canon_entries(es)),
            t,
        ).len(),
    ensures
        crate::codec::compact::sp_bin_obj(
            pre + crate::codec::compact::bin_entries(
                crate::value::sort_entries(crate::value::canon_entries(es)),
                t,
            ) + post,
            pre.len() as int,
            (crate::value::sort_entries(crate::value::canon_entries(es)).len() - t) as nat,
            crate::value::sort_entries(crate::value::canon_entries(es)).take(t),
            f,
        ) == Ok::<(SpecValue, int), DecodeError>(
            (
                SpecValue::Obj(crate::value::sort_entries(crate::value::canon_entries(es))),
                pre.len() as int + crate::codec::compact::bin_entries(
                    crate::value::sort_entries(crate::value::canon_entries(es)),
                    t,
                ).len(),
            ),
        ),
    decreases es, 1int, crate::value::sort_entries(crate::value::canon_entries(es)).len() - t,
{
    crate::value::lemma_canon_entries(es);
    crate::value::lemma_sort_entries_props(crate::value::canon_entries(es));
    let ces = crate::value::sort_entries(crate::value::canon_entries(es));
    let enc = crate::codec::compact::bin_entries(ces, t);
    let b = pre + enc + post;
    if t == ces.len() {
        assert(enc =~= Seq::<u8>::empty());
        assert(ces.take(t) =~= ces);
    } else {
        let k = ces[t].0;
        let c = ces[t].1;
        let j0 = choose|j: int|
            0 <= j < crate::value::canon_entries(es).len() && crate::value::canon_entries(
                es,
            )[j] == ces[t];
        assert(crate::value::canon_entries(es)[j0] == (es[j0].0, canon(es[j0].1)));
        assert(k == es[j0].0 && c == canon(es[j0].1));
        let rest = crate::codec::compact::bin_entries(ces, t + 1);
        assert(enc == bin_string(k) + bin_value(c) + rest);
        assert(b =~= pre + bin_string(k) + (bin_value(c) + rest + post));
        lemma_bin_string_roundtrip(k, pre, bin_value(c) + rest + post);
        let pre2 = pre + bin_string(k);
        assert(b =~= pre2 + bin_value(canon(es[j0].1)) + (rest + post));
        lemma_compact_value_roundtrip(es[j0].1, pre2, rest + post, f);
        assert(forall|q: int|
            0 <= q < t ==> crate::value::lex_lt((#[trigger] ces.take(t)[q]).0, k));
        crate::value::lemma_entry_insert_at(ces.take(t), k, c, t);
        assert(crate::value::entry_insert(ces.take(t), k, c) =~= ces.take(t + 1));
        assert(b =~= (pre2 + bin_value(c)) + rest + post);
        lemma_compact_entries_roundtrip(es, t + 1, pre2 + bin_value(c), post, f);
    }
}

/// Round-trip identity of the compact layout, for every value: decoding
/// what the encoder wrote yields the canonical form of the input — object
/// keys recursively sorted, array order and every number's canonical
/// decimal text untouched.
pub proof fn lemma_compact_document_roundtrip(v: SpecValue)
    requires
        wf(v),
        fits(v),
    ensures
        spec_compact_decode(magic() + bin_value(canon(v))) == Ok::<SpecValue, DecodeError>(
            canon(v),
        ),
{
    let b = magic() + bin_value(canon(v));
    assert(b.len() >= 5);
    assert(b.subrange(0, 5) =~= magic());
    assert(b =~= magic() + bin_value(canon(v)) + Seq::<u8>::empty());
    lemma_compact_value_roundtrip(v, magic(), Seq::empty(), b.len() as nat);
}

/// Canonicalization is idempotent: the canonical form is its own canonical
/// form.
pub proof fn lemma_canon_idempotent(v: SpecValue)
    ensures
        canon(canon(v)) == canon(v),
    decreases v,
{
    match v {
        SpecValue::Arr(items) => {
            crate::value::lemma_canon_items(items);
            let citems = crate::value::canon_items(items);
            crate::value::lemma_canon_items(citems);
            assert forall|t: int|
                0 <= t < citems.len() implies #[trigger] crate::value::canon_items(citems)[t]
                == citems[t] by {
                assert(citems[t] == canon(items[t]));
                lemma_canon_idempotent(items[t]);
            }
            assert(crate::value::canon_items(citems) =~= citems);
        },
        SpecValue::Obj(es) => {
            crate::value::lemma_canon_entries(es);
            crate::value::lemma_sort_entries_props(crate::value::canon_entries(es));
            let ces = crate::value::sort_entries(crate::value::canon_entries(es));
            crate::value::lemma_canon_entries(ces);
            assert forall|t: int|
                0 <= t < ces.len() implies #[trigger] crate::value::canon_entries(ces)[t]
                == ces[t] by {
                let j = choose|j: int|
                    0 <= j < crate::value::canon_entries(es).len()
                        && crate::value::canon_entries(es)[j] == ces[t];
                assert(crate::value::canon_entries(es)[j] == (es[j].0, canon(es[j].1)));
                lemma_canon_idempotent(es[j].1);
            }
            assert(crate::value::canon_entries(ces) =~= ces);
            lemma_sort_fixed(ces);
        },
        _ => {},
    }
}

/// Idempotent canonicalization in the compact layout: what a decode of an
/// encoding returns re-encodes to the very same bytes.
pub proof fn lemma_compact_idempotent(v: SpecValue, opt: EncodeOptions)
    requires
        wf(v),
        fits(v),
        opt.compact,
        !opt.tabular_arrays,
    ensures
        spec_encode(v, opt) == Ok::<Seq<u8>, EncodeError>(magic() + bin_value(canon(v))),
        spec_compact_decode(magic() + bin_value(canon(v))) == Ok::<SpecValue, DecodeError>(
            canon(v),
        ),
        spec_encode(canon(v), opt) == spec_encode(v, opt),
{
    lemma_compact_document_roundtrip(v);
    lemma_canon_idempotent(v);
}

/// Truncation of one compact value: a buffer that ends anywhere inside the
/// encoding reads back as a truncation error. The fuel bound mirrors the
/// bytes present, as the decoder supplies it.
#[verifier::rlimit(100)]
pub proof fn lemma_compact_value_truncation(v: SpecValue, pre: Seq<u8>, cut: int, f: nat)
    requires
        wf(v),
        fits(v),
        pre.len() <= cut < pre.len() + bin_value(canon(v)).len(),
        f >= cut - pre.len(),
    ensures
        sp_bin_value((pre + bin_value(canon(v))).take(cut), pre.len() as int, f) == Err::<
            (SpecValue, int),
            DecodeError,
        >(DecodeError::TruncatedBinary),
    decreases v, 0int, 0int,
{
    let full = pre + bin_value(canon(v));
    let b = full.take(cut);
    let i = pre.len() as int;
    if cut == pre.len() {
        assert(i >= b.len());
    } else {
        assert(b[i] == full[i]);
        match v {
            SpecValue::Null => {
                assert(bin_value(canon(v)) =~= seq![TAG_NULL]);
                assert(false);
            },
            SpecValue::Bool(x) => {
                if x {
                    assert(bin_value(canon(v)) =~= seq![TAG_TRUE]);
                } else {
                    assert(bin_value(canon(v)) =~= seq![TAG_FALSE]);
                }
                assert(false);
            },
            SpecValue::Num(s) => {
                assert(canon(v) == v);
                assert(bin_value(v) == seq![TAG_NUMBER] + bin_string(s));
                assert(full =~= (pre + seq![TAG_NUMBER]) + bin_string(s));
                assert(b[i] == TAG_NUMBER);
                lemma_truncated_string_read(s, pre + seq![TAG_NUMBER], full, cut);
            },
            SpecValue::Str(s) => {
                assert(canon(v) == v);
                assert(bin_value(v) == seq![TAG_STRING] + bin_string(s));
                assert(full =~= (pre + seq![TAG_STRING]) + bin_string(s));
                assert(b[i] == TAG_STRING);
                lemma_truncated_string_read(s, pre + seq![TAG_STRING], full, cut);
            },
            SpecValue::Arr(items) => {
                crate::value::lemma_wf_arr(items);
                crate::codec::compact::lemma_fits_items(items, 0);
                crate::value::lemma_canon_items(items);
                let citems = crate::value::canon_items(items);
                let n = citems.len() as nat;
                let body = crate::codec::compact::bin_items(citems, 0);
                assert(canon(v) == SpecValue::Arr(citems));
                assert(bin_value(canon(v)) == seq![TAG_ARRAY] + le32(n) + body);
                assert(b[i] == TAG_ARRAY);
                if cut < pre.len() + 5 {
                    assert(i + 1 + 4 > b.len());
                } else {
                    assert(full =~= (pre + seq![TAG_ARRAY]) + le32(n) + body);
                    assert forall|m: int| 0 <= m < 4 implies #[trigger] b[i + 1 + m] == le32(n)[m] by {
                        assert(full[i + 1 + m] == le32(n)[m]);
                    }
                    lemma_le32_roundtrip(n, pre + seq![TAG_ARRAY], body);
                    assert(u32_at(b, i + 1) == u32_at(full, i + 1) == n);
                    assert(f >= 1);
                    assert(cut - (pre.len() + 5) < body.len());
                    lemma_compact_items_truncation(
                        items,
                        0,
                        pre + seq![TAG_ARRAY] + le32(n),
                        cut,
                        (f - 1) as nat,
                    );
                    assert((pre + seq![TAG_ARRAY] + le32(n) + body).take(cut) =~= b);
                    assert(citems.take(0) =~= Seq::<SpecValue>::empty());
                }
            },
            SpecValue::Obj(es) => {
                crate::value::lemma_wf_obj(es);
                crate::codec::compact::lemma_fits_entries(es, 0);
                crate::value::lemma_canon_entries(es);
                crate::value::lemma_sort_entries_props(crate::value::canon_entries(es));
                let ces = crate::value::sort_entries(crate::value::canon_entries(es));
                let n = ces.len() as nat;
                let body = crate::codec::compact::bin_entries(ces, 0);
                assert(canon(v) == SpecValue::Obj(ces));
                assert(bin_value(canon(v)) == seq![crate::codec::compact::TAG_OBJECT] + le32(n)
                    + body);
                assert(b[i] == crate::codec::compact::TAG_OBJECT);
                if cut < pre.len() + 5 {
                    assert(i + 1 + 4 > b.len());
                } else {
                    assert(full =~= (pre + seq![crate::codec::compact::TAG_OBJECT]) + le32(n)
                        + body);
                    assert forall|m: int| 0 <= m < 4 implies #[trigger] b[i + 1 + m] == le32(n)[m] by {
                        assert(full[i + 1 + m] == le32(n)[m]);
                    }
                    lemma_le32_roundtrip(n, pre + seq![crate::codec::compact::TAG_OBJECT], body);
                    assert(u32_at(b, i + 1) == u32_at(full, i + 1) == n);
                    assert(f >= 1);
                    assert(cut - (pre.len() + 5) < body.len());
                    lemma_compact_entries_truncation(
                        es,
                        0,
                        pre + seq![crate::codec::compact::TAG_OBJECT] + le32(n),
                        cut,
                        (f - 1) as nat,
                    );
                    assert((pre + seq![crate::codec::compact::TAG_OBJECT] + le32(n) + body).take(
                        cut,
                    ) =~= b);
                    assert(ces.take(0) =~= Seq::<(Seq<char>, SpecValue)>::empty());
                }
            },
        }
    }
}

/// Truncation inside the items of an array: the cut falls in or before some
/// remaining item, and the read reports it.
#[verifier::rlimit(100)]
pub proof fn lemma_compact_items_truncation(
    items: Seq<SpecValue>,
    t: int,
    pre: Seq<u8>,
    cut: int,
    f: nat,
)
    requires
        0 <= t <= crate::value::canon_items(items).len(),
        forall|j: int| 0 <= j < items.len() ==> wf(#[trigger] items[j]) && fits(items[j]),
        pre.len() <= cut < pre.len() + crate::codec::compact::bin_items(
            crate::value::canon_items(items),
            t,
        ).len(),
        f >= cut - pre.len(),
    ensures
        crate::codec::compact::sp_bin_items(
            (pre + crate::codec::compact::bin_items(crate::value::canon_items(items), t)).take(
                cut,
            ),
            pre.len() as int,
            (crate::value::canon_items(items).len() - t) as nat,
            crate::value::canon_items(items).take(t),
            f,
        ) == Err::<(SpecValue, int), DecodeError>(DecodeError::TruncatedBinary),
    decreases items, 1int, items.len() - t,
{
    crate::value::lemma_canon_items(items);
    let citems = crate::value::canon_items(items);
    let enc = crate::codec::compact::bin_items(citems, t);
    let full = pre + enc;
    let b = full.take(cut);
    assert(t < citems.len());
    let c = citems[t];
    assert(c == canon(items[t]));
    let rest = crate::codec::compact::bin_items(citems, t + 1);
    assert(enc == bin_value(c) + rest);
    if cut < pre.len() + bin_value(c).len() {
        // the cut falls inside this item
        assert((pre + bin_value(c)).take(cut) =~= b);
        lemma_compact_value_truncation(items[t], pre, cut, f);
    } else {
        // this item is whole; the cut falls later
        let pre2 = pre + bin_value(c);
        assert(full =~= pre2 + rest);
        let post = b.subrange(pre2.len() as int, cut);
        assert(b =~= pre + bin_value(canon(items[t])) + post);
        assert(rest.take(cut - pre2.len()) =~= post);
        lemma_compact_value_roundtrip(items[t], pre, post, f);
        assert((pre2 + rest).take(cut) =~= b);
        lemma_compact_items_truncation(items, t + 1, pre2, cut, f);
        assert(citems.take(t).push(c) =~= citems.take(t + 1));
    }
}

/// Truncation inside the entries of an object: the cut falls in a key, in a
/// value, or in a later entry, and the read reports it.
#[verifier::rlimit(100)]
pub proof fn lemma_compact_entries_truncation(
    es: Seq<(Seq<char>, SpecValue)>,
    t: int,
    pre: Seq<u8>,
    cut: int,
    f: nat,
)
    requires
        forall|j: int|
            0 <= j < es.len() ==> wf((#[trigger] es[j]).1) && fits(es[j].1) && utf8_len(es[j].0)
                <= u32::MAX,
        0 <= t <= crate::value::sort_entries(crate::value::canon_entries(es)).len(),
        pre.len() <= cut < pre.len() + crate::codec::compact::bin_entries(
            crate::value::sort_entries(crate::value::canon_entries(es)),
            t,
        ).len(),
        f >= cut - pre.len(),
    ensures
        crate::codec::compact::sp_bin_obj(
            (pre + crate::codec::compact::bin_entries(
                crate::value::sort_entries(crate::value::canon_entries(es)),
                t,
            )).take(cut),
            pre.len() as int,
            (crate::value::sort_entries(crate::value::canon_entries(es)).len() - t) as nat,
            crate::value::sort_entries(crate::value::canon_entries(es)).take(t),
            f,
        ) == Err::<(SpecValue, int), DecodeError>(DecodeError::TruncatedBinary),
    decreases es, 1int, crate::value::sort_entries(crate::value::canon_entries(es)).len() - t,
{
    crate::value::lemma_canon_entries(es);
    crate::value::lemma_sort_entries_props(crate::value::canon_entries(es));
    let ces = crate::value::sort_entries(crate::value::canon_entries(es));
    let enc = crate::codec::compact::bin_entries(ces, t);
    let full = pre + enc;
    let b = full.take(cut);
    assert(t < ces.len());
    let k = ces[t].0;
    let c = ces[t].1;
    let j0 = choose|j: int|
        0 <= j < crate::value::canon_entries(es).len() && crate::value::canon_entries(es)[j]
            == ces[t];
    assert(crate::value::canon_entries(es)[j0] == (es[j0].0, canon(es[j0].1)));
    assert(k == es[j0].0 && c == canon(es[j0].1));
    let rest = crate::codec::compact::bin_entries(ces, t + 1);
    assert(enc == bin_string(k) + bin_value(c) + rest);
    if cut < pre.len() + bin_string(k).len() {
        // the cut falls inside this entry's key
        assert(full =~= (pre + bin_string(k)) + (bin_value(c) + rest));
        assert((pre + bin_string(k)).take(cut) =~= b);
        lemma_truncated_string_read(k, pre, pre + bin_string(k), cut);
    } else {
        let pre1 = pre + bin_string(k);
        assert(full =~= pre1 + bin_value(c) + rest);
        if cut < pre1.len() + bin_value(c).len() {
            // the key is whole, the cut falls inside this entry's value
            let post0 = b.subrange(pre1.len() as int, cut);
            assert(bin_value(c).take(cut - pre1.len()) =~= post0);
            assert(b =~= pre + bin_string(k) + post0);
            lemma_bin_string_roundtrip(k, pre, post0);
            assert((pre1 + bin_value(c)).take(cut) =~= b);
            lemma_compact_value_truncation(es[j0].1, pre1, cut, f);
        } else {
            // this entry is whole; the cut falls later
            let pre2 = pre1 + bin_value(c);
            let post = b.subrange(pre2.len() as int, cut);
            assert(rest.take(cut - pre2.len()) =~= post);
            assert(b =~= pre + bin_string(k) + (bin_value(c) + post));
            lemma_bin_string_roundtrip(k, pre, bin_value(c) + post);
            assert(b =~= pre1 + bin_value(canon(es[j0].1)) + post);
            lemma_compact_value_roundtrip(es[j0].1, pre1, post, f);
            assert(forall|q: int|
                0 <= q < t ==> crate::value::lex_lt((#[trigger] ces.take(t)[q]).0, k));
            crate::value::lemma_entry_insert_at(ces.take(t), k, c, t);
            assert(crate::value::entry_insert(ces.take(t), k, c) =~= ces.take(t + 1));
            assert((pre2 + rest).take(cut) =~= b);
            lemma_compact_entries_truncation(es, t + 1, pre2, cut, f);
        }
    }
}

/// Binary truncation, for every value and every cut: a compact document cut
/// anywhere before its end reads back as an error — a truncation past the
/// first byte of the magic, never a wrong but successful decode.
pub proof fn lemma_compact_document_truncation(v: SpecValue, cut: int)
    requires
        wf(v),
        fits(v),
        1 <= cut < (magic() + bin_value(canon(v))).len(),
    ensures
        spec_compact_decode((magic() + bin_value(canon(v))).take(cut)) == Err::<
            SpecValue,
            DecodeError,
        >(DecodeError::TruncatedBinary),
{
    let full = magic() + bin_value(canon(v));
    let b = full.take(cut);
    if cut < 5 {
    } else {
        assert(b.subrange(0, 5) =~= magic());
        lemma_compact_value_truncation(v, magic(), cut, b.len() as nat);
    }
}

/// Canonicalizing an object's entries keeps its key set.
pub proof fn lemma_key_set_canon(es: Seq<(Seq<char>, SpecValue)>)
    ensures
        crate::value::key_set(crate::value::canon_entries(es)) == crate::value::key_set(es),
{
    crate::value::lemma_canon_entries(es);
    let ces = crate::value::canon_entries(es);
    assert(crate::value::key_set(ces) =~= crate::value::key_set(es)) by {
        assert forall|k: Seq<char>|
            crate::value::key_set(ces).contains(k) == crate::value::key_set(es).contains(k) by {
            if crate::value::key_set(ces).contains(k) {
                let j = choose|j: int| 0 <= j < ces.len() && ces[j].0 == k;
                assert(es[j].0 == k);
            }
            if crate::value::key_set(es).contains(k) {
                let j = choose|j: int| 0 <= j < es.len() && es[j].0 == k;
                assert(ces[j].0 == k);
            }
        }
    }
}

/// Sorting an entry list with unique keys keeps its key set.
#[verifier::rlimit(100)]
#[verifier::spinoff_prover]
pub proof fn lemma_key_set_sort(xs: Seq<(Seq<char>, SpecValue)>)
    requires
        crate::value::keys_unique(xs),
    ensures
        crate::value::key_set(crate::value::sort_entries(xs)) == crate::value::key_set(xs),
{
    let sorted = crate::value::sort_entries(xs);
    assert forall|k: Seq<char>|
        crate::value::key_set(sorted).contains(k) implies crate::value::key_set(xs).contains(
        k,
    ) by {
        crate::value::lemma_sort_entries_props(xs);
        let t = choose|t: int| 0 <= t < sorted.len() && sorted[t].0 == k;
        let j = choose|j: int| 0 <= j < xs.len() && xs[j] == sorted[t];
        assert(xs[j].0 == k);
    }
    assert forall|k: Seq<char>|
        crate::value::key_set(xs).contains(k) implies crate::value::key_set(sorted).contains(
        k,
    ) by {
        crate::value::lemma_sort_entries_complete(xs);
        let j = choose|j: int| 0 <= j < xs.len() && xs[j].0 == k;
        let t = choose|t: int| 0 <= t < sorted.len() && sorted[t] == xs[j];
        assert(sorted[t].0 == k);
    }
    assert(crate::value::key_set(sorted) =~= crate::value::key_set(xs));
}

/// Canonicalizing and sorting an object's entries keeps its key set.
pub proof fn lemma_canon_sort_key_set(es: Seq<(Seq<char>, SpecValue)>)
    requires
        crate::value::keys_unique(es),
    ensures
        crate::value::key_set(
            crate::value::sort_entries(crate::value::canon_entries(es)),
        ) == crate::value::key_set(es),
{
    lemma_key_set_canon(es);
    crate::value::lemma_canon_entries(es);
    assert(crate::value::keys_unique(crate::value::canon_entries(es))) by {
        assert(forall|i: int|
            0 <= i < crate::value::canon_entries(es).len()
                ==> (#[trigger] crate::value::canon_entries(es)[i]).0 == es[i].0);
    }
    lemma_key_set_sort(crate::value::canon_entries(es));
}

/// The tabular header keys read back one after the other.
pub proof fn lemma_tab_keys_roundtrip(keys: Seq<Seq<char>>, j: int, pre: Seq<u8>, post: Seq<u8>)
    requires
        0 <= j <= keys.len(),
        forall|t: int| 0 <= t < keys.len() ==> utf8_len(#[trigger] keys[t]) <= u32::MAX,
    ensures
        crate::codec::compact::sp_tab_keys(
            pre + crate::codec::tabular::bin_keys(keys, j) + post,
            pre.len() as int,
            (keys.len() - j) as nat,
            keys.take(j),
        ) == Ok::<(Seq<Seq<char>>, int), DecodeError>(
            (keys, pre.len() as int + crate::codec::tabular::bin_keys(keys, j).len()),
        ),
    decreases keys.len() - j,
{
    let enc = crate::codec::tabular::bin_keys(keys, j);
    let b = pre + enc + post;
    if j == keys.len() {
        assert(enc =~= Seq::<u8>::empty());
        assert(keys.take(j) =~= keys);
    } else {
        let k = keys[j];
        let rest = crate::codec::tabular::bin_keys(keys, j + 1);
        assert(enc == bin_string(k) + rest);
        assert(b =~= pre + bin_string(k) + (rest + post));
        lemma_bin_string_roundtrip(k, pre, rest + post);
        assert(b =~= (pre + bin_string(k)) + rest + post);
        lemma_tab_keys_roundtrip(keys, j + 1, pre + bin_string(k), post);
        assert(keys.take(j).push(k) =~= keys.take(j + 1));
    }
}

/// One tabular row of leaf cells reads back as the canonical form of the
/// row object: each column's value under its sorted key.
#[verifier::rlimit(100)]
pub proof fn lemma_tab_cells_roundtrip(
    row: Seq<(Seq<char>, SpecValue)>,
    keys: Seq<Seq<char>>,
    j: int,
    pre: Seq<u8>,
    post: Seq<u8>,
    rows: nat,
    f: nat,
)
    requires
        crate::value::keys_unique(row),
        forall|t: int|
            0 <= t < row.len() ==> wf((#[trigger] row[t]).1) && fits(row[t].1) && is_leaf(
                row[t].1,
            ),
        keys.len() == crate::value::sort_entries(crate::value::canon_entries(row)).len(),
        forall|t: int|
            0 <= t < keys.len() ==> #[trigger] keys[t] == crate::value::sort_entries(
                crate::value::canon_entries(row),
            )[t].0,
        0 <= j <= keys.len(),
    ensures
        crate::codec::compact::sp_tab_cells(
            pre + crate::codec::tabular::bin_row(SpecValue::Obj(row), keys, j) + post,
            pre.len() as int,
            keys,
            j as nat,
            crate::value::sort_entries(crate::value::canon_entries(row)).take(j),
            rows,
            f,
        ) == Ok::<(SpecValue, int), DecodeError>(
            (
                SpecValue::Obj(crate::value::sort_entries(crate::value::canon_entries(row))),
                pre.len() as int + crate::codec::tabular::bin_row(
                    SpecValue::Obj(row),
                    keys,
                    j,
                ).len(),
            ),
        ),
    decreases keys.len() - j,
{
    crate::value::lemma_canon_entries(row);
    let ces = crate::value::canon_entries(row);
    crate::value::lemma_sort_entries_props(ces);
    let srt = crate::value::sort_entries(ces);
    let enc = crate::codec::tabular::bin_row(SpecValue::Obj(row), keys, j);
    let b = pre + enc + post;
    if j == keys.len() {
        assert(enc =~= Seq::<u8>::empty());
        assert(srt.take(j) =~= srt);
    } else {
        let k = keys[j];
        assert(k == srt[j].0);
        // the sorted entry under this key comes from some original entry
        let m0 = choose|m0: int| 0 <= m0 < ces.len() && ces[m0] == srt[j];
        assert(ces[m0] == (row[m0].0, canon(row[m0].1)));
        crate::value::lemma_unique_lookup(row, m0);
        assert(crate::value::lookup_key(row, k) == Some(row[m0].1));
        let x = row[m0].1;
        assert(srt[j].1 == canon(x));
        let cell = crate::codec::tabular::bin_cell(canon(x));
        assert(cell == bin_value(canon(x))) by {
            assert(is_leaf(x));
            assert(is_leaf(canon(x)));
        }
        let rest = crate::codec::tabular::bin_row(SpecValue::Obj(row), keys, j + 1);
        assert(enc == cell + rest);
        assert(b =~= pre + bin_value(canon(x)) + (rest + post));
        lemma_compact_leaf_roundtrip(x, pre, rest + post, f);
        assert(forall|q: int|
            0 <= q < j ==> crate::value::lex_lt((#[trigger] srt.take(j)[q]).0, k));
        crate::value::lemma_entry_insert_at(srt.take(j), k, canon(x), j);
        assert(crate::value::entry_insert(srt.take(j), k, canon(x)) =~= srt.take(j + 1));
        assert(b =~= (pre + cell) + rest + post);
        lemma_tab_cells_roundtrip(row, keys, j + 1, pre + cell, post, rows, f);
    }
}

/// The tabular rows read back one after the other, each as the canonical
/// form of its row object.
#[verifier::rlimit(100)]
pub proof fn lemma_tab_rows_roundtrip(
    items: Seq<SpecValue>,
    t: int,
    keys: Seq<Seq<char>>,
    pre: Seq<u8>,
    post: Seq<u8>,
    f: nat,
)
    requires
        crate::codec::tabular::spec_uniform(items),
        forall|i: int| 0 <= i < items.len() ==> wf(#[trigger] items[i]) && fits(items[i]),
        forall|i: int, k: Seq<char>|
            0 <= i < items.len() ==> match #[trigger] crate::value::lookup_key(
                items[i]->Obj_0,
                k,
            ) {
                Some(x) => is_leaf(x),
                None => true,
            },
        keys == Seq::new(
            crate::value::sort_entries(crate::value::canon_entries(items[0]->Obj_0)).len(),
            |q: int|
                crate::value::sort_entries(crate::value::canon_entries(items[0]->Obj_0))[q].0,
        ),
        0 <= t <= items.len(),
    ensures
        crate::codec::compact::sp_tab_rows(
            pre + crate::codec::tabular::bin_rows(items, t, keys) + post,
            pre.len() as int,
            keys,
            (items.len() - t) as nat,
            crate::value::canon_items(items).take(t),
            f,
        ) == Ok::<(SpecValue, int), DecodeError>(
            (
                SpecValue::Arr(crate::value::canon_items(items)),
                pre.len() as int + crate::codec::tabular::bin_rows(items, t, keys).len(),
            ),
        ),
    decreases items.len() - t,
{
    crate::value::lemma_canon_items(items);
    let citems = crate::value::canon_items(items);
    let enc = crate::codec::tabular::bin_rows(items, t, keys);
    let b = pre + enc + post;
    if t == items.len() {
        assert(enc =~= Seq::<u8>::empty());
        assert(citems.take(t) =~= citems);
    } else {
        let row = items[t]->Obj_0;
        assert(items[t] is Obj);
        crate::value::lemma_wf_obj(row);
        crate::codec::compact::lemma_fits_entries(row, 0);
        assert(wf(items[t]) && fits(items[t]));
        let srt = crate::value::sort_entries(crate::value::canon_entries(row));
        // the row's sorted keys are exactly the table's columns
        let row0 = items[0]->Obj_0;
        crate::value::lemma_wf_obj(row0);
        let srt0 = crate::value::sort_entries(crate::value::canon_entries(row0));
        crate::value::lemma_sort_entries_props(crate::value::canon_entries(row));
        crate::value::lemma_sort_entries_props(crate::value::canon_entries(row0));
        lemma_canon_sort_key_set(row);
        lemma_canon_sort_key_set(row0);
        assert(crate::value::key_set(srt) == crate::value::key_set(srt0)) by {
            assert(crate::value::key_set(row) == crate::value::key_set(row0));
        }
        crate::value::lemma_sorted_same_keys(srt, srt0);
        assert(keys.len() == srt.len());
        assert forall|q: int| 0 <= q < keys.len() implies #[trigger] keys[q] == srt[q].0 by {
            assert(keys[q] == srt0[q].0);
        }
        // row cells are leaves
        assert forall|q: int|
            0 <= q < row.len() implies wf((#[trigger] row[q]).1) && fits(row[q].1) && is_leaf(
            row[q].1,
        ) by {
            crate::value::lemma_unique_lookup(row, q);
            assert(crate::value::lookup_key(row, row[q].0) == Some(row[q].1));
        }
        let row_enc = crate::codec::tabular::bin_row(items[t], keys, 0);
        let rest = crate::codec::tabular::bin_rows(items, t + 1, keys);
        assert(enc == row_enc + rest);
        assert(b =~= pre + crate::codec::tabular::bin_row(SpecValue::Obj(row), keys, 0) + (rest
            + post));
        assert(srt.take(0) =~= Seq::<(Seq<char>, SpecValue)>::empty());
        lemma_tab_cells_roundtrip(row, keys, 0, pre, rest + post, (items.len() - t) as nat, f);
        assert(canon(items[t]) == SpecValue::Obj(srt));
        assert(citems[t] == canon(items[t]));
        assert(b =~= (pre + row_enc) + rest + post);
        lemma_tab_rows_roundtrip(items, t + 1, keys, pre + row_enc, post, f);
        assert(citems.take(t).push(citems[t]) =~= citems.take(t + 1));
    }
}

/// The columns of a qualifying table are few enough and short enough for
/// their 32-bit fields.
#[verifier::spinoff_prover]
pub proof fn lemma_columns_bounds(items: Seq<SpecValue>)
    requires
        items.len() > 0,
        items[0] is Obj,
        wf(items[0]),
        fits(items[0]),
    ensures
        crate::codec::tabular::spec_columns(items).len() <= u32::MAX,
        forall|q: int|
            0 <= q < crate::codec::tabular::spec_columns(items).len() ==> utf8_len(
                #[trigger] crate::codec::tabular::spec_columns(items)[q],
            ) <= u32::MAX,
{
    let cols = crate::codec::tabular::spec_columns(items);
    let row0 = items[0]->Obj_0;
    crate::value::lemma_wf_obj(row0);
    crate::codec::compact::lemma_fits_entries(row0, 0);
    crate::value::lemma_canon_entries(row0);
    let srt0 = crate::value::sort_entries(crate::value::canon_entries(row0));
    crate::value::lemma_sort_entries_props(crate::value::canon_entries(row0));
    assert forall|q: int| 0 <= q < cols.len() implies utf8_len(#[trigger] cols[q])
        <= u32::MAX by {
        assert(cols[q] == srt0[q].0);
        let j = choose|j: int|
            0 <= j < crate::value::canon_entries(row0).len() && crate::value::canon_entries(
                row0,
            )[j] == srt0[q];
        assert(crate::value::canon_entries(row0)[j].0 == row0[j].0);
    }
}

/// Tabular correctness in the compact layout, for tables of leaf cells:
/// the tabular rendering and the ordinary rendering of a qualifying array
/// decode to the same value, the canonical form of the array. Tables whose
/// cells are themselves arrays or objects are outside this law: the binary
/// layout carries such a cell as a JSON string, which decodes as a string.
#[verifier::rlimit(100)]
#[verifier::spinoff_prover]
pub proof fn lemma_tabular_compact_agreement(v: SpecValue)
    requires
        wf(v),
        fits(v),
        v is Arr,
        crate::codec::tabular::spec_uniform(v->Arr_0),
        forall|i: int, k: Seq<char>|
            0 <= i < v->Arr_0.len() ==> match #[trigger] crate::value::lookup_key(
                v->Arr_0[i]->Obj_0,
                k,
            ) {
                Some(x) => is_leaf(x),
                None => true,
            },
    ensures
        spec_compact_decode(
            crate::codec::tabular::tab_bin(
                v->Arr_0,
                crate::codec::tabular::spec_columns(v->Arr_0),
            ),
        ) == Ok::<SpecValue, DecodeError>(canon(v)),
        spec_compact_decode(magic() + bin_value(canon(v))) == Ok::<SpecValue, DecodeError>(
            canon(v),
        ),
{
    lemma_compact_document_roundtrip(v);
    let items = v->Arr_0;
    crate::value::lemma_wf_arr(items);
    crate::codec::compact::lemma_fits_items(items, 0);
    crate::value::lemma_canon_items(items);
    let cols = crate::codec::tabular::spec_columns(items);
    lemma_columns_bounds(items);
    let kc = cols.len() as nat;
    let rc = items.len() as nat;
    let keys_enc = crate::codec::tabular::bin_keys(cols, 0);
    let rows_enc = crate::codec::tabular::bin_rows(items, 0, cols);
    let b = crate::codec::tabular::tab_bin(items, cols);
    assert(b == crate::codec::compact::tab_magic() + le32(kc) + keys_enc + le32(rc) + rows_enc);
    assert(b.len() >= 9);
    assert(b.subrange(0, 9) =~= crate::codec::compact::tab_magic());
    assert(b.subrange(0, 5) != magic()) by {
        if b.subrange(0, 5) == magic() {
            assert(b.subrange(0, 5)[4] == b[4]);
            assert(b.subrange(0, 9)[4] == b[4]);
            assert(magic()[4] == 1u8);
            assert(crate::codec::compact::tab_magic()[4] == 45u8);
            assert(false);
        }
    }
    assert(b =~= crate::codec::compact::tab_magic() + le32(kc) + (keys_enc + le32(rc)
        + rows_enc));
    lemma_le32_roundtrip(kc, crate::codec::compact::tab_magic(), keys_enc + le32(rc) + rows_enc);
    let pre1 = crate::codec::compact::tab_magic() + le32(kc);
    assert(b =~= pre1 + keys_enc + (le32(rc) + rows_enc));
    assert(cols.take(0) =~= Seq::<Seq<char>>::empty());
    lemma_tab_keys_roundtrip(cols, 0, pre1, le32(rc) + rows_enc);
    let pre2 = pre1 + keys_enc;
    assert(b =~= pre2 + le32(rc) + rows_enc);
    lemma_le32_roundtrip(rc, pre2, rows_enc);
    let pre3 = pre2 + le32(rc);
    assert(b =~= pre3 + rows_enc + Seq::<u8>::empty());
    assert(crate::value::canon_items(items).take(0) =~= Seq::<SpecValue>::empty());
    lemma_tab_rows_roundtrip(items, 0, cols, pre3, Seq::empty(), b.len() as nat);
    assert(canon(v) == SpecValue::Arr(crate::value::canon_items(items)));
}

} // verus!
