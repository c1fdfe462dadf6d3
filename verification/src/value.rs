//! The TOON value tree and its mathematical model.

use vstd::prelude::*;
use crate::trusted::{canonical_number, is_canon_number};

verus! {

broadcast use {
    vstd::seq::axiom_seq_index_decreases,
    vstd::seq_lib::lemma_seq_skip_index,
    vstd::seq_lib::lemma_seq_skip_len,
    vstd::seq_lib::lemma_seq_take_index,
    vstd::seq_lib::lemma_seq_take_len,
    vstd::std_specs::vec::axiom_vec_decreases_to_view,
    vstd::std_specs::vec::axiom_vec_index_decreases,
};

/// Mathematical model of a TOON value: numbers are canonical decimal text,
/// object entries are (key, value) pairs in source order.
pub enum SpecValue {
    Null,
    Bool(bool),
    Num(Seq<char>),
    Str(Seq<char>),
    Arr(Seq<SpecValue>),
    Obj(Seq<(Seq<char>, SpecValue)>),
}

/// A TOON value tree. Numbers are held as decimal text, so values outside a
/// double's range survive the codec unchanged; object keys are not required
/// to be in any order (the encoders sort them).
#[derive(Debug)]
pub enum Value {
    Null,
    Bool(bool),
    Num(String),
    Str(String),
    Arr(Vec<Value>),
    Obj(Vec<(String, Value)>),
}

impl View for Value {
    type V = SpecValue;

    open spec fn view(&self) -> SpecValue
        decreases self,
    {
        match self {
            Value::Null => SpecValue::Null,
            Value::Bool(b) => SpecValue::Bool(*b),
            Value::Num(s) => SpecValue::Num(s@),
            Value::Str(s) => SpecValue::Str(s@),
            Value::Arr(a) => SpecValue::Arr(view_items(a@)),
            Value::Obj(es) => SpecValue::Obj(view_entries(es@)),
        }
    }
}

/// The models of a sequence of values, in order.
pub open spec fn view_items(a: Seq<Value>) -> Seq<SpecValue>
    decreases a,
{
    if a.len() == 0 {
        Seq::empty()
    } else {
        seq![a[0]@] + view_items(a.subrange(1, a.len() as int))
    }
}

/// The models of a sequence of object entries, in order.
pub open spec fn view_entries(es: Seq<(String, Value)>) -> Seq<(Seq<char>, SpecValue)>
    decreases es,
{
    if es.len() == 0 {
        Seq::empty()
    } else {
        seq![(es[0].0@, es[0].1@)] + view_entries(es.subrange(1, es.len() as int))
    }
}

/// Strict lexicographic order on key text, by scalar value of each
/// character; on UTF-8 encodings this coincides with byte-wise order.
pub open spec fn lex_lt(a: Seq<char>, b: Seq<char>) -> bool
    decreases a.len(),
{
    if b.len() == 0 {
        false
    } else if a.len() == 0 {
        true
    } else if a[0] != b[0] {
        (a[0] as u32) < (b[0] as u32)
    } else {
        lex_lt(a.skip(1), b.skip(1))
    }
}

/// Insert an entry into a key-sorted entry list, replacing the value when
/// the key is already present: the map-insert the decoders perform.
pub open spec fn entry_insert(
    es: Seq<(Seq<char>, SpecValue)>,
    k: Seq<char>,
    v: SpecValue,
) -> Seq<(Seq<char>, SpecValue)>
    decreases es.len(),
{
    if es.len() == 0 {
        seq![(k, v)]
    } else if lex_lt(k, es[0].0) {
        seq![(k, v)] + es
    } else if k == es[0].0 {
        seq![(k, v)] + es.skip(1)
    } else {
        seq![es[0]] + entry_insert(es.skip(1), k, v)
    }
}

/// The entries of an object after canonicalization: every entry map-inserted
/// in source order, so keys end up sorted and a later duplicate key wins.
pub open spec fn sort_entries(es: Seq<(Seq<char>, SpecValue)>) -> Seq<(Seq<char>, SpecValue)>
    decreases es.len(),
{
    if es.len() == 0 {
        Seq::empty()
    } else {
        entry_insert(sort_entries(es.drop_last()), es.last().0, es.last().1)
    }
}

/// The canonical form of a value: object keys recursively sorted, with a
/// later duplicate key winning; array order untouched.
pub open spec fn canon(v: SpecValue) -> SpecValue
    decreases v,
{
    match v {
        SpecValue::Arr(items) => SpecValue::Arr(canon_items(items)),
        SpecValue::Obj(es) => SpecValue::Obj(sort_entries(canon_entries(es))),
        _ => v,
    }
}

/// Canonicalize each value of a sequence, keeping the order.
pub open spec fn canon_items(items: Seq<SpecValue>) -> Seq<SpecValue>
    decreases items,
{
    if items.len() == 0 {
        Seq::empty()
    } else {
        seq![canon(items[0])] + canon_items(items.subrange(1, items.len() as int))
    }
}

/// Canonicalize each entry's value, keeping the entry order.
pub open spec fn canon_entries(es: Seq<(Seq<char>, SpecValue)>) -> Seq<(Seq<char>, SpecValue)>
    decreases es,
{
    if es.len() == 0 {
        Seq::empty()
    } else {
        seq![(es[0].0, canon(es[0].1))] + canon_entries(es.subrange(1, es.len() as int))
    }
}

/// Entry keys strictly sorted in lexicographic order (hence unique).
pub open spec fn entries_sorted(es: Seq<(Seq<char>, SpecValue)>) -> bool {
    forall|i: int, j: int| 0 <= i < j < es.len() ==> lex_lt(#[trigger] es[i].0, #[trigger] es[j].0)
}

/// Entry keys pairwise distinct.
pub open spec fn keys_unique(es: Seq<(Seq<char>, SpecValue)>) -> bool {
    forall|i: int, j: int| 0 <= i < j < es.len() ==> (#[trigger] es[i].0 != #[trigger] es[j].0)
}

/// Well-formed value: every number is canonical decimal text and every
/// object's keys are unique, as the value model asks.
pub open spec fn wf(v: SpecValue) -> bool
    decreases v,
{
    match v {
        SpecValue::Num(s) => is_canon_number(s),
        SpecValue::Arr(items) => forall|i: int| 0 <= i < items.len() ==> wf(#[trigger] items[i]),
        SpecValue::Obj(es) => {
            &&& keys_unique(es)
            &&& forall|i: int| 0 <= i < es.len() ==> wf((#[trigger] es[i]).1)
        },
        _ => true,
    }
}

/// The set of keys of an entry list.
pub open spec fn key_set(es: Seq<(Seq<char>, SpecValue)>) -> Set<Seq<char>> {
    Set::new(|k: Seq<char>| exists|i: int| 0 <= i < es.len() && (#[trigger] es[i]).0 == k)
}

/// The value under `k`, first match scanning from the front.
pub open spec fn lookup_key(es: Seq<(Seq<char>, SpecValue)>, k: Seq<char>) -> Option<SpecValue>
    decreases es.len(),
{
    if es.len() == 0 {
        None
    } else if es[0].0 == k {
        Some(es[0].1)
    } else {
        lookup_key(es.skip(1), k)
    }
}

/// A value looked up in a well-formed object is itself well-formed.
pub proof fn lemma_lookup_wf(es: Seq<(Seq<char>, SpecValue)>, k: Seq<char>)
    requires
        forall|i: int| 0 <= i < es.len() ==> wf((#[trigger] es[i]).1),
        lookup_key(es, k) is Some,
    ensures
        wf(lookup_key(es, k)->0),
    decreases es.len(),
{
    if es.len() > 0 && es[0].0 != k {
        assert(forall|i: int|
            0 <= i < es.skip(1).len() ==> #[trigger] es.skip(1)[i] == es[i + 1]);
        lemma_lookup_wf(es.skip(1), k);
    }
}

/// Reading the well-formedness of an array's items and an object's entries.
pub proof fn lemma_wf_arr(items: Seq<SpecValue>)
    requires
        wf(SpecValue::Arr(items)),
    ensures
        forall|t: int| 0 <= t < items.len() ==> wf(#[trigger] items[t]),
{
    assert forall|t: int| 0 <= t < items.len() implies wf(#[trigger] items[t]) by {
        let v = SpecValue::Arr(items);
        assert(wf(v) == (forall|i: int| 0 <= i < v->Arr_0.len() ==> wf(#[trigger] v->Arr_0[i])));
        assert(v->Arr_0 == items);
    }
}

/// Reading the well-formedness of an object's entries.
pub proof fn lemma_wf_obj(es: Seq<(Seq<char>, SpecValue)>)
    requires
        wf(SpecValue::Obj(es)),
    ensures
        keys_unique(es),
        forall|t: int| 0 <= t < es.len() ==> wf((#[trigger] es[t]).1),
{
    let v = SpecValue::Obj(es);
    assert(wf(v) == (keys_unique(v->Obj_0) && forall|i: int|
        0 <= i < v->Obj_0.len() ==> wf((#[trigger] v->Obj_0[i]).1)));
    assert(v->Obj_0 == es);
    assert forall|t: int| 0 <= t < es.len() implies wf((#[trigger] es[t]).1) by {
        assert(v->Obj_0[t] == es[t]);
    }
}

/// Pointwise reading of `view_items`.
pub proof fn lemma_view_items(a: Seq<Value>)
    ensures
        view_items(a).len() == a.len(),
        forall|i: int| 0 <= i < a.len() ==> #[trigger] view_items(a)[i] == a[i]@,
    decreases a,
{
    if a.len() > 0 {
        let tail = a.subrange(1, a.len() as int);
        lemma_view_items(tail);
        assert(view_items(a) == seq![a[0]@] + view_items(tail));
        assert((seq![a[0]@] + view_items(tail)).len() == 1 + view_items(tail).len());
        assert forall|i: int| 0 <= i < a.len() implies #[trigger] view_items(a)[i] == a[i]@ by {
            if i >= 1 {
                assert((seq![a[0]@] + view_items(tail))[i] == view_items(tail)[i - 1]);
                assert(tail[i - 1] == a[i]);
            }
        }
    }
}

/// Pointwise reading of `view_entries`.
pub proof fn lemma_view_entries(es: Seq<(String, Value)>)
    ensures
        view_entries(es).len() == es.len(),
        forall|i: int| 0 <= i < es.len() ==> #[trigger] view_entries(es)[i] == (es[i].0@, es[i].1@),
    decreases es,
{
    if es.len() > 0 {
        let tail = es.subrange(1, es.len() as int);
        lemma_view_entries(tail);
        assert(view_entries(es) == seq![(es[0].0@, es[0].1@)] + view_entries(tail));
        assert((seq![(es[0].0@, es[0].1@)] + view_entries(tail)).len() == 1 + view_entries(
            tail,
        ).len());
        assert forall|i: int|
            0 <= i < es.len() implies #[trigger] view_entries(es)[i] == (es[i].0@, es[i].1@) by {
            if i >= 1 {
                assert((seq![(es[0].0@, es[0].1@)] + view_entries(tail))[i] == view_entries(
                    tail,
                )[i - 1]);
                assert(tail[i - 1] == es[i]);
            }
        }
    }
}

/// Pointwise reading of `canon_items`.
pub proof fn lemma_canon_items(items: Seq<SpecValue>)
    ensures
        canon_items(items).len() == items.len(),
        forall|i: int| 0 <= i < items.len() ==> #[trigger] canon_items(items)[i] == canon(items[i]),
    decreases items,
{
    if items.len() > 0 {
        let tail = items.subrange(1, items.len() as int);
        lemma_canon_items(tail);
        assert(canon_items(items) == seq![canon(items[0])] + canon_items(tail));
        assert((seq![canon(items[0])] + canon_items(tail)).len() == 1 + canon_items(tail).len());
        assert forall|i: int|
            0 <= i < items.len() implies #[trigger] canon_items(items)[i] == canon(items[i]) by {
            if i >= 1 {
                assert((seq![canon(items[0])] + canon_items(tail))[i] == canon_items(tail)[i
                    - 1]);
                assert(tail[i - 1] == items[i]);
            }
        }
    }
}

/// Pointwise reading of `canon_entries`.
pub proof fn lemma_canon_entries(es: Seq<(Seq<char>, SpecValue)>)
    ensures
        canon_entries(es).len() == es.len(),
        forall|i: int|
            0 <= i < es.len() ==> #[trigger] canon_entries(es)[i] == (es[i].0, canon(es[i].1)),
    decreases es,
{
    if es.len() > 0 {
        let tail = es.subrange(1, es.len() as int);
        lemma_canon_entries(tail);
        assert(canon_entries(es) == seq![(es[0].0, canon(es[0].1))] + canon_entries(tail));
        assert((seq![(es[0].0, canon(es[0].1))] + canon_entries(tail)).len() == 1 + canon_entries(
            tail,
        ).len());
        assert forall|i: int|
            0 <= i < es.len() implies #[trigger] canon_entries(es)[i] == (es[i].0, canon(
            es[i].1,
        )) by {
            if i >= 1 {
                assert((seq![(es[0].0, canon(es[0].1))] + canon_entries(tail))[i] == canon_entries(
                    tail,
                )[i - 1]);
                assert(tail[i - 1] == es[i]);
            }
        }
    }
}

/// `view_items` commutes with appending one value.
pub proof fn lemma_view_items_push(a: Seq<Value>, v: Value)
    ensures
        view_items(a.push(v)) == view_items(a).push(v@),
{
    lemma_view_items(a);
    lemma_view_items(a.push(v));
    assert forall|i: int|
        0 <= i < a.len() + 1 implies view_items(a.push(v))[i] == view_items(a).push(v@)[i] by {
        if i < a.len() {
            assert(a.push(v)[i] == a[i]);
        } else {
            assert(a.push(v)[i] == v);
        }
    }
    assert(view_items(a.push(v)) =~= view_items(a).push(v@));
}

/// `view_entries` commutes with inserting one entry.
pub proof fn lemma_view_entries_insert(es: Seq<(String, Value)>, p: int, e: (String, Value))
    requires
        0 <= p <= es.len(),
    ensures
        view_entries(es.insert(p, e)) == view_entries(es).insert(p, (e.0@, e.1@)),
{
    lemma_view_entries(es);
    lemma_view_entries(es.insert(p, e));
    es.insert_ensures(p, e);
    view_entries(es).insert_ensures(p, (e.0@, e.1@));
    assert forall|i: int|
        0 <= i < es.len() + 1 implies view_entries(es.insert(p, e))[i] == view_entries(es).insert(
        p,
        (e.0@, e.1@),
    )[i] by {
        if i < p {
            assert(es.insert(p, e)[i] == es[i]);
        } else if i == p {
            assert(es.insert(p, e)[i] == e);
        } else {
            assert(es.insert(p, e)[i] == es[i - 1]);
        }
    }
    assert(view_entries(es.insert(p, e)) =~= view_entries(es).insert(p, (e.0@, e.1@)));
}

/// `view_entries` commutes with replacing one entry.
pub proof fn lemma_view_entries_update(es: Seq<(String, Value)>, p: int, e: (String, Value))
    requires
        0 <= p < es.len(),
    ensures
        view_entries(es.update(p, e)) == view_entries(es).update(p, (e.0@, e.1@)),
{
    lemma_view_entries(es);
    lemma_view_entries(es.update(p, e));
    assert forall|i: int|
        0 <= i < es.len() implies view_entries(es.update(p, e))[i] == view_entries(es).update(
        p,
        (e.0@, e.1@),
    )[i] by {
        if i != p {
            assert(es.update(p, e)[i] == es[i]);
        } else {
            assert(es.update(p, e)[i] == e);
        }
    }
    assert(view_entries(es.update(p, e)) =~= view_entries(es).update(p, (e.0@, e.1@)));
}

/// Key order is connex: two key texts are equal or one is strictly smaller.
pub proof fn lemma_lex_lt_connex(a: Seq<char>, b: Seq<char>)
    ensures
        lex_lt(a, b) || lex_lt(b, a) || a == b,
    decreases a.len(),
{
    if b.len() == 0 {
        if a.len() == 0 {
            assert(a =~= b);
        }
    } else if a.len() == 0 {
    } else if a[0] != b[0] {
        vstd::utf8::char_u32_cast(a[0], a[0] as u32);
        vstd::utf8::char_u32_cast(b[0], b[0] as u32);
    } else {
        lemma_lex_lt_connex(a.skip(1), b.skip(1));
        if a.skip(1) == b.skip(1) {
            assert(a.skip(1).len() == a.len() - 1);
            assert(b.skip(1).len() == b.len() - 1);
            assert(a.len() == b.len());
            assert(a[0] == b[0]);
            assert forall|i: int| 0 <= i < a.len() implies #[trigger] a[i] == b[i] by {
                if i >= 1 {
                    assert(a.skip(1)[i - 1] == a[i]);
                    assert(b.skip(1)[i - 1] == b[i]);
                }
            }
            assert(a =~= b);
        }
    }
}

/// Key order is irreflexive-asymmetric: a strictly smaller key is neither
/// equal to nor strictly greater than the other.
pub proof fn lemma_lex_lt_asymm(a: Seq<char>, b: Seq<char>)
    requires
        lex_lt(a, b),
    ensures
        !lex_lt(b, a),
        a != b,
    decreases a.len(),
{
    if a.len() == 0 {
    } else if a[0] != b[0] {
    } else {
        lemma_lex_lt_asymm(a.skip(1), b.skip(1));
        assert(a != b) by {
            if a == b {
                assert(a.skip(1) =~= b.skip(1));
            }
        }
    }
}

/// Key order is transitive.
pub proof fn lemma_lex_lt_trans(a: Seq<char>, b: Seq<char>, c: Seq<char>)
    requires
        lex_lt(a, b),
        lex_lt(b, c),
    ensures
        lex_lt(a, c),
    decreases a.len(),
{
    if a.len() == 0 {
    } else if b.len() == 0 {
    } else if c.len() == 0 {
    } else if a[0] == b[0] && b[0] == c[0] {
        lemma_lex_lt_trans(a.skip(1), b.skip(1), c.skip(1));
    } else {
        vstd::utf8::char_u32_cast(a[0], a[0] as u32);
        vstd::utf8::char_u32_cast(b[0], b[0] as u32);
        vstd::utf8::char_u32_cast(c[0], c[0] as u32);
    }
}

/// Map-inserting into a key-sorted entry list keeps it sorted, and lands at
/// the position the executable insertion routines pick: after the strictly
/// smaller keys, replacing an equal key if one is there.
pub proof fn lemma_entry_insert_at(
    es: Seq<(Seq<char>, SpecValue)>,
    k: Seq<char>,
    v: SpecValue,
    p: int,
)
    requires
        entries_sorted(es),
        0 <= p <= es.len(),
        forall|q: int| 0 <= q < p ==> lex_lt(#[trigger] es[q].0, k),
        p < es.len() ==> !lex_lt(es[p].0, k),
    ensures
        entry_insert(es, k, v) == if p < es.len() && es[p].0 == k {
            es.update(p, (k, v))
        } else {
            es.insert(p, (k, v))
        },
        entries_sorted(entry_insert(es, k, v)),
    decreases es.len(),
{
    if es.len() == 0 {
        assert(entry_insert(es, k, v) =~= es.insert(0, (k, v)));
        let out = entry_insert(es, k, v);
        assert(out.len() == 1);
        assert(entries_sorted(out));
    } else if lex_lt(k, es[0].0) {
        assert(p == 0) by {
            if p > 0 {
                lemma_lex_lt_asymm(es[0].0, k);
            }
        }
        let out = entry_insert(es, k, v);
        assert(out =~= es.insert(0, (k, v)));
        assert forall|i: int, j: int| 0 <= i < j < out.len() implies lex_lt(
            out[i].0,
            out[j].0,
        ) by {
            if i == 0 {
                if j > 1 {
                    lemma_lex_lt_trans(k, es[0].0, es[j - 1].0);
                }
            }
        }
    } else if k == es[0].0 {
        assert(p == 0) by {
            if p > 0 {
                lemma_lex_lt_asymm(es[0].0, k);
            }
        }
        let out = entry_insert(es, k, v);
        assert(out =~= es.update(0, (k, v)));
        assert(entries_sorted(out));
    } else {
        lemma_lex_lt_connex(k, es[0].0);
        assert(lex_lt(es[0].0, k));
        assert(p >= 1);
        let tail = es.skip(1);
        assert(entries_sorted(tail)) by {
            assert(forall|i: int, j: int|
                0 <= i < j < tail.len() ==> tail[i] == es[i + 1] && tail[j] == es[j + 1]);
        }
        assert(forall|q: int| 0 <= q < p - 1 ==> lex_lt(#[trigger] tail[q].0, k)) by {
            assert(forall|q: int| 0 <= q < p - 1 ==> tail[q] == es[q + 1]);
        }
        lemma_entry_insert_at(tail, k, v, p - 1);
        let out = entry_insert(es, k, v);
        if p - 1 < tail.len() && tail[p - 1].0 == k {
            assert(out =~= es.update(p, (k, v)));
        } else {
            assert(out =~= es.insert(p, (k, v)));
        }
        let sub = entry_insert(tail, k, v);
        assert forall|i: int, j: int| 0 <= i < j < out.len() implies lex_lt(
            out[i].0,
            out[j].0,
        ) by {
            if i == 0 {
                assert(out[0] == es[0]);
                assert(out[j] == sub[j - 1]);
                if j - 1 < p - 1 {
                } else if p - 1 < tail.len() && tail[p - 1].0 == k {
                    if j - 1 == p - 1 {
                        assert(lex_lt(es[0].0, k));
                    }
                } else {
                    if j - 1 == p - 1 {
                        assert(sub[j - 1] == (k, v));
                    }
                }
            } else {
                assert(out[i] == sub[i - 1] && out[j] == sub[j - 1]);
            }
        }
    }
}

/// Map-inserting into a sorted entry list keeps it sorted, and every entry
/// of the result is the inserted one or one of the old ones.
pub proof fn lemma_entry_insert_props(es: Seq<(Seq<char>, SpecValue)>, k: Seq<char>, v: SpecValue)
    requires
        entries_sorted(es),
    ensures
        entries_sorted(entry_insert(es, k, v)),
        entry_insert(es, k, v).len() <= es.len() + 1,
        forall|t: int|
            0 <= t < entry_insert(es, k, v).len() ==> (#[trigger] entry_insert(es, k, v)[t]) == (
            k,
            v,
            ) || exists|j: int| 0 <= j < es.len() && es[j] == entry_insert(es, k, v)[t],
    decreases es.len(),
{
    let out = entry_insert(es, k, v);
    if es.len() == 0 {
        assert(out =~= seq![(k, v)]);
    } else if lex_lt(k, es[0].0) {
        assert(out =~= seq![(k, v)] + es);
        assert forall|i: int, j: int| 0 <= i < j < out.len() implies lex_lt(
            out[i].0,
            out[j].0,
        ) by {
            if i == 0 && j > 1 {
                lemma_lex_lt_trans(k, es[0].0, es[j - 1].0);
            }
        }
        assert forall|t: int|
            0 <= t < out.len() implies (#[trigger] out[t]) == (k, v) || exists|j: int|
            0 <= j < es.len() && es[j] == out[t] by {
            if t > 0 {
                assert(es[t - 1] == out[t]);
            }
        }
    } else if k == es[0].0 {
        assert(out =~= seq![(k, v)] + es.skip(1));
        assert forall|i: int, j: int| 0 <= i < j < out.len() implies lex_lt(
            out[i].0,
            out[j].0,
        ) by {
            if i == 0 {
                assert(out[j] == es[j]);
            } else {
                assert(out[i] == es[i] && out[j] == es[j]);
            }
        }
        assert forall|t: int|
            0 <= t < out.len() implies (#[trigger] out[t]) == (k, v) || exists|j: int|
            0 <= j < es.len() && es[j] == out[t] by {
            if t > 0 {
                assert(es[t] == out[t]);
            }
        }
    } else {
        lemma_lex_lt_connex(k, es[0].0);
        let tail = es.skip(1);
        assert(entries_sorted(tail)) by {
            assert(forall|i: int|
                0 <= i < tail.len() ==> #[trigger] tail[i] == es[i + 1]);
        }
        lemma_entry_insert_props(tail, k, v);
        let sub = entry_insert(tail, k, v);
        assert(out =~= seq![es[0]] + sub);
        assert forall|i: int, j: int| 0 <= i < j < out.len() implies lex_lt(
            out[i].0,
            out[j].0,
        ) by {
            if i == 0 {
                assert(out[j] == sub[j - 1]);
                assert(sub[j - 1] == (k, v) || exists|m: int|
                    0 <= m < tail.len() && tail[m] == sub[j - 1]);
                if sub[j - 1] == (k, v) {
                    assert(lex_lt(es[0].0, k));
                } else {
                    let m = choose|m: int| 0 <= m < tail.len() && tail[m] == sub[j - 1];
                    assert(tail[m] == es[m + 1]);
                    assert(lex_lt(es[0].0, es[m + 1].0));
                }
            } else {
                assert(out[i] == sub[i - 1] && out[j] == sub[j - 1]);
            }
        }
        assert forall|t: int|
            0 <= t < out.len() implies (#[trigger] out[t]) == (k, v) || exists|j: int|
            0 <= j < es.len() && es[j] == out[t] by {
            if t == 0 {
                assert(es[0] == out[0]);
            } else {
                assert(out[t] == sub[t - 1]);
                if sub[t - 1] != (k, v) {
                    let m = choose|m: int| 0 <= m < tail.len() && tail[m] == sub[t - 1];
                    assert(es[m + 1] == out[t]);
                }
            }
        }
    }
}

/// Canonicalizing an object's entries sorts them, keeps the count bounded,
/// and introduces no entry that was not map-inserted.
pub proof fn lemma_sort_entries_props(xs: Seq<(Seq<char>, SpecValue)>)
    ensures
        entries_sorted(sort_entries(xs)),
        sort_entries(xs).len() <= xs.len(),
        forall|t: int|
            0 <= t < sort_entries(xs).len() ==> exists|j: int|
                0 <= j < xs.len() && xs[j] == #[trigger] sort_entries(xs)[t],
    decreases xs.len(),
{
    if xs.len() > 0 {
        let head = xs.drop_last();
        lemma_sort_entries_props(head);
        lemma_entry_insert_props(sort_entries(head), xs.last().0, xs.last().1);
        let out = sort_entries(xs);
        assert forall|t: int|
            0 <= t < out.len() implies exists|j: int|
            0 <= j < xs.len() && xs[j] == #[trigger] out[t] by {
            if out[t] == (xs.last().0, xs.last().1) {
                assert(xs[xs.len() - 1] == out[t]);
            } else {
                let m = choose|m: int|
                    0 <= m < sort_entries(head).len() && sort_entries(head)[m] == out[t];
                let j = choose|j: int| 0 <= j < head.len() && head[j] == sort_entries(head)[m];
                assert(xs[j] == out[t]);
            }
        }
    }
}

/// Sorted keys are unique keys.
pub proof fn lemma_sorted_unique(es: Seq<(Seq<char>, SpecValue)>)
    requires
        entries_sorted(es),
    ensures
        keys_unique(es),
{
    assert forall|i: int, j: int| 0 <= i < j < es.len() implies (#[trigger] es[i].0 !=
    #[trigger] es[j].0) by {
        lemma_lex_lt_asymm(es[i].0, es[j].0);
    }
}

/// Canonicalization preserves well-formedness.
pub proof fn lemma_canon_wf(v: SpecValue)
    requires
        wf(v),
    ensures
        wf(canon(v)),
    decreases v,
{
    match v {
        SpecValue::Arr(items) => {
            lemma_wf_arr(items);
            lemma_canon_items(items);
            let citems = canon_items(items);
            assert forall|t: int| 0 <= t < citems.len() implies wf(#[trigger] citems[t]) by {
                assert(citems[t] == canon(items[t]));
                lemma_canon_wf(items[t]);
            }
            assert(wf(SpecValue::Arr(citems)));
        },
        SpecValue::Obj(es) => {
            lemma_wf_obj(es);
            lemma_canon_entries(es);
            let ces = canon_entries(es);
            let sorted = sort_entries(ces);
            lemma_sort_entries_props(ces);
            lemma_sorted_unique(sorted);
            assert forall|t: int| 0 <= t < sorted.len() implies wf(
                (#[trigger] sorted[t]).1,
            ) by {
                let j = choose|j: int| 0 <= j < ces.len() && ces[j] == sorted[t];
                assert(ces[j] == (es[j].0, canon(es[j].1)));
                lemma_canon_wf(es[j].1);
            }
            assert(wf(SpecValue::Obj(sorted)));
        },
        _ => {},
    }
}

/// With unique keys, lookup at an entry's key returns that entry's value.
pub proof fn lemma_unique_lookup(es: Seq<(Seq<char>, SpecValue)>, m: int)
    requires
        keys_unique(es),
        0 <= m < es.len(),
    ensures
        lookup_key(es, es[m].0) == Some(es[m].1),
    decreases es.len(),
{
    if m == 0 {
    } else {
        assert(es[0].0 != es[m].0);
        let tail = es.skip(1);
        assert(keys_unique(tail)) by {
            assert(forall|i: int| 0 <= i < tail.len() ==> #[trigger] tail[i] == es[i + 1]);
        }
        assert(tail[m - 1] == es[m]);
        lemma_unique_lookup(tail, m - 1);
    }
}

/// With unique keys, canonicalizing an object's entries loses none: every
/// original entry's key and canonical value stand in the sorted result.
#[verifier::rlimit(100)]
pub proof fn lemma_sort_entries_complete(xs: Seq<(Seq<char>, SpecValue)>)
    requires
        keys_unique(xs),
    ensures
        forall|j: int|
            0 <= j < xs.len() ==> exists|t: int|
                0 <= t < sort_entries(xs).len() && sort_entries(xs)[t] == #[trigger] xs[j],
    decreases xs.len(),
{
    if xs.len() > 0 {
        let head = xs.drop_last();
        let last = xs.last();
        assert(keys_unique(head)) by {
            assert(forall|i: int| 0 <= i < head.len() ==> #[trigger] head[i] == xs[i]);
        }
        lemma_sort_entries_complete(head);
        let sorted = sort_entries(head);
        assert(sort_entries(xs) == entry_insert(sorted, last.0, last.1));
        lemma_insert_has(sorted, last.0, last.1);
        lemma_lookup_stays(sorted, last.0, last.1);
        assert forall|j: int|
            0 <= j < xs.len() implies exists|t: int|
            0 <= t < sort_entries(xs).len() && sort_entries(xs)[t] == #[trigger] xs[j] by {
            if j == xs.len() - 1 {
                let t = choose|t: int|
                    0 <= t < entry_insert(sorted, last.0, last.1).len() && entry_insert(
                        sorted,
                        last.0,
                        last.1,
                    )[t] == (last.0, last.1);
                assert(sort_entries(xs)[t] == xs[j]);
            } else {
                assert(head[j] == xs[j]);
                let t0 = choose|t0: int| 0 <= t0 < sorted.len() && sorted[t0] == head[j];
                assert(xs[j].0 != last.0);
                assert(sorted[t0].0 != last.0);
                let m = choose|m: int|
                    0 <= m < entry_insert(sorted, last.0, last.1).len() && entry_insert(
                        sorted,
                        last.0,
                        last.1,
                    )[m] == sorted[t0];
                assert(sort_entries(xs)[m] == xs[j]);
            }
        }
    }
}

/// The inserted entry stands in the result of a map-insert.
pub proof fn lemma_insert_has(es: Seq<(Seq<char>, SpecValue)>, k: Seq<char>, v: SpecValue)
    ensures
        exists|t: int|
            0 <= t < entry_insert(es, k, v).len() && #[trigger] entry_insert(es, k, v)[t] == (
            k,
            v,
            ),
    decreases es.len(),
{
    let out = entry_insert(es, k, v);
    if es.len() == 0 {
        assert(out[0] == (k, v));
    } else if lex_lt(k, es[0].0) {
        assert(out[0] == (k, v));
    } else if k == es[0].0 {
        assert(out[0] == (k, v));
    } else {
        lemma_insert_has(es.skip(1), k, v);
        let t = choose|t: int|
            0 <= t < entry_insert(es.skip(1), k, v).len() && entry_insert(es.skip(1), k, v)[t]
                == (k, v);
        assert(out[t + 1] == (k, v));
    }
}

/// A map-insert under a different key keeps every old entry.
pub proof fn lemma_lookup_stays(es: Seq<(Seq<char>, SpecValue)>, k: Seq<char>, v: SpecValue)
    ensures
        forall|t: int|
            0 <= t < es.len() && (#[trigger] es[t]).0 != k ==> exists|m: int|
                0 <= m < entry_insert(es, k, v).len() && entry_insert(es, k, v)[m] == es[t],
    decreases es.len(),
{
    let out = entry_insert(es, k, v);
    assert forall|t: int|
        0 <= t < es.len() && (#[trigger] es[t]).0 != k implies exists|m: int|
        0 <= m < entry_insert(es, k, v).len() && entry_insert(es, k, v)[m] == es[t] by {
        if lex_lt(k, es[0].0) {
            assert(entry_insert(es, k, v)[t + 1] == es[t]);
        } else if k == es[0].0 {
            assert(t >= 1);
            assert(entry_insert(es, k, v)[t] == es[t]);
        } else {
            let tail = es.skip(1);
            lemma_lookup_stays(tail, k, v);
            let sub = entry_insert(tail, k, v);
            if t == 0 {
                assert(entry_insert(es, k, v)[0] == es[0]);
            } else {
                assert(tail[t - 1] == es[t]);
                let m0 = choose|m0: int| 0 <= m0 < sub.len() && sub[m0] == tail[t - 1];
                assert(entry_insert(es, k, v)[m0 + 1] == es[t]);
            }
        }
    }
}

/// Two key-sorted entry lists carrying the same key set have the same key
/// at every position.
pub proof fn lemma_sorted_same_keys(
    a: Seq<(Seq<char>, SpecValue)>,
    b: Seq<(Seq<char>, SpecValue)>,
)
    requires
        entries_sorted(a),
        entries_sorted(b),
        key_set(a) == key_set(b),
    ensures
        a.len() == b.len(),
        forall|j: int| 0 <= j < a.len() ==> (#[trigger] a[j]).0 == b[j].0,
    decreases a.len() + b.len(),
{
    if a.len() == 0 {
        if b.len() > 0 {
            assert(key_set(b).contains(b[0].0));
            assert(key_set(a).contains(b[0].0));
            assert(false);
        }
    } else if b.len() == 0 {
        assert(key_set(a).contains(a[0].0));
        assert(key_set(b).contains(a[0].0));
        assert(false);
    } else {
        // the heads are both the least key of the shared set, hence equal
        assert(key_set(a).contains(a[0].0));
        assert(key_set(b).contains(b[0].0));
        let ia = choose|i: int| 0 <= i < a.len() && a[i].0 == b[0].0;
        let ib = choose|i: int| 0 <= i < b.len() && b[i].0 == a[0].0;
        assert(a[0].0 == b[0].0) by {
            if a[0].0 != b[0].0 {
                assert(ia > 0) by {
                    if ia == 0 {
                        assert(a[0].0 == b[0].0);
                    }
                }
                assert(ib > 0) by {
                    if ib == 0 {
                        assert(b[0].0 == a[0].0);
                    }
                }
                assert(lex_lt(a[0].0, a[ia].0));
                assert(lex_lt(a[0].0, b[0].0));
                assert(lex_lt(b[0].0, b[ib].0));
                assert(lex_lt(b[0].0, a[0].0));
                lemma_lex_lt_asymm(a[0].0, b[0].0);
                assert(false);
            }
        }
        let ta = a.skip(1);
        let tb = b.skip(1);
        assert(entries_sorted(ta)) by {
            assert(forall|i: int| 0 <= i < ta.len() ==> #[trigger] ta[i] == a[i + 1]);
        }
        assert(entries_sorted(tb)) by {
            assert(forall|i: int| 0 <= i < tb.len() ==> #[trigger] tb[i] == b[i + 1]);
        }
        assert(key_set(ta) =~= key_set(tb)) by {
            assert forall|k: Seq<char>|
                key_set(ta).contains(k) == key_set(tb).contains(k) by {
                if key_set(ta).contains(k) {
                    let i = choose|i: int| 0 <= i < ta.len() && ta[i].0 == k;
                    assert(a[i + 1].0 == k);
                    assert(key_set(a).contains(k));
                    let m = choose|m: int| 0 <= m < b.len() && b[m].0 == k;
                    assert(m > 0) by {
                        if m == 0 {
                            assert(lex_lt(a[0].0, a[i + 1].0));
                            lemma_lex_lt_asymm(a[0].0, a[i + 1].0);
                        }
                    }
                    assert(tb[m - 1].0 == k);
                    assert(key_set(tb).contains(k));
                }
                if key_set(tb).contains(k) {
                    let i = choose|i: int| 0 <= i < tb.len() && tb[i].0 == k;
                    assert(b[i + 1].0 == k);
                    assert(key_set(b).contains(k));
                    let m = choose|m: int| 0 <= m < a.len() && a[m].0 == k;
                    assert(m > 0) by {
                        if m == 0 {
                            assert(lex_lt(b[0].0, b[i + 1].0));
                            lemma_lex_lt_asymm(b[0].0, b[i + 1].0);
                        }
                    }
                    assert(ta[m - 1].0 == k);
                    assert(key_set(ta).contains(k));
                }
            }
        }
        lemma_sorted_same_keys(ta, tb);
        assert forall|j: int| 0 <= j < a.len() implies (#[trigger] a[j]).0 == b[j].0 by {
            if j > 0 {
                assert(ta[j - 1].0 == tb[j - 1].0);
            }
        }
    }
}

/// Compare two strings in the key order: true when `a` comes strictly
/// before `b`.
pub fn str_lex_lt(a: &str, b: &str) -> (r: bool)
    ensures
        r == lex_lt(a@, b@),
{
    let alen = a.unicode_len();
    let blen = b.unicode_len();
    let mut i: usize = 0;
    proof {
        assert(a@.skip(0) =~= a@);
        assert(b@.skip(0) =~= b@);
    }
    loop
        invariant
            i <= alen,
            i <= blen,
            alen == a@.len(),
            blen == b@.len(),
            lex_lt(a@, b@) == lex_lt(a@.skip(i as int), b@.skip(i as int)),
        decreases alen - i,
    {
        if i >= blen {
            return false;
        }
        if i >= alen {
            return true;
        }
        let ca = a.get_char(i);
        let cb = b.get_char(i);
        if ca != cb {
            return (ca as u32) < (cb as u32);
        }
        proof {
            assert(a@.skip(i as int)[0] == a@[i as int]);
            assert(b@.skip(i as int)[0] == b@[i as int]);
            assert(a@.skip(i as int).skip(1) =~= a@.skip(i as int + 1));
            assert(b@.skip(i as int).skip(1) =~= b@.skip(i as int + 1));
        }
        i = i + 1;
    }
}

/// Map-insert an entry into a key-sorted entry list: it lands after the
/// strictly smaller keys, and a duplicate key replaces the earlier value.
pub fn obj_insert(es: &mut Vec<(String, Value)>, k: String, v: Value)
    requires
        entries_sorted(view_entries(old(es)@)),
    ensures
        view_entries(final(es)@) == entry_insert(view_entries(old(es)@), k@, v@),
        entries_sorted(view_entries(final(es)@)),
{
    proof {
        lemma_view_entries(es@);
    }
    let ghost cur = view_entries(es@);
    let mut p: usize = 0;
    loop
        invariant
            p <= es@.len(),
            es@ == old(es)@,
            cur == view_entries(es@),
            cur.len() == es@.len(),
            entries_sorted(cur),
            forall|q: int| 0 <= q < p ==> lex_lt((#[trigger] cur[q]).0, k@),
        ensures
            p <= es@.len(),
            es@ == old(es)@,
            forall|q: int| 0 <= q < p ==> lex_lt((#[trigger] cur[q]).0, k@),
            p == es@.len() || !lex_lt(cur[p as int].0, k@),
        decreases es@.len() - p,
    {
        if p >= es.len() {
            break;
        }
        proof {
            lemma_view_entries(es@);
        }
        if !str_lex_lt(es[p].0.as_str(), k.as_str()) {
            break;
        }
        p = p + 1;
    }
    proof {
        lemma_entry_insert_at(cur, k@, v@, p as int);
        lemma_view_entries(es@);
    }
    if p < es.len() && es[p].0 == k {
        es.remove(p);
        es.insert(p, (k, v));
        proof {
            old(es)@.remove_ensures(p as int);
            old(es)@.remove(p as int).insert_ensures(p as int, (k, v));
            assert(es@ =~= old(es)@.update(p as int, (k, v)));
            lemma_view_entries_update(old(es)@, p as int, (k, v));
        }
    } else {
        es.insert(p, (k, v));
        proof {
            lemma_view_entries_insert(old(es)@, p as int, (k, v));
        }
    }
}

/// The keys of `es` read through `idxs`, with each value canonicalized:
/// what the encoder emits when it walks `es` in the order `idxs`.
pub open spec fn entries_at(es: Seq<(String, Value)>, idxs: Seq<usize>) -> Seq<
    (Seq<char>, SpecValue),
> {
    Seq::new(idxs.len(), |t: int| (es[idxs[t] as int].0@, canon(es[idxs[t] as int].1@)))
}

/// The order in which an object's entries are emitted: indices of `es`
/// arranged so that the entries they pick out are exactly the canonical
/// (key-sorted) form of the object.
pub fn sorted_indices(es: &Vec<(String, Value)>) -> (idxs: Vec<usize>)
    requires
        keys_unique(view_entries(es@)),
    ensures
        entries_at(es@, idxs@) == sort_entries(canon_entries(view_entries(es@))),
        idxs@.len() == es@.len(),
        forall|t: int| 0 <= t < idxs@.len() ==> (#[trigger] idxs@[t]) < es@.len(),
{
    proof {
        lemma_view_entries(es@);
        lemma_canon_entries(view_entries(es@));
    }
    let ghost target = canon_entries(view_entries(es@));
    let mut idxs: Vec<usize> = Vec::new();
    let mut j: usize = 0;
    proof {
        assert(entries_at(es@, idxs@) =~= sort_entries(target.take(0)));
    }
    while j < es.len()
        invariant
            j <= es@.len(),
            target == canon_entries(view_entries(es@)),
            target.len() == es@.len(),
            keys_unique(view_entries(es@)),
            forall|t: int| 0 <= t < idxs@.len() ==> (#[trigger] idxs@[t]) < j,
            forall|t1: int, t2: int|
                0 <= t1 < t2 < idxs@.len() ==> idxs@[t1] != idxs@[t2],
            idxs@.len() == j,
            entries_at(es@, idxs@) == sort_entries(target.take(j as int)),
            entries_sorted(entries_at(es@, idxs@)),
        decreases es@.len() - j,
    {
        proof {
            lemma_view_entries(es@);
            lemma_canon_entries(view_entries(es@));
        }
        let ghost cur = entries_at(es@, idxs@);
        let k: &String = &es[j].0;
        let mut p: usize = 0;
        loop
            invariant
                p <= idxs@.len(),
                idxs@.len() == j < es@.len(),
                forall|t: int| 0 <= t < idxs@.len() ==> (#[trigger] idxs@[t]) < j,
                cur == entries_at(es@, idxs@),
                k@ == es@[j as int].0@,
                forall|q: int| 0 <= q < p ==> lex_lt((#[trigger] cur[q]).0, k@),
            ensures
                p <= idxs@.len(),
                forall|q: int| 0 <= q < p ==> lex_lt((#[trigger] cur[q]).0, k@),
                p == idxs@.len() || !lex_lt(cur[p as int].0, k@),
            decreases idxs@.len() - p,
        {
            if p >= idxs.len() {
                break;
            }
            let t = idxs[p];
            if !str_lex_lt(es[t].0.as_str(), k.as_str()) {
                break;
            }
            p = p + 1;
        }
        proof {
            lemma_entry_insert_at(cur, k@, canon(es@[j as int].1@), p as int);
            // the key at position p, if any, differs from k: the keys are unique
            if p < idxs@.len() && cur[p as int].0 == k@ {
                let t = idxs@[p as int] as int;
                assert(view_entries(es@)[t].0 == cur[p as int].0);
                assert(view_entries(es@)[j as int].0 == k@);
                assert(false);
            }
        }
        idxs.insert(p, j);
        proof {
            let newcur = entries_at(es@, idxs@);
            assert(newcur =~= cur.insert(p as int, (k@, canon(es@[j as int].1@))));
            assert(target.take(j as int + 1).drop_last() =~= target.take(j as int));
            assert(target.take(j as int + 1).last() == target[j as int]);
            assert(target[j as int] == (k@, canon(es@[j as int].1@)));
            assert(newcur == sort_entries(target.take(j as int + 1)));
        }
        j = j + 1;
    }
    proof {
        assert(target.take(es@.len() as int) =~= target);
    }
    idxs
}

impl Value {
    /// Build a number value from its decimal text; fails when the text is
    /// not a valid JSON number. The stored text is the canonical rendering.
    pub fn number(text: &str) -> (r: Option<Value>)
        ensures
            r is Some <==> crate::trusted::is_number_text(text@),
            r matches Some(v) ==> {
                &&& v@ == SpecValue::Num(crate::trusted::canon_number(text@))
                &&& wf(v@)
            },
    {
        match canonical_number(text) {
            Some(c) => Some(Value::Num(c)),
            None => None,
        }
    }
}

} // verus!
