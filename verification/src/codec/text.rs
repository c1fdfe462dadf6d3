//! The indentation-based text layout: a recursive printer and a
//! recursive-descent parser over a character cursor.

use vstd::prelude::*;
use vstd::utf8::encode_utf8;
use crate::trusted::{canonical_number, chars_to_string, is_number_char};
use crate::value::{
    canon, canon_entries, canon_items, entries_at, entries_sorted, entry_insert,
    lemma_canon_entries, lemma_canon_items, lemma_view_entries, lemma_view_items,
    lemma_view_items_push, obj_insert, sort_entries, sorted_indices, view_entries, view_items,
    SpecValue, Value, wf,
};
use crate::DecodeError;

verus! {

broadcast use {
    vstd::seq::axiom_seq_index_decreases,
    vstd::seq_lib::lemma_seq_skip_index,
    vstd::seq_lib::lemma_seq_skip_len,
    vstd::seq_lib::lemma_seq_take_index,
    vstd::seq_lib::lemma_seq_take_len,
    vstd::std_specs::vec::axiom_vec_decreases_to_view,
    vstd::std_specs::vec::axiom_vec_index_decreases,
};

/// The whitespace the codec recognizes, on both sides: the parser trims it
/// and the printer quotes strings that contain it. The class is fixed to
/// the four ASCII whitespace characters, deliberately: the printer never
/// emits any other whitespace, so the codec is self-consistent, and a
/// character outside this class (a no-break space, say) is ordinary string
/// content to both directions.
pub open spec fn is_ws(c: char) -> bool {
    c == ' ' || c == '\t' || c == '\n' || c == '\r'
}

/// An ASCII decimal digit.
pub open spec fn is_digit(c: char) -> bool {
    ('0' as u32) <= (c as u32) <= ('9' as u32)
}

/// A character that forces a string to be quoted.
pub open spec fn needs_quote_char(c: char) -> bool {
    is_ws(c) || c == '"' || c == ':' || c == ',' || c == '{' || c == '}' || c == '[' || c == ']'
}

pub open spec fn kw_true() -> Seq<char> {
    seq!['t', 'r', 'u', 'e']
}

pub open spec fn kw_false() -> Seq<char> {
    seq!['f', 'a', 'l', 's', 'e']
}

pub open spec fn kw_null() -> Seq<char> {
    seq!['n', 'u', 'l', 'l']
}

/// Text that could be confused with a number: it begins with a digit or a
/// sign and uses only number characters.
pub open spec fn looks_like_number(s: Seq<char>) -> bool {
    &&& s.len() > 0
    &&& (is_digit(s[0]) || s[0] == '-' || s[0] == '+')
    &&& forall|i: int| 0 <= i < s.len() ==> is_number_char(#[trigger] s[i])
}

/// Whether a string must be printed quoted: it is empty, it is a keyword,
/// it could be read as a number, or it holds a delimiter character.
pub open spec fn spec_needs_quote(s: Seq<char>) -> bool {
    ||| s.len() == 0
    ||| s == kw_true()
    ||| s == kw_false()
    ||| s == kw_null()
    ||| looks_like_number(s)
    ||| exists|i: int| 0 <= i < s.len() && needs_quote_char(#[trigger] s[i])
}

/// A lowercase hex digit.
pub open spec fn hex_digit(d: nat) -> char {
    if d == 0 {
        '0'
    } else if d == 1 {
        '1'
    } else if d == 2 {
        '2'
    } else if d == 3 {
        '3'
    } else if d == 4 {
        '4'
    } else if d == 5 {
        '5'
    } else if d == 6 {
        '6'
    } else if d == 7 {
        '7'
    } else if d == 8 {
        '8'
    } else if d == 9 {
        '9'
    } else if d == 10 {
        'a'
    } else if d == 11 {
        'b'
    } else if d == 12 {
        'c'
    } else if d == 13 {
        'd'
    } else if d == 14 {
        'e'
    } else {
        'f'
    }
}

/// Four lowercase hex digits of `n`.
pub open spec fn hex4(n: nat) -> Seq<char> {
    seq![
        hex_digit(n / 4096 % 16),
        hex_digit(n / 256 % 16),
        hex_digit(n / 16 % 16),
        hex_digit(n % 16),
    ]
}

/// A control character outside the named escapes, written as `\u` and four
/// hex digits.
pub open spec fn is_other_control(c: char) -> bool {
    (c as u32) < 32 || (127 <= (c as u32) && (c as u32) <= 159)
}

/// The escape of one character inside a quoted string.
pub open spec fn esc_char(c: char) -> Seq<char> {
    if c == '"' {
        seq!['\\', '"']
    } else if c == '\\' {
        seq!['\\', '\\']
    } else if c == '\n' {
        seq!['\\', 'n']
    } else if c == '\r' {
        seq!['\\', 'r']
    } else if c == '\t' {
        seq!['\\', 't']
    } else if is_other_control(c) {
        seq!['\\', 'u'] + hex4((c as u32) as nat)
    } else {
        seq![c]
    }
}

/// The escaped body of a quoted string, from position `i` on.
pub open spec fn esc_str(s: Seq<char>, i: int) -> Seq<char>
    decreases s.len() - i,
{
    if i < 0 || i >= s.len() {
        Seq::empty()
    } else {
        esc_char(s[i]) + esc_str(s, i + 1)
    }
}

/// How a string prints: quoted and escaped when it must be, bare otherwise.
pub open spec fn txt_string(s: Seq<char>) -> Seq<char> {
    if spec_needs_quote(s) {
        seq!['"'] + esc_str(s, 0) + seq!['"']
    } else {
        s
    }
}

/// `n` spaces.
pub open spec fn spaces(n: nat) -> Seq<char>
    decreases n,
{
    if n == 0 {
        Seq::empty()
    } else {
        spaces((n - 1) as nat).push(' ')
    }
}

/// The text rendering of one value at the nesting whose indentation is
/// `pad`; children indent by `ind` more spaces. Object entries are emitted
/// as given: the encoder hands this function the canonical form.
pub open spec fn txt_value(v: SpecValue, pad: Seq<char>, ind: nat) -> Seq<char>
    decreases v, 0int,
{
    match v {
        SpecValue::Null => kw_null(),
        SpecValue::Bool(b) => if b {
            kw_true()
        } else {
            kw_false()
        },
        SpecValue::Num(s) => s,
        SpecValue::Str(s) => txt_string(s),
        SpecValue::Arr(items) => if items.len() == 0 {
            seq!['[', ']']
        } else {
            seq!['['] + txt_items(items, 0, pad + spaces(ind), ind) + seq!['\n'] + pad + seq![']']
        },
        SpecValue::Obj(es) => if es.len() == 0 {
            seq!['{', '}']
        } else {
            seq!['{'] + txt_entries(es, 0, pad + spaces(ind), ind) + seq!['\n'] + pad + seq!['}']
        },
    }
}

/// The item lines of an array from position `i` on, each on its own line at
/// indentation `pad`, comma-separated.
pub open spec fn txt_items(items: Seq<SpecValue>, i: int, pad: Seq<char>, ind: nat) -> Seq<char>
    decreases items, items.len() - i,
{
    if i < 0 || i >= items.len() {
        Seq::empty()
    } else {
        seq!['\n'] + pad + txt_value(items[i], pad, ind) + (if i + 1 < items.len() {
            seq![',']
        } else {
            Seq::empty()
        }) + txt_items(items, i + 1, pad, ind)
    }
}

/// The `key: value` lines of an object from position `i` on.
pub open spec fn txt_entries(es: Seq<(Seq<char>, SpecValue)>, i: int, pad: Seq<char>, ind: nat) -> Seq<
    char,
>
    decreases es, es.len() - i,
{
    if i < 0 || i >= es.len() {
        Seq::empty()
    } else {
        seq!['\n'] + pad + txt_string(es[i].0) + seq![':', ' '] + txt_value(es[i].1, pad, ind) + (
        if i + 1 < es.len() {
            seq![',']
        } else {
            Seq::empty()
        }) + txt_entries(es, i + 1, pad, ind)
    }
}

/// Executable test for `is_ws`.
fn is_ws_exec(c: char) -> (r: bool)
    ensures
        r == is_ws(c),
{
    c == ' ' || c == '\t' || c == '\n' || c == '\r'
}

/// Executable test for `is_number_char`.
fn is_number_char_exec(c: char) -> (r: bool)
    ensures
        r == is_number_char(c),
{
    let d = c as u32;
    (48 <= d && d <= 57) || c == '-' || c == '+' || c == '.' || c == 'e' || c == 'E'
}

/// Executable test for `needs_quote_char`.
fn needs_quote_char_exec(c: char) -> (r: bool)
    ensures
        r == needs_quote_char(c),
{
    is_ws_exec(c) || c == '"' || c == ':' || c == ',' || c == '{' || c == '}' || c == '[' || c
        == ']'
}

/// Whether `s` must print quoted.
#[verifier::loop_isolation(false)]
pub fn str_needs_quote(s: &str) -> (r: bool)
    ensures
        r == spec_needs_quote(s@),
{
    let n = s.unicode_len();
    if n == 0 {
        return true;
    }
    if n == 4 && s.get_char(0) == 't' && s.get_char(1) == 'r' && s.get_char(2) == 'u' && s.get_char(
        3,
    ) == 'e' {
        proof {
            assert(s@ =~= kw_true());
        }
        return true;
    }
    if n == 5 && s.get_char(0) == 'f' && s.get_char(1) == 'a' && s.get_char(2) == 'l' && s.get_char(
        3,
    ) == 's' && s.get_char(4) == 'e' {
        proof {
            assert(s@ =~= kw_false());
        }
        return true;
    }
    if n == 4 && s.get_char(0) == 'n' && s.get_char(1) == 'u' && s.get_char(2) == 'l' && s.get_char(
        3,
    ) == 'l' {
        proof {
            assert(s@ =~= kw_null());
        }
        return true;
    }
    proof {
        assert(s@ != kw_true()) by {
            if s@ == kw_true() {
                assert(s@[0] == 't' && s@[1] == 'r' && s@[2] == 'u' && s@[3] == 'e');
            }
        }
        assert(s@ != kw_false()) by {
            if s@ == kw_false() {
                assert(s@[0] == 'f' && s@[1] == 'a' && s@[2] == 'l' && s@[3] == 's' && s@[4]
                    == 'e');
            }
        }
        assert(s@ != kw_null()) by {
            if s@ == kw_null() {
                assert(s@[0] == 'n' && s@[1] == 'u' && s@[2] == 'l' && s@[3] == 'l');
            }
        }
    }
    let c0 = s.get_char(0);
    let d0 = c0 as u32;
    if (48 <= d0 && d0 <= 57) || c0 == '-' || c0 == '+' {
        let mut i: usize = 0;
        let mut all = true;
        while i < n
            invariant
                i <= n,
                all ==> forall|j: int| 0 <= j < i ==> is_number_char(#[trigger] s@[j]),
                !all ==> !looks_like_number(s@),
            decreases n - i,
        {
            if !is_number_char_exec(s.get_char(i)) {
                all = false;
                proof {
                    assert(!is_number_char(s@[i as int]));
                }
            }
            i = i + 1;
        }
        if all {
            proof {
                assert(looks_like_number(s@));
            }
            return true;
        }
    } else {
        proof {
            assert(!looks_like_number(s@));
        }
    }
    let mut i: usize = 0;
    while i < n
        invariant
            i <= n,
            forall|j: int| 0 <= j < i ==> !needs_quote_char(#[trigger] s@[j]),
        decreases n - i,
    {
        if needs_quote_char_exec(s.get_char(i)) {
            return true;
        }
        i = i + 1;
    }
    false
}

/// One lowercase hex digit.
fn hex_digit_exec(d: u32) -> (r: char)
    requires
        d < 16,
    ensures
        r == hex_digit(d as nat),
{
    if d == 0 {
        '0'
    } else if d == 1 {
        '1'
    } else if d == 2 {
        '2'
    } else if d == 3 {
        '3'
    } else if d == 4 {
        '4'
    } else if d == 5 {
        '5'
    } else if d == 6 {
        '6'
    } else if d == 7 {
        '7'
    } else if d == 8 {
        '8'
    } else if d == 9 {
        '9'
    } else if d == 10 {
        'a'
    } else if d == 11 {
        'b'
    } else if d == 12 {
        'c'
    } else if d == 13 {
        'd'
    } else if d == 14 {
        'e'
    } else {
        'f'
    }
}

/// Append the four hex digits of `n`.
fn push_hex4(out: &mut Vec<char>, n: u32)
    requires
        n < 65536,
    ensures
        final(out)@ == old(out)@ + hex4(n as nat),
{
    out.push(hex_digit_exec(n / 4096 % 16));
    out.push(hex_digit_exec(n / 256 % 16));
    out.push(hex_digit_exec(n / 16 % 16));
    out.push(hex_digit_exec(n % 16));
    proof {
        assert(out@ =~= old(out)@ + hex4(n as nat));
    }
}

/// Append every character of `v`.
#[verifier::loop_isolation(false)]
pub(crate) fn push_chars(out: &mut Vec<char>, v: &Vec<char>)
    ensures
        final(out)@ == old(out)@ + v@,
{
    let mut i: usize = 0;
    while i < v.len()
        invariant
            i <= v@.len(),
            out@ == old(out)@ + v@.take(i as int),
        decreases v@.len() - i,
    {
        out.push(v[i]);
        proof {
            assert(out@ =~= old(out)@ + v@.take(i as int + 1));
        }
        i = i + 1;
    }
    proof {
        assert(v@.take(v@.len() as int) =~= v@);
    }
}

/// Append every character of `s`.
#[verifier::loop_isolation(false)]
pub(crate) fn push_str_chars(out: &mut Vec<char>, s: &str)
    ensures
        final(out)@ == old(out)@ + s@,
{
    let n = s.unicode_len();
    let mut i: usize = 0;
    while i < n
        invariant
            i <= n,
            n == s@.len(),
            out@ == old(out)@ + s@.take(i as int),
        decreases n - i,
    {
        out.push(s.get_char(i));
        proof {
            assert(out@ =~= old(out)@ + s@.take(i as int + 1));
        }
        i = i + 1;
    }
    proof {
        assert(s@.take(s@.len() as int) =~= s@);
    }
}

/// Append the text rendering of `s`: quoted and escaped when it must be.
#[verifier::loop_isolation(false)]
pub fn encode_string(out: &mut Vec<char>, s: &str)
    ensures
        final(out)@ == old(out)@ + txt_string(s@),
{
    if !str_needs_quote(s) {
        push_str_chars(out, s);
        return ;
    }
    out.push('"');
    push_escaped(out, s);
    out.push('"');
    proof {
        assert(out@ =~= old(out)@ + txt_string(s@));
    }
}

/// Append the escaped body of `s`, without the surrounding quotes.
#[verifier::loop_isolation(false)]
pub fn push_escaped(out: &mut Vec<char>, s: &str)
    ensures
        final(out)@ == old(out)@ + esc_str(s@, 0),
{
    let ghost base = out@;
    let n = s.unicode_len();
    let mut i: usize = 0;
    while i < n
        invariant
            i <= n,
            n == s@.len(),
            base + esc_str(s@, 0) == out@ + esc_str(s@, i as int),
        decreases n - i,
    {
        let c = s.get_char(i);
        let d = c as u32;
        if c == '"' {
            out.push('\\');
            out.push('"');
        } else if c == '\\' {
            out.push('\\');
            out.push('\\');
        } else if c == '\n' {
            out.push('\\');
            out.push('n');
        } else if c == '\r' {
            out.push('\\');
            out.push('r');
        } else if c == '\t' {
            out.push('\\');
            out.push('t');
        } else if d < 32 || (127 <= d && d <= 159) {
            out.push('\\');
            out.push('u');
            proof {
                vstd::utf8::char_is_scalar(c);
            }
            push_hex4(out, d);
        } else {
            out.push(c);
        }
        proof {
            assert(esc_str(s@, i as int) == esc_char(s@[i as int]) + esc_str(s@, i as int + 1));
            assert(base + esc_str(s@, 0) =~= out@ + esc_str(s@, i as int + 1));
        }
        i = i + 1;
    }
    proof {
        assert(esc_str(s@, n as int) =~= Seq::<char>::empty());
        assert(base + esc_str(s@, 0) =~= base + esc_str(s@, 0) + esc_str(s@, n as int));
    }
}

/// A copy of the characters of `pad`.
#[verifier::loop_isolation(false)]
fn clone_chars(pad: &Vec<char>) -> (r: Vec<char>)
    ensures
        r@ == pad@,
{
    let mut r: Vec<char> = Vec::new();
    push_chars(&mut r, pad);
    proof {
        assert(Seq::<char>::empty() + pad@ =~= pad@);
    }
    r
}

/// Append the text rendering of `v` in canonical form, at the nesting whose
/// indentation is `pad`.
pub fn encode_value(out: &mut Vec<char>, v: &Value, pad: &Vec<char>, indent: usize)
    requires
        wf(v@),
    ensures
        final(out)@ == old(out)@ + txt_value(canon(v@), pad@, indent as nat),
    decreases v, 1int,
{
    match v {
        Value::Null => {
            out.push('n');
            out.push('u');
            out.push('l');
            out.push('l');
            proof {
                assert(out@ =~= old(out)@ + txt_value(canon(v@), pad@, indent as nat));
            }
        },
        Value::Bool(b) => {
            if *b {
                out.push('t');
                out.push('r');
                out.push('u');
                out.push('e');
            } else {
                out.push('f');
                out.push('a');
                out.push('l');
                out.push('s');
                out.push('e');
            }
            proof {
                assert(out@ =~= old(out)@ + txt_value(canon(v@), pad@, indent as nat));
            }
        },
        Value::Num(s) => {
            push_str_chars(out, s.as_str());
        },
        Value::Str(s) => {
            encode_string(out, s.as_str());
        },
        Value::Arr(items) => {
            proof {
                assert(decreases_to!(*v => v->Arr_0));
            }
            encode_array(out, items, pad, indent);
        },
        Value::Obj(es) => {
            proof {
                assert(decreases_to!(*v => v->Obj_0));
            }
            encode_object(out, es, pad, indent);
        },
    }
}

/// Append `pad` widened by `indent` spaces: the indentation one level down.
#[verifier::loop_isolation(false)]
fn child_pad(pad: &Vec<char>, indent: usize) -> (r: Vec<char>)
    ensures
        r@ == pad@ + spaces(indent as nat),
{
    let mut r = clone_chars(pad);
    let mut k: usize = 0;
    while k < indent
        invariant
            k <= indent,
            r@ == pad@ + spaces(k as nat),
        decreases indent - k,
    {
        r.push(' ');
        k = k + 1;
    }
    r
}

/// Append the text rendering of an array: each item on its own line, the
/// closing bracket back at `pad`.
#[verifier::loop_isolation(false)]
#[verifier::rlimit(60)]
pub fn encode_array(out: &mut Vec<char>, items: &Vec<Value>, pad: &Vec<char>, indent: usize)
    requires
        wf(SpecValue::Arr(view_items(items@))),
    ensures
        final(out)@ == old(out)@ + txt_value(
            canon(SpecValue::Arr(view_items(items@))),
            pad@,
            indent as nat,
        ),
    decreases items, 0int,
{
    proof {
        lemma_view_items(items@);
        lemma_canon_items(view_items(items@));
    }
    let ghost citems = canon_items(view_items(items@));
    if items.len() == 0 {
        out.push('[');
        out.push(']');
        proof {
            assert(out@ =~= old(out)@ + txt_value(
                canon(SpecValue::Arr(view_items(items@))),
                pad@,
                indent as nat,
            ));
        }
        return ;
    }
    let pad1 = child_pad(pad, indent);
    out.push('[');
    let ghost base = out@;
    let ghost padc = pad@ + spaces(indent as nat);
    let mut i: usize = 0;
    while i < items.len()
        invariant
            i <= items@.len(),
            base + txt_items(citems, 0, padc, indent as nat) == out@ + txt_items(
                citems,
                i as int,
                padc,
                indent as nat,
            ),
        decreases items@.len() - i,
    {
        out.push('\n');
        push_chars(out, &pad1);
        proof {
            assert(decreases_to!(*items => items@));
            assert(decreases_to!(items@ => items@[i as int]));
            assert(wf(items@[i as int]@));
            assert(citems[i as int] == canon(items@[i as int]@));
        }
        encode_value(out, &items[i], &pad1, indent);
        if i + 1 < items.len() {
            out.push(',');
        }
        proof {
            assert(base + txt_items(citems, 0, padc, indent as nat) =~= out@ + txt_items(
                citems,
                i as int + 1,
                padc,
                indent as nat,
            ));
        }
        i = i + 1;
    }
    out.push('\n');
    push_chars(out, pad);
    out.push(']');
    proof {
        assert(txt_items(citems, items@.len() as int, padc, indent as nat) =~= Seq::<
            char,
        >::empty());
        assert(out@ =~= old(out)@ + txt_value(
            canon(SpecValue::Arr(view_items(items@))),
            pad@,
            indent as nat,
        ));
    }
}

/// Append the text rendering of an object: one `key: value` line per entry,
/// keys sorted, the closing brace back at `pad`.
#[verifier::loop_isolation(false)]
#[verifier::rlimit(60)]
pub fn encode_object(out: &mut Vec<char>, es: &Vec<(String, Value)>, pad: &Vec<char>, indent: usize)
    requires
        wf(SpecValue::Obj(view_entries(es@))),
    ensures
        final(out)@ == old(out)@ + txt_value(
            canon(SpecValue::Obj(view_entries(es@))),
            pad@,
            indent as nat,
        ),
    decreases es, 0int,
{
    proof {
        lemma_view_entries(es@);
        lemma_canon_entries(view_entries(es@));
    }
    let ghost target = sort_entries(canon_entries(view_entries(es@)));
    if es.len() == 0 {
        out.push('{');
        out.push('}');
        proof {
            assert(target.len() == 0);
            assert(out@ =~= old(out)@ + txt_value(
                canon(SpecValue::Obj(view_entries(es@))),
                pad@,
                indent as nat,
            ));
        }
        return ;
    }
    let idxs = sorted_indices(es);
    let pad1 = child_pad(pad, indent);
    out.push('{');
    let ghost base = out@;
    let ghost padc = pad@ + spaces(indent as nat);
    let mut i: usize = 0;
    while i < idxs.len()
        invariant
            i <= idxs@.len(),
            base + txt_entries(target, 0, padc, indent as nat) == out@ + txt_entries(
                target,
                i as int,
                padc,
                indent as nat,
            ),
        decreases idxs@.len() - i,
    {
        let t = idxs[i];
        out.push('\n');
        push_chars(out, &pad1);
        proof {
            assert(target[i as int] == (es@[t as int].0@, canon(es@[t as int].1@)));
            assert(view_entries(es@)[t as int] == (es@[t as int].0@, es@[t as int].1@));
            assert(wf(es@[t as int].1@));
        }
        encode_string(out, es[t].0.as_str());
        out.push(':');
        out.push(' ');
        proof {
            assert(decreases_to!(*es => es@));
            assert(decreases_to!(es@ => es@[t as int]));
            assert(decreases_to!(es@[t as int] => es@[t as int].1));
        }
        encode_value(out, &es[t].1, &pad1, indent);
        if i + 1 < idxs.len() {
            out.push(',');
        }
        proof {
            assert(base + txt_entries(target, 0, padc, indent as nat) =~= out@ + txt_entries(
                target,
                i as int + 1,
                padc,
                indent as nat,
            ));
        }
        i = i + 1;
    }
    out.push('\n');
    push_chars(out, pad);
    out.push('}');
    proof {
        assert(txt_entries(target, target.len() as int, padc, indent as nat) =~= Seq::<
            char,
        >::empty());
        assert(out@ =~= old(out)@ + txt_value(
            canon(SpecValue::Obj(view_entries(es@))),
            pad@,
            indent as nat,
        ));
    }
}

/// Encode `value` as indented UTF-8 text, `indent_size` spaces per nesting
/// level, in canonical form.
pub fn encode(value: &Value, indent_size: u8) -> (r: Vec<u8>)
    requires
        wf(value@),
    ensures
        r@ == encode_utf8(txt_value(canon(value@), Seq::empty(), indent_size as nat)),
{
    let mut out: Vec<char> = Vec::new();
    let pad: Vec<char> = Vec::new();
    encode_value(&mut out, value, &pad, indent_size as usize);
    proof {
        assert(Seq::<char>::empty() + txt_value(canon(value@), Seq::empty(), indent_size as nat)
            =~= txt_value(canon(value@), Seq::empty(), indent_size as nat));
    }
    let s = chars_to_string(&out);
    s.as_str().as_bytes_vec()
}

/// First position at or after `i` whose character is not whitespace.
pub open spec fn ws_end(s: Seq<char>, i: int) -> int
    decreases s.len() - i,
{
    if 0 <= i < s.len() && is_ws(s[i]) {
        ws_end(s, i + 1)
    } else {
        i
    }
}

/// First position at or after `i` whose character is not a space or tab:
/// header scanning, where a newline is significant.
pub open spec fn hspace_end(s: Seq<char>, i: int) -> int
    decreases s.len() - i,
{
    if 0 <= i < s.len() && (s[i] == ' ' || s[i] == '\t') {
        hspace_end(s, i + 1)
    } else {
        i
    }
}

/// End of an unquoted string token: the first whitespace, comma, closing
/// bracket or colon.
pub open spec fn tok_end(s: Seq<char>, i: int) -> int
    decreases s.len() - i,
{
    if 0 <= i < s.len() && !(is_ws(s[i]) || s[i] == ',' || s[i] == '}' || s[i] == ']' || s[i]
        == ':') {
        tok_end(s, i + 1)
    } else {
        i
    }
}

/// End of an unquoted object key: the first whitespace or colon.
pub open spec fn key_end(s: Seq<char>, i: int) -> int
    decreases s.len() - i,
{
    if 0 <= i < s.len() && !(is_ws(s[i]) || s[i] == ':') {
        key_end(s, i + 1)
    } else {
        i
    }
}

/// End of an unquoted tabular header key: the first whitespace or comma.
pub open spec fn hkey_end(s: Seq<char>, i: int) -> int
    decreases s.len() - i,
{
    if 0 <= i < s.len() && !(is_ws(s[i]) || s[i] == ',') {
        hkey_end(s, i + 1)
    } else {
        i
    }
}

/// End of the maximal run of number characters from `i` on.
pub open spec fn num_end(s: Seq<char>, i: int) -> int
    decreases s.len() - i,
{
    if 0 <= i < s.len() && is_number_char(s[i]) {
        num_end(s, i + 1)
    } else {
        i
    }
}

/// Whether the literal `lit` stands at position `i`.
pub open spec fn lit_at(s: Seq<char>, i: int, lit: Seq<char>) -> bool {
    i + lit.len() <= s.len() && s.subrange(i, i + lit.len() as int) == lit
}

/// A hex digit, either case.
pub open spec fn is_hex(c: char) -> bool {
    is_digit(c) || ('a' as u32) <= (c as u32) <= ('f' as u32) || ('A' as u32) <= (c as u32) <= (
    'F' as u32)
}

/// The value of a hex digit.
pub open spec fn hex_val(c: char) -> nat {
    if is_digit(c) {
        ((c as u32) - 48) as nat
    } else if ('a' as u32) <= (c as u32) <= ('f' as u32) {
        ((c as u32) - 87) as nat
    } else {
        ((c as u32) - 55) as nat
    }
}

/// Parse the body of a quoted string, the opening quote already consumed;
/// `acc` holds the characters read so far.
pub open spec fn sp_qstr(s: Seq<char>, i: int, acc: Seq<char>) -> Option<(Seq<char>, int)>
    decreases s.len() - i,
{
    if i < 0 || i >= s.len() {
        None
    } else if s[i] == '"' {
        Some((acc, i + 1))
    } else if s[i] == '\\' {
        if i + 1 >= s.len() {
            None
        } else {
            let e = s[i + 1];
            if e == 'n' {
                sp_qstr(s, i + 2, acc.push('\n'))
            } else if e == 'r' {
                sp_qstr(s, i + 2, acc.push('\r'))
            } else if e == 't' {
                sp_qstr(s, i + 2, acc.push('\t'))
            } else if e == '"' {
                sp_qstr(s, i + 2, acc.push('"'))
            } else if e == '\\' {
                sp_qstr(s, i + 2, acc.push('\\'))
            } else if e == 'u' {
                if i + 6 > s.len() {
                    None
                } else if is_hex(s[i + 2]) && is_hex(s[i + 3]) && is_hex(s[i + 4]) && is_hex(
                    s[i + 5],
                ) {
                    let code = 4096 * hex_val(s[i + 2]) + 256 * hex_val(s[i + 3]) + 16 * hex_val(
                        s[i + 4],
                    ) + hex_val(s[i + 5]);
                    if vstd::utf8::is_scalar(code as u32) {
                        sp_qstr(s, i + 6, acc.push((code as u32) as char))
                    } else {
                        None
                    }
                } else {
                    None
                }
            } else {
                None
            }
        }
    } else {
        sp_qstr(s, i + 1, acc.push(s[i]))
    }
}

/// Parse an object key at `i`: quoted, or a run up to whitespace or colon.
pub open spec fn sp_key(s: Seq<char>, i: int) -> Option<(Seq<char>, int)> {
    if 0 <= i < s.len() && s[i] == '"' {
        sp_qstr(s, i + 1, Seq::empty())
    } else {
        let e = key_end(s, i);
        if e == i {
            None
        } else {
            Some((s.subrange(i, e), e))
        }
    }
}

/// Parse an unquoted string token at `i`.
pub open spec fn sp_unquoted(s: Seq<char>, i: int) -> Option<(SpecValue, int)> {
    let e = tok_end(s, i);
    if e == i {
        None
    } else {
        Some((SpecValue::Str(s.subrange(i, e)), e))
    }
}

/// Parse one text value at `i`: trim whitespace, then dispatch on the next
/// character. Fuel falls on entering a collection and per element, and each
/// such step consumes at least one character, so the input length is always
/// fuel enough.
pub open spec fn sp_value(s: Seq<char>, i: int, f: nat) -> Option<(SpecValue, int)>
    decreases f, 0int,
{
    if f == 0 {
        None
    } else {
        let j = ws_end(s, i);
        if j >= s.len() {
            None
        } else if s[j] == '{' {
            sp_obj_items(s, j + 1, Seq::empty(), (f - 1) as nat)
        } else if s[j] == '[' {
            let k = ws_end(s, j + 1);
            if k + 1 < s.len() && s[k] == '#' && s[k + 1] == ' ' {
                sp_tab_hdr(s, k + 1, Seq::empty(), (f - 1) as nat)
            } else {
                sp_arr_items(s, j + 1, Seq::empty(), (f - 1) as nat)
            }
        } else {
            sp_leaf(s, j)
        }
    }
}

/// Parse a leaf value at `j`: a quoted string, a keyword, a number with an
/// unquoted-string fallback, or an unquoted string.
pub open spec fn sp_leaf(s: Seq<char>, j: int) -> Option<(SpecValue, int)> {
    if 0 <= j < s.len() && s[j] == '"' {
        match sp_qstr(s, j + 1, Seq::empty()) {
            Some((t, e)) => Some((SpecValue::Str(t), e)),
            None => None,
        }
    } else if lit_at(s, j, kw_true()) {
        Some((SpecValue::Bool(true), j + 4))
    } else if lit_at(s, j, kw_false()) {
        Some((SpecValue::Bool(false), j + 5))
    } else if lit_at(s, j, kw_null()) {
        Some((SpecValue::Null, j + 4))
    } else if 0 <= j < s.len() && (is_digit(s[j]) || s[j] == '-') {
        let e = num_end(s, j);
        let run = s.subrange(j, e);
        if crate::trusted::is_number_text(run) {
            Some((SpecValue::Num(crate::trusted::canon_number(run)), e))
        } else {
            sp_unquoted(s, j)
        }
    } else {
        sp_unquoted(s, j)
    }
}

/// Parse the remaining entries of an object, the opening brace already
/// consumed; `acc` holds the map built so far.
pub open spec fn sp_obj_items(
    s: Seq<char>,
    i: int,
    acc: Seq<(Seq<char>, SpecValue)>,
    f: nat,
) -> Option<(SpecValue, int)>
    decreases f, 1int,
{
    if f == 0 {
        None
    } else {
        let j = ws_end(s, i);
        if j >= s.len() {
            None
        } else if s[j] == '}' {
            Some((SpecValue::Obj(acc), j + 1))
        } else {
            match sp_key(s, j) {
                None => None,
                Some((k, j2)) => {
                    let j3 = ws_end(s, j2);
                    if j3 < s.len() && s[j3] == ':' {
                        match sp_value(s, j3 + 1, f) {
                            None => None,
                            Some((v, j4)) => {
                                let acc2 = entry_insert(acc, k, v);
                                let j5 = ws_end(s, j4);
                                if j5 < s.len() && s[j5] == ',' {
                                    sp_obj_items(s, j5 + 1, acc2, (f - 1) as nat)
                                } else if j5 < s.len() && s[j5] == '}' {
                                    Some((SpecValue::Obj(acc2), j5 + 1))
                                } else {
                                    None
                                }
                            },
                        }
                    } else {
                        None
                    }
                },
            }
        }
    }
}

/// Parse the remaining items of an array, the opening bracket already
/// consumed.
pub open spec fn sp_arr_items(s: Seq<char>, i: int, acc: Seq<SpecValue>, f: nat) -> Option<
    (SpecValue, int),
>
    decreases f, 1int,
{
    if f == 0 {
        None
    } else {
        let j = ws_end(s, i);
        if j >= s.len() {
            None
        } else if s[j] == ']' {
            Some((SpecValue::Arr(acc), j + 1))
        } else {
            match sp_value(s, j, f) {
                None => None,
                Some((v, j2)) => {
                    let j3 = ws_end(s, j2);
                    if j3 < s.len() && s[j3] == ',' {
                        sp_arr_items(s, j3 + 1, acc.push(v), (f - 1) as nat)
                    } else if j3 < s.len() && s[j3] == ']' {
                        Some((SpecValue::Arr(acc.push(v)), j3 + 1))
                    } else {
                        None
                    }
                },
            }
        }
    }
}

/// Parse the rest of a tabular header line, `i` just after the `#` or a
/// separating comma; a newline ends the header and starts the rows.
pub open spec fn sp_tab_hdr(s: Seq<char>, i: int, keys: Seq<Seq<char>>, f: nat) -> Option<
    (SpecValue, int),
>
    decreases f, 1int,
{
    if f == 0 {
        None
    } else {
        let j = hspace_end(s, i);
        if j >= s.len() {
            None
        } else if s[j] == '\n' {
            sp_tab_rows(s, j + 1, keys, Seq::empty(), (f - 1) as nat)
        } else {
            let parsed = if s[j] == '"' {
                sp_qstr(s, j + 1, Seq::empty())
            } else {
                let e = hkey_end(s, j);
                if e == j {
                    None
                } else {
                    Some((s.subrange(j, e), e))
                }
            };
            match parsed {
                None => None,
                Some((k, j2)) => {
                    let j3 = hspace_end(s, j2);
                    if j3 < s.len() && s[j3] == ',' {
                        sp_tab_hdr(s, j3 + 1, keys.push(k), (f - 1) as nat)
                    } else if j3 < s.len() && s[j3] == '\n' {
                        sp_tab_rows(s, j3 + 1, keys.push(k), Seq::empty(), (f - 1) as nat)
                    } else {
                        None
                    }
                },
            }
        }
    }
}

/// Parse the remaining tabular rows, one object per row.
pub open spec fn sp_tab_rows(
    s: Seq<char>,
    i: int,
    keys: Seq<Seq<char>>,
    acc: Seq<SpecValue>,
    f: nat,
) -> Option<(SpecValue, int)>
    decreases f, 2 + keys.len(),
{
    if f == 0 {
        None
    } else {
        let j = ws_end(s, i);
        if j >= s.len() {
            None
        } else if s[j] == ']' {
            Some((SpecValue::Arr(acc), j + 1))
        } else {
            match sp_tab_cells(s, j, keys, 0, Seq::empty(), f) {
                None => None,
                Some((row, j2)) => {
                    let j3 = ws_end(s, j2);
                    if j3 < s.len() && s[j3] == ',' {
                        sp_tab_rows(s, j3 + 1, keys, acc.push(row), (f - 1) as nat)
                    } else if j3 < s.len() && s[j3] == ']' {
                        Some((SpecValue::Arr(acc.push(row)), j3 + 1))
                    } else {
                        None
                    }
                },
            }
        }
    }
}

/// Parse the remaining cells of one tabular row, from column `idx` on,
/// map-inserting each under its header key.
pub open spec fn sp_tab_cells(
    s: Seq<char>,
    i: int,
    keys: Seq<Seq<char>>,
    idx: nat,
    acc: Seq<(Seq<char>, SpecValue)>,
    f: nat,
) -> Option<(SpecValue, int)>
    decreases f, 1 + keys.len() - idx,
{
    if idx >= keys.len() {
        Some((SpecValue::Obj(acc), i))
    } else {
        match sp_value(s, i, f) {
            None => None,
            Some((v, j)) => {
                let acc2 = entry_insert(acc, keys[idx as int], v);
                if idx + 1 < keys.len() {
                    let j2 = ws_end(s, j);
                    if j2 < s.len() && s[j2] == ',' {
                        sp_tab_cells(s, j2 + 1, keys, idx + 1, acc2, f)
                    } else {
                        None
                    }
                } else {
                    sp_tab_cells(s, j, keys, idx + 1, acc2, f)
                }
            },
        }
    }
}

/// What decoding text bytes returns: UTF-8 decode, then one parsed value;
/// trailing text is ignored.
pub open spec fn spec_text_decode(b: Seq<u8>) -> Result<SpecValue, DecodeError> {
    if !vstd::utf8::valid_utf8(b) {
        Err(DecodeError::InvalidUtf8)
    } else {
        let s = vstd::utf8::decode_utf8(b);
        match sp_value(s, 0, s.len()) {
            Some((v, _)) => Ok(v),
            None => Err(DecodeError::ParseError),
        }
    }
}

/// Skip whitespace from `i`.
#[verifier::loop_isolation(false)]
fn skip_ws(s: &Vec<char>, i: usize) -> (r: usize)
    requires
        i <= s@.len(),
    ensures
        r as int == ws_end(s@, i as int),
        i <= r <= s@.len(),
{
    let mut p = i;
    while p < s.len() && is_ws_exec(s[p])
        invariant
            i <= p <= s@.len(),
            ws_end(s@, i as int) == ws_end(s@, p as int),
        decreases s@.len() - p,
    {
        p = p + 1;
    }
    p
}

/// Skip spaces and tabs from `i`.
#[verifier::loop_isolation(false)]
fn skip_hspace(s: &Vec<char>, i: usize) -> (r: usize)
    requires
        i <= s@.len(),
    ensures
        r as int == hspace_end(s@, i as int),
        i <= r <= s@.len(),
{
    let mut p = i;
    while p < s.len() && (s[p] == ' ' || s[p] == '\t')
        invariant
            i <= p <= s@.len(),
            hspace_end(s@, i as int) == hspace_end(s@, p as int),
        decreases s@.len() - p,
    {
        p = p + 1;
    }
    p
}

/// End of the unquoted string token starting at `i`.
#[verifier::loop_isolation(false)]
fn scan_tok_end(s: &Vec<char>, i: usize) -> (r: usize)
    requires
        i <= s@.len(),
    ensures
        r as int == tok_end(s@, i as int),
        i <= r <= s@.len(),
{
    let mut p = i;
    while p < s.len() && !(is_ws_exec(s[p]) || s[p] == ',' || s[p] == '}' || s[p] == ']' || s[p]
        == ':')
        invariant
            i <= p <= s@.len(),
            tok_end(s@, i as int) == tok_end(s@, p as int),
        decreases s@.len() - p,
    {
        p = p + 1;
    }
    p
}

/// End of the unquoted key starting at `i`.
#[verifier::loop_isolation(false)]
fn scan_key_end(s: &Vec<char>, i: usize) -> (r: usize)
    requires
        i <= s@.len(),
    ensures
        r as int == key_end(s@, i as int),
        i <= r <= s@.len(),
{
    let mut p = i;
    while p < s.len() && !(is_ws_exec(s[p]) || s[p] == ':')
        invariant
            i <= p <= s@.len(),
            key_end(s@, i as int) == key_end(s@, p as int),
        decreases s@.len() - p,
    {
        p = p + 1;
    }
    p
}

/// End of the unquoted header key starting at `i`.
#[verifier::loop_isolation(false)]
fn scan_hkey_end(s: &Vec<char>, i: usize) -> (r: usize)
    requires
        i <= s@.len(),
    ensures
        r as int == hkey_end(s@, i as int),
        i <= r <= s@.len(),
{
    let mut p = i;
    while p < s.len() && !(is_ws_exec(s[p]) || s[p] == ',')
        invariant
            i <= p <= s@.len(),
            hkey_end(s@, i as int) == hkey_end(s@, p as int),
        decreases s@.len() - p,
    {
        p = p + 1;
    }
    p
}

/// End of the run of number characters starting at `i`.
#[verifier::loop_isolation(false)]
fn scan_num_end(s: &Vec<char>, i: usize) -> (r: usize)
    requires
        i <= s@.len(),
    ensures
        r as int == num_end(s@, i as int),
        i <= r <= s@.len(),
{
    let mut p = i;
    while p < s.len() && is_number_char_exec(s[p])
        invariant
            i <= p <= s@.len(),
            num_end(s@, i as int) == num_end(s@, p as int),
        decreases s@.len() - p,
    {
        p = p + 1;
    }
    p
}

/// The characters of `s` between `a` and `b`, as a string.
#[verifier::loop_isolation(false)]
fn substring_chars(s: &Vec<char>, a: usize, b: usize) -> (r: String)
    requires
        a <= b <= s@.len(),
    ensures
        r@ == s@.subrange(a as int, b as int),
{
    let mut v: Vec<char> = Vec::new();
    let mut p = a;
    while p < b
        invariant
            a <= p <= b,
            v@ == s@.subrange(a as int, p as int),
        decreases b - p,
    {
        v.push(s[p]);
        proof {
            assert(v@ =~= s@.subrange(a as int, p as int + 1));
        }
        p = p + 1;
    }
    chars_to_string(&v)
}

/// The value of a hex digit.
fn hex_val_exec(c: char) -> (r: u32)
    requires
        is_hex(c),
    ensures
        r as nat == hex_val(c),
        r < 16,
{
    let d = c as u32;
    if 48 <= d && d <= 57 {
        d - 48
    } else if 97 <= d && d <= 102 {
        d - 87
    } else {
        d - 55
    }
}

/// Executable test for `is_hex`.
fn is_hex_exec(c: char) -> (r: bool)
    ensures
        r == is_hex(c),
{
    let d = c as u32;
    (48 <= d && d <= 57) || (97 <= d && d <= 102) || (65 <= d && d <= 70)
}

/// Parse the body of a quoted string, the opening quote already consumed.
#[verifier::loop_isolation(false)]
#[verifier::rlimit(60)]
fn parse_quoted(s: &Vec<char>, i: usize) -> (r: Option<(String, usize)>)
    requires
        i <= s@.len(),
    ensures
        match r {
            Some(p) => sp_qstr(s@, i as int, Seq::empty()) == Some((p.0@, p.1 as int)) && p.1
                <= s@.len(),
            None => sp_qstr(s@, i as int, Seq::empty()) is None,
        },
{
    let mut acc: Vec<char> = Vec::new();
    let mut p = i;
    loop
        invariant
            i <= p <= s@.len(),
            sp_qstr(s@, i as int, Seq::empty()) == sp_qstr(s@, p as int, acc@),
        decreases s@.len() - p,
    {
        if p >= s.len() {
            return None;
        }
        let c = s[p];
        if c == '"' {
            return Some((chars_to_string(&acc), p + 1));
        }
        if c == '\\' {
            if p + 1 >= s.len() {
                return None;
            }
            let e = s[p + 1];
            if e == 'n' {
                acc.push('\n');
                p = p + 2;
            } else if e == 'r' {
                acc.push('\r');
                p = p + 2;
            } else if e == 't' {
                acc.push('\t');
                p = p + 2;
            } else if e == '"' {
                acc.push('"');
                p = p + 2;
            } else if e == '\\' {
                acc.push('\\');
                p = p + 2;
            } else if e == 'u' {
                if s.len() - p < 6 {
                    return None;
                }
                if !(is_hex_exec(s[p + 2]) && is_hex_exec(s[p + 3]) && is_hex_exec(s[p + 4])
                    && is_hex_exec(s[p + 5])) {
                    return None;
                }
                let code = 4096 * hex_val_exec(s[p + 2]) + 256 * hex_val_exec(s[p + 3]) + 16
                    * hex_val_exec(s[p + 4]) + hex_val_exec(s[p + 5]);
                match char::from_u32(code) {
                    Some(ch) => {
                        proof {
                            vstd::utf8::char_u32_cast(ch, code);
                        }
                        acc.push(ch);
                        p = p + 6;
                    },
                    None => {
                        return None;
                    },
                }
            } else {
                return None;
            }
        } else {
            acc.push(c);
            p = p + 1;
        }
    }
}

/// Parse an unquoted object key starting at `i`; fails on an empty run.
#[verifier::loop_isolation(false)]
pub fn parse_unquoted_key(s: &Vec<char>, i: usize) -> (r: Option<(String, usize)>)
    requires
        i <= s@.len(),
    ensures
        match r {
            Some(p) => key_end(s@, i as int) == p.1 as int && p.1 as int > i as int && p.0@
                == s@.subrange(i as int, p.1 as int) && p.1 <= s@.len(),
            None => key_end(s@, i as int) == i as int,
        },
{
    let e = scan_key_end(s, i);
    if e == i {
        None
    } else {
        Some((substring_chars(s, i, e), e))
    }
}

/// Parse an object key at `i`: quoted or unquoted.
fn parse_key(s: &Vec<char>, i: usize) -> (r: Option<(String, usize)>)
    requires
        i <= s@.len(),
    ensures
        match r {
            Some(p) => sp_key(s@, i as int) == Some((p.0@, p.1 as int)) && p.1 <= s@.len(),
            None => sp_key(s@, i as int) is None,
        },
{
    if i < s.len() && s[i] == '"' {
        parse_quoted(s, i + 1)
    } else {
        parse_unquoted_key(s, i)
    }
}

/// Parse one text value at `pos`: trim whitespace, then dispatch on the
/// next character; `fuel` mirrors the specification's allowance.
#[verifier::loop_isolation(false)]
#[verifier::rlimit(100)]
fn parse_value(s: &Vec<char>, pos: usize, fuel: usize) -> (r: Option<(Value, usize)>)
    requires
        pos <= s@.len(),
    ensures
        match r {
            Some(p) => sp_value(s@, pos as int, fuel as nat) == Some((p.0@, p.1 as int)) && p.1
                <= s@.len(),
            None => sp_value(s@, pos as int, fuel as nat) is None,
        },
    decreases fuel, 0int,
{
    if fuel == 0 {
        return None;
    }
    let j = skip_ws(s, pos);
    if j >= s.len() {
        return None;
    }
    let c = s[j];
    if c == '{' {
        let mut f = fuel - 1;
        let mut p = j + 1;
        let mut es: Vec<(String, Value)> = Vec::new();
        let mut gacc: Ghost<Seq<(Seq<char>, SpecValue)>> = Ghost(Seq::empty());
        proof {
            assert(view_entries(es@) =~= gacc@);
        }
        loop
            invariant
                p <= s@.len(),
                f <= fuel - 1,
                view_entries(es@) == gacc@,
                entries_sorted(gacc@),
                sp_obj_items(s@, j as int + 1, Seq::empty(), (fuel - 1) as nat) == sp_obj_items(
                    s@,
                    p as int,
                    gacc@,
                    f as nat,
                ),
            decreases f,
        {
            if f == 0 {
                return None;
            }
            let q = skip_ws(s, p);
            if q >= s.len() {
                return None;
            }
            if s[q] == '}' {
                return Some((Value::Obj(es), q + 1));
            }
            let (k, q2) = match parse_key(s, q) {
                Some(x) => x,
                None => {
                    return None;
                },
            };
            let q3 = skip_ws(s, q2);
            if q3 >= s.len() {
                return None;
            }
            if s[q3] != ':' {
                return None;
            }
            let (v, q4) = match parse_value(s, q3 + 1, f) {
                Some(x) => x,
                None => {
                    return None;
                },
            };
            proof {
                gacc@ = entry_insert(gacc@, k@, v@);
            }
            obj_insert(&mut es, k, v);
            let q5 = skip_ws(s, q4);
            if q5 < s.len() && s[q5] == ',' {
                p = q5 + 1;
                f = f - 1;
            } else if q5 < s.len() && s[q5] == '}' {
                return Some((Value::Obj(es), q5 + 1));
            } else {
                return None;
            }
        }
    } else if c == '[' {
        let k0 = skip_ws(s, j + 1);
        if k0 < s.len() && s.len() - k0 >= 2 && s[k0] == '#' && s[k0 + 1] == ' ' {
            let keys: Vec<String> = Vec::new();
            proof {
                assert(Seq::new(keys@.len(), |t: int| keys@[t]@) =~= Seq::<Seq<char>>::empty());
            }
            return parse_tab_hdr(s, k0 + 1, keys, fuel - 1);
        }
        let mut f = fuel - 1;
        let mut p = j + 1;
        let mut items: Vec<Value> = Vec::new();
        let mut gacc: Ghost<Seq<SpecValue>> = Ghost(Seq::empty());
        proof {
            assert(view_items(items@) =~= gacc@);
        }
        loop
            invariant
                p <= s@.len(),
                f <= fuel - 1,
                view_items(items@) == gacc@,
                sp_arr_items(s@, j as int + 1, Seq::empty(), (fuel - 1) as nat) == sp_arr_items(
                    s@,
                    p as int,
                    gacc@,
                    f as nat,
                ),
            decreases f,
        {
            if f == 0 {
                return None;
            }
            let q = skip_ws(s, p);
            if q >= s.len() {
                return None;
            }
            if s[q] == ']' {
                return Some((Value::Arr(items), q + 1));
            }
            let (v, q2) = match parse_value(s, q, f) {
                Some(x) => x,
                None => {
                    return None;
                },
            };
            proof {
                lemma_view_items_push(items@, v);
                gacc@ = gacc@.push(v@);
            }
            items.push(v);
            let q3 = skip_ws(s, q2);
            if q3 < s.len() && s[q3] == ',' {
                p = q3 + 1;
                f = f - 1;
            } else if q3 < s.len() && s[q3] == ']' {
                return Some((Value::Arr(items), q3 + 1));
            } else {
                return None;
            }
        }
    } else {
        parse_leaf(s, j)
    }
}

/// Parse a leaf value at `j`, already known not to open a collection.
#[verifier::rlimit(100)]
fn parse_leaf(s: &Vec<char>, j: usize) -> (r: Option<(Value, usize)>)
    requires
        j < s@.len(),
    ensures
        match r {
            Some(p) => sp_leaf(s@, j as int) == Some((p.0@, p.1 as int)) && p.1 <= s@.len(),
            None => sp_leaf(s@, j as int) is None,
        },
{
    let n = s.len();
    let c = s[j];
    if c == '"' {
        match parse_quoted(s, j + 1) {
            Some((t, e)) => Some((Value::Str(t), e)),
            None => None,
        }
    } else if n - j >= 4 && s[j] == 't' && s[j + 1] == 'r' && s[j + 2] == 'u' && s[j + 3]
        == 'e' {
        proof {
            assert(s@.subrange(j as int, j as int + 4) =~= kw_true());
        }
        Some((Value::Bool(true), j + 4))
    } else if n - j >= 5 && s[j] == 'f' && s[j + 1] == 'a' && s[j + 2] == 'l' && s[j + 3]
        == 's' && s[j + 4] == 'e' {
        proof {
            assert(!lit_at(s@, j as int, kw_true())) by {
                if lit_at(s@, j as int, kw_true()) {
                    assert(s@.subrange(j as int, j as int + 4)[0] == s@[j as int]);
                }
            }
            assert(s@.subrange(j as int, j as int + 5) =~= kw_false());
        }
        Some((Value::Bool(false), j + 5))
    } else if n - j >= 4 && s[j] == 'n' && s[j + 1] == 'u' && s[j + 2] == 'l' && s[j + 3]
        == 'l' {
        proof {
            assert(!lit_at(s@, j as int, kw_true())) by {
                if lit_at(s@, j as int, kw_true()) {
                    assert(s@.subrange(j as int, j as int + 4)[0] == s@[j as int]);
                }
            }
            assert(!lit_at(s@, j as int, kw_false())) by {
                if lit_at(s@, j as int, kw_false()) {
                    assert(s@.subrange(j as int, j as int + 5)[0] == s@[j as int]);
                }
            }
            assert(s@.subrange(j as int, j as int + 4) =~= kw_null());
        }
        Some((Value::Null, j + 4))
    } else {
        proof {
            assert(!lit_at(s@, j as int, kw_true())) by {
                if lit_at(s@, j as int, kw_true()) {
                    let sub = s@.subrange(j as int, j as int + 4);
                    assert(sub[0] == s@[j as int] && sub[1] == s@[j as int + 1] && sub[2]
                        == s@[j as int + 2] && sub[3] == s@[j as int + 3]);
                }
            }
            assert(!lit_at(s@, j as int, kw_false())) by {
                if lit_at(s@, j as int, kw_false()) {
                    let sub = s@.subrange(j as int, j as int + 5);
                    assert(sub[0] == s@[j as int] && sub[1] == s@[j as int + 1] && sub[2]
                        == s@[j as int + 2] && sub[3] == s@[j as int + 3] && sub[4] == s@[j as int
                        + 4]);
                }
            }
            assert(!lit_at(s@, j as int, kw_null())) by {
                if lit_at(s@, j as int, kw_null()) {
                    let sub = s@.subrange(j as int, j as int + 4);
                    assert(sub[0] == s@[j as int] && sub[1] == s@[j as int + 1] && sub[2]
                        == s@[j as int + 2] && sub[3] == s@[j as int + 3]);
                }
            }
        }
        let d = c as u32;
        if (48 <= d && d <= 57) || c == '-' {
            let e = scan_num_end(s, j);
            let run = substring_chars(s, j, e);
            match canonical_number(run.as_str()) {
                Some(cn) => Some((Value::Num(cn), e)),
                None => {
                    let e2 = scan_tok_end(s, j);
                    if e2 == j {
                        None
                    } else {
                        Some((Value::Str(substring_chars(s, j, e2)), e2))
                    }
                },
            }
        } else {
            let e2 = scan_tok_end(s, j);
            if e2 == j {
                None
            } else {
                Some((Value::Str(substring_chars(s, j, e2)), e2))
            }
        }
    }
}

/// Parse the rest of a tabular header line and then the rows.
#[verifier::loop_isolation(false)]
#[verifier::rlimit(100)]
fn parse_tab_hdr(s: &Vec<char>, i: usize, keys: Vec<String>, fuel: usize) -> (r: Option<
    (Value, usize),
>)
    requires
        i <= s@.len(),
    ensures
        ({
            let gkeys = Seq::new(keys@.len(), |t: int| keys@[t]@);
            match r {
                Some(p) => sp_tab_hdr(s@, i as int, gkeys, fuel as nat) == Some(
                    (p.0@, p.1 as int),
                ) && p.1 <= s@.len(),
                None => sp_tab_hdr(s@, i as int, gkeys, fuel as nat) is None,
            }
        }),
    decreases fuel, 1int,
{
    let ghost gkeys = Seq::new(keys@.len(), |t: int| keys@[t]@);
    if fuel == 0 {
        return None;
    }
    let j = skip_hspace(s, i);
    if j >= s.len() {
        return None;
    }
    if s[j] == '\n' {
        return parse_tab_rows(s, j + 1, &keys, Vec::new(), fuel - 1);
    }
    let parsed: Option<(String, usize)> = if s[j] == '"' {
        parse_quoted(s, j + 1)
    } else {
        let e = scan_hkey_end(s, j);
        if e == j {
            None
        } else {
            Some((substring_chars(s, j, e), e))
        }
    };
    let (k, j2) = match parsed {
        Some(x) => x,
        None => {
            return None;
        },
    };
    let j3 = skip_hspace(s, j2);
    if j3 < s.len() && s[j3] == ',' {
        let mut keys2 = keys;
        keys2.push(k);
        proof {
            assert(Seq::new(keys2@.len(), |t: int| keys2@[t]@) =~= gkeys.push(k@));
        }
        parse_tab_hdr(s, j3 + 1, keys2, fuel - 1)
    } else if j3 < s.len() && s[j3] == '\n' {
        let mut keys2 = keys;
        keys2.push(k);
        proof {
            assert(Seq::new(keys2@.len(), |t: int| keys2@[t]@) =~= gkeys.push(k@));
        }
        parse_tab_rows(s, j3 + 1, &keys2, Vec::new(), fuel - 1)
    } else {
        None
    }
}

/// Parse the remaining tabular rows.
#[verifier::loop_isolation(false)]
#[verifier::rlimit(100)]
fn parse_tab_rows(s: &Vec<char>, i: usize, keys: &Vec<String>, acc: Vec<Value>, fuel: usize) -> (r:
    Option<(Value, usize)>)
    requires
        i <= s@.len(),
    ensures
        ({
            let gkeys = Seq::new(keys@.len(), |t: int| keys@[t]@);
            match r {
                Some(p) => sp_tab_rows(s@, i as int, gkeys, view_items(acc@), fuel as nat) == Some(
                    (p.0@, p.1 as int),
                ) && p.1 <= s@.len(),
                None => sp_tab_rows(s@, i as int, gkeys, view_items(acc@), fuel as nat) is None,
            }
        }),
    decreases fuel, 2 + keys@.len(),
{
    let ghost gkeys = Seq::new(keys@.len(), |t: int| keys@[t]@);
    if fuel == 0 {
        return None;
    }
    let j = skip_ws(s, i);
    if j >= s.len() {
        return None;
    }
    if s[j] == ']' {
        return Some((Value::Arr(acc), j + 1));
    }
    let (row, j2) = match parse_tab_cells(s, j, keys, 0, Vec::new(), fuel) {
        Some(x) => x,
        None => {
            return None;
        },
    };
    let j3 = skip_ws(s, j2);
    if j3 < s.len() && s[j3] == ',' {
        let mut acc2 = acc;
        proof {
            lemma_view_items_push(acc2@, row);
        }
        acc2.push(row);
        parse_tab_rows(s, j3 + 1, keys, acc2, fuel - 1)
    } else if j3 < s.len() && s[j3] == ']' {
        let mut acc2 = acc;
        proof {
            lemma_view_items_push(acc2@, row);
        }
        acc2.push(row);
        Some((Value::Arr(acc2), j3 + 1))
    } else {
        None
    }
}

/// Parse the remaining cells of one tabular row, from column `idx` on.
#[verifier::loop_isolation(false)]
#[verifier::rlimit(100)]
fn parse_tab_cells(
    s: &Vec<char>,
    i: usize,
    keys: &Vec<String>,
    idx: usize,
    obj: Vec<(String, Value)>,
    fuel: usize,
) -> (r: Option<(Value, usize)>)
    requires
        i <= s@.len(),
        idx <= keys@.len(),
        entries_sorted(view_entries(obj@)),
    ensures
        ({
            let gkeys = Seq::new(keys@.len(), |t: int| keys@[t]@);
            match r {
                Some(p) => sp_tab_cells(
                    s@,
                    i as int,
                    gkeys,
                    idx as nat,
                    view_entries(obj@),
                    fuel as nat,
                ) == Some((p.0@, p.1 as int)) && p.1 <= s@.len(),
                None => sp_tab_cells(
                    s@,
                    i as int,
                    gkeys,
                    idx as nat,
                    view_entries(obj@),
                    fuel as nat,
                ) is None,
            }
        }),
    decreases fuel, 1 + keys@.len() - idx,
{
    let ghost gkeys = Seq::new(keys@.len(), |t: int| keys@[t]@);
    if idx >= keys.len() {
        return Some((Value::Obj(obj), i));
    }
    let (v, j) = match parse_value(s, i, fuel) {
        Some(x) => x,
        None => {
            return None;
        },
    };
    let k = keys[idx].clone();
    let mut obj2 = obj;
    proof {
        assert(gkeys[idx as int] == k@);
    }
    obj_insert(&mut obj2, k, v);
    if idx + 1 < keys.len() {
        let j2 = skip_ws(s, j);
        if j2 < s.len() && s[j2] == ',' {
            parse_tab_cells(s, j2 + 1, keys, idx + 1, obj2, fuel)
        } else {
            None
        }
    } else {
        parse_tab_cells(s, j, keys, idx + 1, obj2, fuel)
    }
}

/// Decode TOON text: check UTF-8, then parse one value; trailing text is
/// ignored.
pub fn decode(bytes: &[u8]) -> (r: Result<Value, DecodeError>)
    ensures
        match r {
            Ok(v) => spec_text_decode(bytes@) == Ok::<SpecValue, DecodeError>(v@),
            Err(e) => spec_text_decode(bytes@) == Err::<SpecValue, DecodeError>(e),
        },
{
    let st = match crate::trusted::bytes_to_string(bytes) {
        Some(x) => x,
        None => {
            return Err(DecodeError::InvalidUtf8);
        },
    };
    proof {
        vstd::utf8::encode_utf8_decode_utf8(st@);
    }
    let n = st.as_str().unicode_len();
    let mut chars: Vec<char> = Vec::new();
    let mut i: usize = 0;
    while i < n
        invariant
            i <= n,
            n == st@.len(),
            chars@ == st@.take(i as int),
        decreases n - i,
    {
        chars.push(st.as_str().get_char(i));
        proof {
            assert(chars@ =~= st@.take(i as int + 1));
        }
        i = i + 1;
    }
    proof {
        assert(chars@ =~= st@);
    }
    match parse_value(&chars, 0, chars.len()) {
        Some((v, _)) => Ok(v),
        None => Err(DecodeError::ParseError),
    }
}

} // verus!
