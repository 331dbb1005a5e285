//! The library's JSON value model: request and response bodies, database
//! documents and handler yield values are all values of `JsonValue`.
//! Numbers are 64-bit integers.  An object keeps its members in order of
//! appearance.
//!
//! The module also fixes the library's JSON text format: `ser` is the one
//! serialization of a value, `to_chars` renders it and `from_chars` parses
//! it back, accepting only texts that `ser` produces.

use vstd::prelude::*;
use crate::strutil::{dec_int, dec_nat, digit_val, digits_val, is_digit_char, key_eq, lemma_dec_nat_val, lemma_digits_reconstruct, push_chars, push_dec_i64, push_str_chars};

verus! {

broadcast use vstd::std_specs::vec::group_vec_axioms, vstd::seq::group_seq_axioms;

/// A JSON value with 64-bit integer numbers.  Object members are kept in
/// order of appearance; two objects with the same members in a different
/// order are distinct values.
#[derive(Debug)]
pub enum JsonValue {
    Null,
    Bool(bool),
    Int(i64),
    Str(String),
    Arr(Vec<JsonValue>),
    Obj(Vec<(String, JsonValue)>),
}

/// The mathematical model of a `JsonValue`.
#[verifier::ext_equal]
pub enum JVal {
    Null,
    Bool(bool),
    Int(int),
    Str(Seq<char>),
    Arr(Seq<JVal>),
    Obj(Seq<(Seq<char>, JVal)>),
}

/// The model of `v`: the same tree over `int`, `Seq<char>` and `Seq`.
pub open spec fn jval(v: JsonValue) -> JVal
    decreases v,
{
    match v {
        JsonValue::Null => JVal::Null,
        JsonValue::Bool(b) => JVal::Bool(b),
        JsonValue::Int(n) => JVal::Int(n as int),
        JsonValue::Str(s) => JVal::Str(s@),
        JsonValue::Arr(items) => JVal::Arr(jval_arr(items@)),
        JsonValue::Obj(members) => JVal::Obj(jval_obj(members@)),
    }
}

/// The models of the elements of `items`, in order.
pub open spec fn jval_arr(items: Seq<JsonValue>) -> Seq<JVal>
    decreases items,
{
    if items.len() == 0 {
        Seq::empty()
    } else {
        seq![jval(items[0])] + jval_arr(items.subrange(1, items.len() as int))
    }
}

/// The models of the members of `members`, in order.
pub open spec fn jval_obj(members: Seq<(String, JsonValue)>) -> Seq<(Seq<char>, JVal)>
    decreases members,
{
    if members.len() == 0 {
        Seq::empty()
    } else {
        seq![(members[0].0@, jval(members[0].1))] + jval_obj(
            members.subrange(1, members.len() as int),
        )
    }
}

impl View for JsonValue {
    type V = JVal;

    open spec fn view(&self) -> JVal {
        jval(*self)
    }
}

/// How one character of a string renders inside quotes: the seven
/// short escapes, every other character as itself.
pub open spec fn esc_char(c: char) -> Seq<char> {
    if c == '"' {
        seq!['\\', '"']
    } else if c == '\\' {
        seq!['\\', '\\']
    } else if c == '\u{8}' {
        seq!['\\', 'b']
    } else if c == '\t' {
        seq!['\\', 't']
    } else if c == '\n' {
        seq!['\\', 'n']
    } else if c == '\u{c}' {
        seq!['\\', 'f']
    } else if c == '\r' {
        seq!['\\', 'r']
    } else {
        seq![c]
    }
}

/// The rendering of a string's characters, without the surrounding quotes.
pub open spec fn ser_str_body(s: Seq<char>) -> Seq<char>
    decreases s.len(),
{
    if s.len() == 0 {
        Seq::empty()
    } else {
        esc_char(s[0]) + ser_str_body(s.subrange(1, s.len() as int))
    }
}

/// The rendering of one object member: quoted key, colon, value.
pub open spec fn ser_member(k: Seq<char>, v: JVal) -> Seq<char> {
    seq!['"'] + ser_str_body(k) + seq!['"', ':'] + ser(v)
}

/// The one serialization of a value in the library's JSON text format:
/// no whitespace, integers in plain decimal, strings with the seven short
/// escapes only, array elements and object members joined by commas in
/// order of appearance.
pub open spec fn ser(v: JVal) -> Seq<char>
    decreases v,
{
    match v {
        JVal::Null => seq!['n', 'u', 'l', 'l'],
        JVal::Bool(b) => if b {
            seq!['t', 'r', 'u', 'e']
        } else {
            seq!['f', 'a', 'l', 's', 'e']
        },
        JVal::Int(n) => dec_int(n),
        JVal::Str(s) => seq!['"'] + ser_str_body(s) + seq!['"'],
        JVal::Arr(elems) => seq!['['] + ser_arr(elems) + seq![']'],
        JVal::Obj(members) => seq!['{'] + ser_obj(members) + seq!['}'],
    }
}

/// Array elements joined by commas.
pub open spec fn ser_arr(elems: Seq<JVal>) -> Seq<char>
    decreases elems,
{
    if elems.len() == 0 {
        Seq::empty()
    } else if elems.len() == 1 {
        ser(elems[0])
    } else {
        ser(elems[0]) + seq![','] + ser_arr(elems.subrange(1, elems.len() as int))
    }
}

/// Object members joined by commas.
pub open spec fn ser_obj(members: Seq<(Seq<char>, JVal)>) -> Seq<char>
    decreases members,
{
    if members.len() == 0 {
        Seq::empty()
    } else if members.len() == 1 {
        seq!['"'] + ser_str_body(members[0].0) + seq!['"', ':'] + ser(members[0].1)
    } else {
        seq!['"'] + ser_str_body(members[0].0) + seq!['"', ':'] + ser(members[0].1) + seq![',']
            + ser_obj(members.subrange(1, members.len() as int))
    }
}

/// `jval_arr` maps elementwise.
pub proof fn lemma_jval_arr(s: Seq<JsonValue>)
    ensures
        jval_arr(s).len() == s.len(),
        forall|i: int| 0 <= i < s.len() ==> jval_arr(s)[i] == jval(s[i]),
    decreases s.len(),
{
    if s.len() > 0 {
        lemma_jval_arr(s.subrange(1, s.len() as int));
    }
}

/// `jval_obj` maps elementwise.
pub proof fn lemma_jval_obj(s: Seq<(String, JsonValue)>)
    ensures
        jval_obj(s).len() == s.len(),
        forall|i: int|
            0 <= i < s.len() ==> jval_obj(s)[i] == (s[i].0@, jval(s[i].1)),
    decreases s.len(),
{
    if s.len() > 0 {
        lemma_jval_obj(s.subrange(1, s.len() as int));
    }
}

/// Appending one character extends the rendered string body by its escape.
pub proof fn lemma_ser_str_snoc(s: Seq<char>, c: char)
    ensures
        ser_str_body(s.push(c)) == ser_str_body(s) + esc_char(c),
    decreases s.len(),
{
    if s.len() == 0 {
        reveal_with_fuel(ser_str_body, 2);
        assert(s.push(c)[0] == c);
        assert(s.push(c).subrange(1, 1) =~= Seq::<char>::empty());
        assert(ser_str_body(s.push(c)) =~= ser_str_body(s) + esc_char(c));
    } else {
        assert(s.push(c).subrange(1, s.len() as int + 1) =~= s.subrange(1, s.len() as int).push(c));
        lemma_ser_str_snoc(s.subrange(1, s.len() as int), c);
        assert(ser_str_body(s.push(c)) =~= ser_str_body(s) + esc_char(c));
    }
}

/// Appending one element extends the rendered array by a comma (when the
/// array was not empty) and the element's rendering.
pub proof fn lemma_ser_arr_snoc(s: Seq<JVal>, x: JVal)
    ensures
        s.len() == 0 ==> ser_arr(s.push(x)) == ser(x),
        s.len() > 0 ==> ser_arr(s.push(x)) == ser_arr(s) + seq![','] + ser(x),
    decreases s.len(),
{
    if s.len() == 0 {
        assert(s.push(x)[0] == x);
    } else {
        assert(s.push(x).subrange(1, s.len() as int + 1) =~= s.subrange(1, s.len() as int).push(x));
        lemma_ser_arr_snoc(s.subrange(1, s.len() as int), x);
        if s.len() == 1 {
            assert(ser_arr(s.push(x)) =~= ser_arr(s) + seq![','] + ser(x));
        } else {
            assert(ser_arr(s.push(x)) =~= ser_arr(s) + seq![','] + ser(x));
        }
    }
}

/// Appending one member extends the rendered object likewise.
pub proof fn lemma_ser_obj_snoc(s: Seq<(Seq<char>, JVal)>, k: Seq<char>, v: JVal)
    ensures
        s.len() == 0 ==> ser_obj(s.push((k, v))) == ser_member(k, v),
        s.len() > 0 ==> ser_obj(s.push((k, v))) == ser_obj(s) + seq![','] + ser_member(k, v),
    decreases s.len(),
{
    if s.len() == 0 {
    } else {
        assert(s.push((k, v)).subrange(1, s.len() as int + 1) =~= s.subrange(
            1,
            s.len() as int,
        ).push((k, v)));
        lemma_ser_obj_snoc(s.subrange(1, s.len() as int), k, v);
        if s.len() == 1 {
            assert(ser_obj(s.push((k, v))) =~= ser_obj(s) + seq![','] + ser_member(k, v));
        } else {
            assert(ser_obj(s.push((k, v))) =~= ser_obj(s) + seq![','] + ser_member(k, v));
        }
    }
}

fn push_escaped(c: char, out: &mut Vec<char>)
    ensures
        final(out)@ == old(out)@ + esc_char(c),
{
    if c == '"' {
        out.push('\\');
        out.push('"');
    } else if c == '\\' {
        out.push('\\');
        out.push('\\');
    } else if c == '\u{8}' {
        out.push('\\');
        out.push('b');
    } else if c == '\t' {
        out.push('\\');
        out.push('t');
    } else if c == '\n' {
        out.push('\\');
        out.push('n');
    } else if c == '\u{c}' {
        out.push('\\');
        out.push('f');
    } else if c == '\r' {
        out.push('\\');
        out.push('r');
    } else {
        out.push(c);
    }
    proof {
        assert(final(out)@ =~= old(out)@ + esc_char(c));
    }
}

fn push_quoted(s: &String, out: &mut Vec<char>)
    ensures
        final(out)@ == old(out)@ + seq!['"'] + ser_str_body(s@) + seq!['"'],
{
    out.push('"');
    let text = s.as_str();
    let n = text.unicode_len();
    let mut i: usize = 0;
    while i < n
        invariant
            n == text@.len(),
            text@ == s@,
            i <= n,
            out@ == old(out)@ + seq!['"'] + ser_str_body(s@.subrange(0, i as int)),
        decreases n - i,
    {
        let c = text.get_char(i);
        push_escaped(c, out);
        proof {
            assert(s@.subrange(0, i as int).push(c) =~= s@.subrange(0, i as int + 1));
            lemma_ser_str_snoc(s@.subrange(0, i as int), c);
        }
        i = i + 1;
    }
    out.push('"');
    proof {
        assert(s@.subrange(0, s@.len() as int) =~= s@);
        assert(final(out)@ =~= old(out)@ + seq!['"'] + ser_str_body(s@) + seq!['"']);
    }
}

/// Appends the serialization of `v` to `out`.
pub fn push_json(v: &JsonValue, out: &mut Vec<char>)
    ensures
        final(out)@ == old(out)@ + ser(jval(*v)),
    decreases *v,
{
    match v {
        JsonValue::Null => {
            push_str_chars(out, "null");
            proof {
                reveal_strlit("null");
                assert(final(out)@ =~= old(out)@ + ser(jval(*v)));
            }
        },
        JsonValue::Bool(b) => {
            if *b {
                push_str_chars(out, "true");
                proof {
                    reveal_strlit("true");
                    assert(final(out)@ =~= old(out)@ + ser(jval(*v)));
                }
            } else {
                push_str_chars(out, "false");
                proof {
                    reveal_strlit("false");
                    assert(final(out)@ =~= old(out)@ + ser(jval(*v)));
                }
            }
        },
        JsonValue::Int(n) => {
            push_dec_i64(*n, out);
        },
        JsonValue::Str(s) => {
            push_quoted(s, out);
            proof {
                assert(final(out)@ =~= old(out)@ + ser(jval(*v)));
            }
        },
        JsonValue::Arr(items) => {
            out.push('[');
            let ghost base = out@;
            let mut i: usize = 0;
            while i < items.len()
                invariant
                    *v == JsonValue::Arr(*items),
                    i <= items@.len(),
                    out@ == base + ser_arr(jval_arr(items@.subrange(0, i as int))),
                decreases items@.len() - i,
            {
                if i > 0 {
                    out.push(',');
                }
                proof {
                    lemma_jval_arr(items@.subrange(0, i as int));
                    assert((*v)->Arr_0 == *items);
                    assert(decreases_to!(*v => (*v)->Arr_0));
                    assert(decreases_to!(*items => items@));
                    assert(decreases_to!(items@ => items@[i as int]));
                }
                push_json(&items[i], out);
                proof {
                    let pre = items@.subrange(0, i as int);
                    assert(pre.push(items@[i as int]) =~= items@.subrange(0, i as int + 1));
                    lemma_jval_arr_push(pre, items@[i as int]);
                    lemma_ser_arr_snoc(jval_arr(pre), jval(items@[i as int]));
                    assert(out@ =~= base + ser_arr(jval_arr(items@.subrange(0, i as int + 1))));
                }
                i = i + 1;
            }
            out.push(']');
            proof {
                assert(items@.subrange(0, items@.len() as int) =~= items@);
                assert(final(out)@ =~= old(out)@ + ser(jval(*v)));
            }
        },
        JsonValue::Obj(members) => {
            out.push('{');
            let ghost base = out@;
            let mut i: usize = 0;
            while i < members.len()
                invariant
                    *v == JsonValue::Obj(*members),
                    i <= members@.len(),
                    out@ == base + ser_obj(jval_obj(members@.subrange(0, i as int))),
                decreases members@.len() - i,
            {
                if i > 0 {
                    out.push(',');
                }
                push_quoted(&members[i].0, out);
                out.push(':');
                proof {
                    assert((*v)->Obj_0 == *members);
                    assert(decreases_to!(*v => (*v)->Obj_0));
                    assert(decreases_to!(*members => members@));
                    assert(decreases_to!(members@ => members@[i as int]));
                    assert(decreases_to!(members@[i as int] => members@[i as int].1));
                }
                push_json(&members[i].1, out);
                proof {
                    let pre = members@.subrange(0, i as int);
                    assert(pre.push(members@[i as int]) =~= members@.subrange(0, i as int + 1));
                    lemma_jval_obj_push(pre, members@[i as int]);
                    lemma_ser_obj_snoc(
                        jval_obj(pre),
                        members@[i as int].0@,
                        jval(members@[i as int].1),
                    );
                    assert(out@ =~= base + ser_obj(jval_obj(members@.subrange(0, i as int + 1))));
                }
                i = i + 1;
            }
            out.push('}');
            proof {
                assert(members@.subrange(0, members@.len() as int) =~= members@);
                assert(final(out)@ =~= old(out)@ + ser(jval(*v)));
            }
        },
    }
}

/// `jval_arr` commutes with `push`.
pub proof fn lemma_jval_arr_push(s: Seq<JsonValue>, x: JsonValue)
    ensures
        jval_arr(s.push(x)) == jval_arr(s).push(jval(x)),
{
    lemma_jval_arr(s.push(x));
    lemma_jval_arr(s);
    assert(jval_arr(s.push(x)) =~= jval_arr(s).push(jval(x)));
}

/// `jval_obj` commutes with `push`.
pub proof fn lemma_jval_obj_push(s: Seq<(String, JsonValue)>, x: (String, JsonValue))
    ensures
        jval_obj(s.push(x)) == jval_obj(s).push((x.0@, jval(x.1))),
{
    lemma_jval_obj(s.push(x));
    lemma_jval_obj(s);
    assert(jval_obj(s.push(x)) =~= jval_obj(s).push((x.0@, jval(x.1))));
}

/// The serialization of `v` as a character vector.
pub fn to_chars(v: &JsonValue) -> (r: Vec<char>)
    ensures
        r@ == ser(v@),
{
    let mut out: Vec<char> = Vec::new();
    push_json(v, &mut out);
    proof {
        assert(out@ =~= ser(jval(*v)));
    }
    out
}

/// Whether `a` and `b` model the same value.
pub fn json_eq(a: &JsonValue, b: &JsonValue) -> (r: bool)
    ensures
        r == (a@ == b@),
    decreases *a,
{
    match a {
        JsonValue::Null => match b {
            JsonValue::Null => true,
            _ => false,
        },
        JsonValue::Bool(x) => match b {
            JsonValue::Bool(y) => *x == *y,
            _ => false,
        },
        JsonValue::Int(x) => match b {
            JsonValue::Int(y) => *x == *y,
            _ => false,
        },
        JsonValue::Str(x) => match b {
            JsonValue::Str(y) => *x == *y,
            _ => false,
        },
        JsonValue::Arr(x) => match b {
            JsonValue::Arr(y) => {
                proof {
                    lemma_jval_arr(x@);
                    lemma_jval_arr(y@);
                }
                if x.len() != y.len() {
                    return false;
                }
                let mut i: usize = 0;
                while i < x.len()
                    invariant
                        *a == JsonValue::Arr(*x),
                        *b == JsonValue::Arr(*y),
                        x@.len() == y@.len(),
                        i <= x@.len(),
                        jval_arr(x@).len() == x@.len(),
                        jval_arr(y@).len() == y@.len(),
                        forall|k: int| 0 <= k < x@.len() ==> jval_arr(x@)[k] == jval(x@[k]),
                        forall|k: int| 0 <= k < y@.len() ==> jval_arr(y@)[k] == jval(y@[k]),
                        forall|k: int| 0 <= k < i ==> jval(x@[k]) == jval(y@[k]),
                    decreases x@.len() - i,
                {
                    proof {
                        assert((*a)->Arr_0 == *x);
                        assert(decreases_to!(*a => (*a)->Arr_0));
                        assert(decreases_to!(*x => x@));
                        assert(decreases_to!(x@ => x@[i as int]));
                    }
                    if !json_eq(&x[i], &y[i]) {
                        proof {
                            assert(jval_arr(x@)[i as int] != jval_arr(y@)[i as int]);
                        }
                        return false;
                    }
                    i = i + 1;
                }
                proof {
                    assert(jval_arr(x@) =~= jval_arr(y@));
                }
                true
            },
            _ => false,
        },
        JsonValue::Obj(x) => match b {
            JsonValue::Obj(y) => {
                proof {
                    lemma_jval_obj(x@);
                    lemma_jval_obj(y@);
                }
                if x.len() != y.len() {
                    return false;
                }
                let mut i: usize = 0;
                while i < x.len()
                    invariant
                        *a == JsonValue::Obj(*x),
                        *b == JsonValue::Obj(*y),
                        x@.len() == y@.len(),
                        i <= x@.len(),
                        jval_obj(x@).len() == x@.len(),
                        jval_obj(y@).len() == y@.len(),
                        forall|k: int|
                            0 <= k < x@.len() ==> jval_obj(x@)[k] == (x@[k].0@, jval(x@[k].1)),
                        forall|k: int|
                            0 <= k < y@.len() ==> jval_obj(y@)[k] == (y@[k].0@, jval(y@[k].1)),
                        forall|k: int|
                            0 <= k < i ==> x@[k].0@ == y@[k].0@ && jval(x@[k].1) == jval(y@[k].1),
                    decreases x@.len() - i,
                {
                    let keys_differ = !key_eq(&x[i].0, &y[i].0);
                    if keys_differ {
                        proof {
                            assert(jval_obj(x@)[i as int] != jval_obj(y@)[i as int]);
                        }
                        return false;
                    }
                    proof {
                        assert((*a)->Obj_0 == *x);
                        assert(decreases_to!(*a => (*a)->Obj_0));
                        assert(decreases_to!(*x => x@));
                        assert(decreases_to!(x@ => x@[i as int]));
                        assert(decreases_to!(x@[i as int] => x@[i as int].1));
                    }
                    if !json_eq(&x[i].1, &y[i].1) {
                        proof {
                            assert(jval_obj(x@)[i as int] != jval_obj(y@)[i as int]);
                        }
                        return false;
                    }
                    i = i + 1;
                }
                proof {
                    assert forall|k: int| 0 <= k < x@.len() implies jval_obj(x@)[k] == jval_obj(
                        y@,
                    )[k] by {
                        assert(x@[k].0@ == y@[k].0@);
                        assert(jval(x@[k].1) == jval(y@[k].1));
                    }
                    assert(jval_obj(x@) =~= jval_obj(y@));
                }
                true
            },
            _ => false,
        },
    }
}

/// A copy of `v` that models the same value.
pub fn deep_copy(v: &JsonValue) -> (r: JsonValue)
    ensures
        r@ == v@,
    decreases *v,
{
    match v {
        JsonValue::Null => JsonValue::Null,
        JsonValue::Bool(b) => JsonValue::Bool(*b),
        JsonValue::Int(n) => JsonValue::Int(*n),
        JsonValue::Str(s) => JsonValue::Str(s.clone()),
        JsonValue::Arr(items) => {
            let mut acc: Vec<JsonValue> = Vec::new();
            let mut i: usize = 0;
            while i < items.len()
                invariant
                    *v == JsonValue::Arr(*items),
                    i <= items@.len(),
                    acc@.len() == i,
                    jval_arr(acc@) == jval_arr(items@.subrange(0, i as int)),
                decreases items@.len() - i,
            {
                proof {
                    assert((*v)->Arr_0 == *items);
                    assert(decreases_to!(*v => (*v)->Arr_0));
                    assert(decreases_to!(*items => items@));
                    assert(decreases_to!(items@ => items@[i as int]));
                }
                let e = deep_copy(&items[i]);
                proof {
                    lemma_jval_arr_push(acc@, e);
                    lemma_jval_arr_push(items@.subrange(0, i as int), items@[i as int]);
                    assert(items@.subrange(0, i as int).push(items@[i as int]) =~= items@.subrange(
                        0,
                        i as int + 1,
                    ));
                }
                acc.push(e);
                i = i + 1;
            }
            proof {
                assert(items@.subrange(0, items@.len() as int) =~= items@);
            }
            JsonValue::Arr(acc)
        },
        JsonValue::Obj(members) => {
            let mut acc: Vec<(String, JsonValue)> = Vec::new();
            let mut i: usize = 0;
            while i < members.len()
                invariant
                    *v == JsonValue::Obj(*members),
                    i <= members@.len(),
                    acc@.len() == i,
                    jval_obj(acc@) == jval_obj(members@.subrange(0, i as int)),
                decreases members@.len() - i,
            {
                proof {
                    assert((*v)->Obj_0 == *members);
                    assert(decreases_to!(*v => (*v)->Obj_0));
                    assert(decreases_to!(*members => members@));
                    assert(decreases_to!(members@ => members@[i as int]));
                    assert(decreases_to!(members@[i as int] => members@[i as int].1));
                }
                let k = members[i].0.clone();
                let e = deep_copy(&members[i].1);
                proof {
                    lemma_jval_obj_push(acc@, (k, e));
                    lemma_jval_obj_push(members@.subrange(0, i as int), members@[i as int]);
                    assert(members@.subrange(0, i as int).push(members@[i as int])
                        =~= members@.subrange(0, i as int + 1));
                }
                acc.push((k, e));
                i = i + 1;
            }
            proof {
                assert(members@.subrange(0, members@.len() as int) =~= members@);
            }
            JsonValue::Obj(acc)
        },
    }
}

/// The value of the first member named `k`, if any.
pub open spec fn obj_lookup(members: Seq<(Seq<char>, JVal)>, k: Seq<char>) -> Option<JVal>
    decreases members,
{
    if members.len() == 0 {
        None
    } else if members[0].0 == k {
        Some(members[0].1)
    } else {
        obj_lookup(members.subrange(1, members.len() as int), k)
    }
}

/// Looks `key` up among `members`, first match wins.
pub fn obj_get<'a>(members: &'a Vec<(String, JsonValue)>, key: &String) -> (r: Option<
    &'a JsonValue,
>)
    ensures
        match r {
            Some(x) => obj_lookup(jval_obj(members@), key@) == Some(jval(*x)),
            None => obj_lookup(jval_obj(members@), key@) is None,
        },
{
    proof {
        lemma_jval_obj(members@);
        assert(jval_obj(members@).subrange(0, members@.len() as int) =~= jval_obj(members@));
    }
    let mut i: usize = 0;
    while i < members.len()
        invariant
            i <= members@.len(),
            jval_obj(members@).len() == members@.len(),
            forall|k: int|
                0 <= k < members@.len() ==> jval_obj(members@)[k] == (
                    members@[k].0@,
                    jval(members@[k].1),
                ),
            forall|k: int| 0 <= k < i ==> members@[k].0@ != key@,
            obj_lookup(jval_obj(members@), key@) == obj_lookup(
                jval_obj(members@).subrange(i as int, members@.len() as int),
                key@,
            ),
        decreases members@.len() - i,
    {
        if key_eq(&members[i].0, key) {
            return Some(&members[i].1);
        }
        proof {
            let whole = jval_obj(members@);
            assert(whole.subrange(i as int, whole.len() as int).subrange(
                1,
                whole.len() - i,
            ) =~= whole.subrange(i as int + 1, whole.len() as int));
        }
        i = i + 1;
    }
    None
}


/// Every serialization is non-empty.
pub proof fn lemma_ser_nonempty(v: JVal)
    ensures
        ser(v).len() >= 1,
{
    match v {
        JVal::Int(n) => {
            if n < 0 {
                crate::strutil::lemma_dec_nat_val((-n) as nat);
            } else {
                crate::strutil::lemma_dec_nat_val(n as nat);
            }
        },
        _ => {},
    }
}

/// The first character of a serialization names its constructor: `n`
/// for null, `t` or `f` for the booleans, a minus sign or a digit for a
/// number, and the quote and brackets for the rest.
pub proof fn lemma_ser_first(v: JVal)
    ensures
        ser(v).len() >= 1,
        match v {
            JVal::Null => ser(v)[0] == 'n',
            JVal::Bool(b) => ser(v)[0] == (if b {
                't'
            } else {
                'f'
            }),
            JVal::Int(n) => if n < 0 {
                ser(v)[0] == '-'
            } else {
                crate::strutil::is_digit_char(ser(v)[0])
            },
            JVal::Str(_) => ser(v)[0] == '"',
            JVal::Arr(_) => ser(v)[0] == '[',
            JVal::Obj(_) => ser(v)[0] == '{',
        },
{
    lemma_ser_nonempty(v);
    match v {
        JVal::Int(n) => {
            if n >= 0 {
                crate::strutil::lemma_dec_nat_val(n as nat);
            }
        },
        _ => {},
    }
}

/// String bodies render piecewise: the encoding of a concatenation is
/// the concatenation of the encodings.
pub proof fn lemma_ser_str_concat(a: Seq<char>, b: Seq<char>)
    ensures
        ser_str_body(a + b) == ser_str_body(a) + ser_str_body(b),
    decreases a.len(),
{
    if a.len() == 0 {
        assert(a + b =~= b);
        assert(ser_str_body(a) =~= Seq::<char>::empty());
        assert(ser_str_body(a) + ser_str_body(b) =~= ser_str_body(b));
    } else {
        assert((a + b)[0] == a[0]);
        assert((a + b).subrange(1, (a + b).len() as int) =~= a.subrange(1, a.len() as int) + b);
        lemma_ser_str_concat(a.subrange(1, a.len() as int), b);
        assert(ser_str_body(a + b) =~= ser_str_body(a) + ser_str_body(b));
    }
}


/// Whether every number in the tree fits a 64-bit integer: only such
/// values can come out of the parser.
pub open spec fn jval_in_range(v: JVal)
    -> bool
    decreases v,
{
    match v {
        JVal::Null => true,
        JVal::Bool(_) => true,
        JVal::Int(n) => -0x8000000000000000 <= n < 0x8000000000000000,
        JVal::Str(_) => true,
        JVal::Arr(es) => in_range_arr(es),
        JVal::Obj(ms) => in_range_obj(ms),
    }
}

pub open spec fn in_range_arr(es: Seq<JVal>) -> bool
    decreases es,
{
    if es.len() == 0 {
        true
    } else {
        jval_in_range(es[0]) && in_range_arr(es.subrange(1, es.len() as int))
    }
}

pub open spec fn in_range_obj(ms: Seq<(Seq<char>, JVal)>) -> bool
    decreases ms,
{
    if ms.len() == 0 {
        true
    } else {
        jval_in_range(ms[0].1) && in_range_obj(ms.subrange(1, ms.len() as int))
    }
}

/// The elementwise reading of `in_range_arr`.
pub proof fn lemma_in_range_arr(es: Seq<JVal>)
    ensures
        in_range_arr(es) == (forall|i: int| 0 <= i < es.len() ==> jval_in_range(#[trigger] es[i])),
    decreases es.len(),
{
    if es.len() > 0 {
        let sub = es.subrange(1, es.len() as int);
        lemma_in_range_arr(sub);
        assert forall|i: int| 1 <= i < es.len() implies sub[i - 1] == es[i] by {}
        if forall|i: int| 0 <= i < es.len() ==> jval_in_range(#[trigger] es[i]) {
            assert forall|i: int| 0 <= i < sub.len() implies jval_in_range(sub[i]) by {
                assert(sub[i] == es[i + 1]);
            }
        }
    }
}

/// The elementwise reading of `in_range_obj`.
pub proof fn lemma_in_range_obj(ms: Seq<(Seq<char>, JVal)>)
    ensures
        in_range_obj(ms) == (forall|i: int|
            0 <= i < ms.len() ==> jval_in_range(#[trigger] ms[i].1)),
    decreases ms.len(),
{
    if ms.len() > 0 {
        let sub = ms.subrange(1, ms.len() as int);
        lemma_in_range_obj(sub);
        assert forall|i: int| 1 <= i < ms.len() implies sub[i - 1] == ms[i] by {}
        if forall|i: int| 0 <= i < ms.len() ==> jval_in_range(#[trigger] ms[i].1) {
            assert forall|i: int| 0 <= i < sub.len() implies jval_in_range(sub[i].1) by {
                assert(sub[i] == ms[i + 1]);
            }
        }
    }
}

/// A rendered array splits around any interior position: the first `m`
/// elements, a comma, and the rest.
pub proof fn lemma_ser_arr_split(es: Seq<JVal>, m: int)
    requires
        1 <= m < es.len(),
    ensures
        ser_arr(es) == ser_arr(es.subrange(0, m)) + seq![','] + ser_arr(
            es.subrange(m, es.len() as int),
        ),
    decreases m,
{
    if m == 1 {
        assert(es.subrange(0, 1) =~= seq![es[0]]);
        assert(ser_arr(seq![es[0]]) =~= ser(es[0]));
        assert(es.subrange(1, es.len() as int).len() >= 1);
        assert(ser_arr(es) =~= ser_arr(es.subrange(0, 1)) + seq![','] + ser_arr(
            es.subrange(1, es.len() as int),
        ));
    } else {
        let sub = es.subrange(1, es.len() as int);
        lemma_ser_arr_split(sub, m - 1);
        assert(sub.subrange(0, m - 1) =~= es.subrange(1, m));
        assert(sub.subrange(m - 1, sub.len() as int) =~= es.subrange(m, es.len() as int));
        let head = es.subrange(0, m);
        assert(head.len() >= 2);
        assert(head[0] == es[0]);
        assert(head.subrange(1, head.len() as int) =~= es.subrange(1, m));
        assert(ser_arr(es) =~= ser_arr(es.subrange(0, m)) + seq![','] + ser_arr(
            es.subrange(m, es.len() as int),
        ));
    }
}

/// A rendered object splits the same way.
pub proof fn lemma_ser_obj_split(ms: Seq<(Seq<char>, JVal)>, m: int)
    requires
        1 <= m < ms.len(),
    ensures
        ser_obj(ms) == ser_obj(ms.subrange(0, m)) + seq![','] + ser_obj(
            ms.subrange(m, ms.len() as int),
        ),
    decreases m,
{
    if m == 1 {
        assert(ms.subrange(0, 1) =~= seq![ms[0]]);
        assert(ser_obj(seq![ms[0]]) =~= seq!['"'] + ser_str_body(ms[0].0) + seq!['"', ':'] + ser(
            ms[0].1,
        ));
        assert(ms.subrange(1, ms.len() as int).len() >= 1);
        assert(ser_obj(ms) =~= ser_obj(ms.subrange(0, 1)) + seq![','] + ser_obj(
            ms.subrange(1, ms.len() as int),
        ));
    } else {
        let sub = ms.subrange(1, ms.len() as int);
        lemma_ser_obj_split(sub, m - 1);
        assert(sub.subrange(0, m - 1) =~= ms.subrange(1, m));
        assert(sub.subrange(m - 1, sub.len() as int) =~= ms.subrange(m, ms.len() as int));
        let head = ms.subrange(0, m);
        assert(head.len() >= 2);
        assert(head[0] == ms[0]);
        assert(head.subrange(1, head.len() as int) =~= ms.subrange(1, m));
        assert(ser_obj(ms) =~= ser_obj(ms.subrange(0, m)) + seq![','] + ser_obj(
            ms.subrange(m, ms.len() as int),
        ));
    }
}

proof fn lemma_subrange_chain(s: Seq<char>, a: int, b: int, c: int)
    requires
        0 <= a <= b <= c <= s.len(),
    ensures
        s.subrange(a, c) == s.subrange(a, b) + s.subrange(b, c),
{
    assert(s.subrange(a, c) =~= s.subrange(a, b) + s.subrange(b, c));
}

fn digit_of(c: char) -> (r: Option<u64>)
    ensures
        match r {
            Some(d) => is_digit_char(c) && d < 10 && d as int == digit_val(c),
            None => !is_digit_char(c),
        },
{
    if c == '0' {
        Some(0)
    } else if c == '1' {
        Some(1)
    } else if c == '2' {
        Some(2)
    } else if c == '3' {
        Some(3)
    } else if c == '4' {
        Some(4)
    } else if c == '5' {
        Some(5)
    } else if c == '6' {
        Some(6)
    } else if c == '7' {
        Some(7)
    } else if c == '8' {
        Some(8)
    } else if c == '9' {
        Some(9)
    } else {
        None
    }
}

/// An integer image at `i`: the decimal text of an `i64`-range value,
/// followed by the end of the text or by a character that cannot extend
/// the digits.
pub open spec fn int_image_at(s: Seq<char>, i: int, n: int) -> bool {
    &&& 0 <= i
    &&& -0x8000000000000000 <= n < 0x8000000000000000
    &&& i + dec_int(n).len() <= s.len()
    &&& s.subrange(i, i + dec_int(n).len()) == dec_int(n)
    &&& (i + dec_int(n).len() == s.len() || !is_digit_char(s[i + dec_int(n).len()]))
}

/// The character-level reading of an integer image: the optional sign,
/// then exactly the digits of the magnitude.
proof fn lemma_int_image_digits(s: Seq<char>, i: int, n: int)
    requires
        int_image_at(s, i, n),
    ensures
        ({
            let m: nat = if n < 0 {
                (-n) as nat
            } else {
                n as nat
            };
            let ds: int = if n < 0 {
                i + 1
            } else {
                i
            };
            let iend = i + dec_int(n).len();
            &&& (n < 0 ==> s[i] == '-')
            &&& (n >= 0 ==> is_digit_char(s[i]))
            &&& ds + dec_nat(m).len() == iend
            &&& s.subrange(ds, iend) == dec_nat(m)
            &&& (forall|k: int| ds <= k < iend ==> is_digit_char(#[trigger] s[k]))
            &&& (m >= 1 ==> s[ds] != '0')
            &&& (m == 0 ==> s[ds] == '0')
        }),
{
    let m: nat = if n < 0 {
        (-n) as nat
    } else {
        n as nat
    };
    let ds: int = if n < 0 {
        i + 1
    } else {
        i
    };
    let iend = i + dec_int(n).len();
    lemma_dec_nat_val(m);
    assert forall|k: int| 0 <= k < dec_int(n).len() implies s[i + k] == dec_int(n)[k] by {
        assert(s.subrange(i, i + dec_int(n).len())[k] == dec_int(n)[k]);
    }
    if n < 0 {
        assert(dec_int(n) == seq!['-'] + dec_nat(m));
        assert(s[i] == dec_int(n)[0]);
        assert(s.subrange(ds, iend) =~= dec_nat(m)) by {
            assert forall|k: int| 0 <= k < dec_nat(m).len() implies s.subrange(ds, iend)[k]
                == dec_nat(m)[k] by {
                assert(s[i + (k + 1)] == dec_int(n)[k + 1]);
            }
        }
    } else {
        assert(dec_int(n) == dec_nat(m));
        assert(s.subrange(ds, iend) =~= dec_nat(m)) by {
            assert forall|k: int| 0 <= k < dec_nat(m).len() implies s.subrange(ds, iend)[k]
                == dec_nat(m)[k] by {
                assert(s[i + k] == dec_int(n)[k]);
            }
        }
        assert(s[i] == dec_nat(m)[0]);
    }
    assert forall|k: int| ds <= k < iend implies is_digit_char(s[k]) by {
        assert(s.subrange(ds, iend)[k - ds] == dec_nat(m)[k - ds]);
    }
    assert(s[ds] == dec_nat(m)[0]) by {
        assert(s.subrange(ds, iend)[0] == dec_nat(m)[0]);
    }
}

fn parse_number(s: &Vec<char>, i: usize) -> (r: Option<(i64, usize)>)
    requires
        i < s@.len(),
    ensures
        r matches Some((n, j)) ==> i < j <= s@.len() && dec_int(n as int) == s@.subrange(
            i as int,
            j as int,
        ),
        forall|n: int| #![trigger dec_int(n)]
            int_image_at(s@, i as int, n) ==> (r matches Some(p) && p.1 == i + dec_int(n).len()),
{
    let slen = s.len();
    let neg = s[i] == '-';
    let dstart: usize = if neg {
        i + 1
    } else {
        i
    };
    if dstart >= slen {
        proof {
            assert forall|n: int| #![trigger dec_int(n)]
                int_image_at(s@, i as int, n) implies false by {
                lemma_int_image_digits(s@, i as int, n);
                lemma_dec_nat_val(
                    if n < 0 {
                        (-n) as nat
                    } else {
                        n as nat
                    },
                );
            }
        }
        return None;
    }
    let d0 = match digit_of(s[dstart]) {
        Some(d) => d,
        None => {
            proof {
                assert forall|n: int| #![trigger dec_int(n)]
                    int_image_at(s@, i as int, n) implies false by {
                    lemma_int_image_digits(s@, i as int, n);
                }
            }
            return None;
        },
    };
    if s[dstart] == '0' {
        if neg {
            proof {
                assert forall|n: int| #![trigger dec_int(n)]
                    int_image_at(s@, i as int, n) implies false by {
                    lemma_int_image_digits(s@, i as int, n);
                }
            }
            return None;
        }
        proof {
            reveal_with_fuel(dec_nat, 2);
            assert(s@.subrange(i as int, i as int + 1) =~= seq![s@[i as int]]);
            assert(dec_int(0int) =~= seq!['0']);
            assert forall|n: int| #![trigger dec_int(n)]
                int_image_at(s@, i as int, n) implies i + 1 == i + dec_int(n).len() by {
                lemma_int_image_digits(s@, i as int, n);
            }
        }
        return Some((0i64, i + 1));
    }
    let mut m: u64 = d0;
    let mut j: usize = dstart + 1;
    proof {
        reveal_with_fuel(digits_val, 2);
        assert(s@.subrange(dstart as int, j as int) =~= seq![s@[dstart as int]]);
        assert(s@.subrange(dstart as int, j as int).drop_last() =~= Seq::<char>::empty());
        assert(m as int == digits_val(s@.subrange(dstart as int, j as int)));
    }
    let mut stopped = false;
    while j < slen && !stopped
        invariant
            slen == s@.len(),
            i <= dstart < j <= s@.len(),
            dstart == if neg {
                i + 1
            } else {
                i as int
            },
            neg == (s@[i as int] == '-'),
            s@[dstart as int] != '0',
            is_digit_char(s@[dstart as int]),
            forall|k: int| dstart <= k < j ==> is_digit_char(#[trigger] s@[k]),
            m as int == digits_val(s@.subrange(dstart as int, j as int)),
            stopped ==> j < s@.len() && !is_digit_char(s@[j as int]),
        decreases s@.len() - j + (if stopped {
            0int
        } else {
            1int
        }),
    {
        match digit_of(s[j]) {
            Some(d) => {
                if m > 922337203685477580u64 {
                    proof {
                        assert forall|n: int| #![trigger dec_int(n)]
                            int_image_at(s@, i as int, n) implies false by {
                            lemma_int_image_digits(s@, i as int, n);
                            let mimg: nat = if n < 0 {
                                (-n) as nat
                            } else {
                                n as nat
                            };
                            let iend = i + dec_int(n).len();
                            if j as int > iend {
                                assert(is_digit_char(s@[iend]));
                            }
                            if j as int == iend {
                                assert(!is_digit_char(s@[j as int]));
                            }
                            assert((j as int) < iend);
                            lemma_dec_nat_val(mimg);
                            assert(s@.subrange(dstart as int, j as int) =~= dec_nat(
                                mimg,
                            ).subrange(0, j - dstart)) by {
                                assert forall|k: int|
                                    0 <= k < j - dstart implies s@.subrange(
                                    dstart as int,
                                    j as int,
                                )[k] == dec_nat(mimg).subrange(0, j - dstart)[k] by {
                                    assert(s@.subrange(dstart as int, iend)[k] == dec_nat(
                                        mimg,
                                    )[k]);
                                }
                            }
                            crate::strutil::lemma_digits_prefix(dec_nat(mimg), j - dstart);
                            assert(mimg >= m as int * 10);
                        }
                    }
                    return None;
                }
                proof {
                    let pre = s@.subrange(dstart as int, j as int);
                    let ext = s@.subrange(dstart as int, j as int + 1);
                    assert(ext =~= pre.push(s@[j as int]));
                    assert(ext.drop_last() =~= pre);
                    assert(ext.last() == s@[j as int]);
                }
                m = m * 10 + d;
                j = j + 1;
            },
            None => {
                stopped = true;
            },
        }
    }
    proof {
        lemma_digits_reconstruct(s@.subrange(dstart as int, j as int));
        assert forall|n: int| #![trigger dec_int(n)]
            int_image_at(s@, i as int, n) implies j as int == i + dec_int(n).len() && (if n < 0 {
            (-n) as nat
        } else {
            n as nat
        }) == m as nat by {
            lemma_int_image_digits(s@, i as int, n);
            let mimg: nat = if n < 0 {
                (-n) as nat
            } else {
                n as nat
            };
            let iend = i + dec_int(n).len();
            lemma_dec_nat_val(mimg);
            if (j as int) < iend {
                assert(is_digit_char(s@[j as int])) by {
                    assert(s@.subrange(dstart as int, iend)[j - dstart] == dec_nat(mimg)[j
                        - dstart]);
                }
                assert(false);
            }
            if (j as int) > iend {
                assert(is_digit_char(s@[iend]));
                assert(iend < s@.len());
                assert(false);
            }
            assert(s@.subrange(dstart as int, j as int) == dec_nat(mimg));
            assert(digits_val(dec_nat(mimg)) == mimg);
        }
    }
    if neg {
        let n: i64 = if m <= 9223372036854775807u64 {
            -(m as i64)
        } else if m == 9223372036854775808u64 {
            i64::MIN
        } else {
            proof {
                assert forall|n: int| #![trigger dec_int(n)]
                    int_image_at(s@, i as int, n) implies false by {
                    lemma_int_image_digits(s@, i as int, n);
                }
            }
            return None;
        };
        proof {
            assert((-(n as int)) as nat == m as nat);
            assert(s@.subrange(i as int, j as int) =~= seq!['-'] + s@.subrange(
                dstart as int,
                j as int,
            ));
            assert(dec_int(n as int) =~= s@.subrange(i as int, j as int));
        }
        Some((n, j))
    } else {
        if m <= 9223372036854775807u64 {
            proof {
                assert(dec_int(m as int) =~= s@.subrange(i as int, j as int));
            }
            Some((m as i64, j))
        } else {
            proof {
                assert forall|n: int| #![trigger dec_int(n)]
                    int_image_at(s@, i as int, n) implies false by {
                    lemma_int_image_digits(s@, i as int, n);
                }
            }
            None
        }
    }
}

/// A quoted string image: the quote, the rendered body of `t`, and the
/// closing quote, sitting at position `i`.
pub open spec fn str_image_at(s: Seq<char>, i: int, t: Seq<char>) -> bool {
    &&& 0 <= i
    &&& i + 2 + ser_str_body(t).len() <= s.len()
    &&& s.subrange(i, i + 2 + ser_str_body(t).len()) == seq!['"'] + ser_str_body(t) + seq!['"']
}

/// What the scanning position looks like mid-string when an image of `t`
/// sits at `i` and `acc` is a decoded prefix of `t`.
proof fn lemma_str_step(s: Seq<char>, i: int, j: int, acc: Seq<char>, t: Seq<char>)
    requires
        0 <= i < j <= s.len(),
        s.subrange(i + 1, j) == ser_str_body(acc),
        str_image_at(s, i, t),
        acc.len() <= t.len(),
        t.subrange(0, acc.len() as int) == acc,
    ensures
        ({
            let t2 = t.subrange(acc.len() as int, t.len() as int);
            let bend = i + 1 + ser_str_body(t).len();
            &&& ser_str_body(t) == ser_str_body(acc) + ser_str_body(t2)
            &&& j == i + 1 + ser_str_body(acc).len()
            &&& j <= bend < s.len()
            &&& s[bend] == '"'
            &&& s.subrange(j, bend) == ser_str_body(t2)
            &&& (t2.len() == 0 ==> j == bend)
            &&& (t2.len() > 0 ==> j < bend && s[j] == esc_char(t2[0])[0] && 1 <= esc_char(
                t2[0],
            ).len() <= 2 && ser_str_body(t2) == esc_char(t2[0]) + ser_str_body(
                t2.subrange(1, t2.len() as int),
            ) && (esc_char(t2[0]).len() == 2 ==> j + 1 < bend && s[j + 1] == esc_char(t2[0])[1]))
        }),
{
    let t2 = t.subrange(acc.len() as int, t.len() as int);
    assert(t =~= acc + t2);
    lemma_ser_str_concat(acc, t2);
    let body = ser_str_body(t);
    let bend = i + 1 + body.len();
    let image = seq!['"'] + body + seq!['"'];
    assert forall|k: int| 0 <= k < body.len() implies s[i + 1 + k] == body[k] by {
        assert(s.subrange(i, i + 2 + body.len())[k + 1] == image[k + 1]);
    }
    assert(s[bend] == '"') by {
        assert(s.subrange(i, i + 2 + body.len())[1 + body.len() as int] == image[1 + body.len() as int]);
    }
    assert(s.subrange(j, bend) =~= ser_str_body(t2)) by {
        assert forall|k: int| 0 <= k < ser_str_body(t2).len() implies s.subrange(j, bend)[k]
            == ser_str_body(t2)[k] by {
            assert(s[i + 1 + (ser_str_body(acc).len() + k)] == body[ser_str_body(acc).len() + k]);
        }
    }
    if t2.len() > 0 {
        assert(ser_str_body(t2) == esc_char(t2[0]) + ser_str_body(
            t2.subrange(1, t2.len() as int),
        ));
        assert(s[j] == esc_char(t2[0])[0]) by {
            assert(s.subrange(j, bend)[0] == ser_str_body(t2)[0]);
        }
        if esc_char(t2[0]).len() == 2 {
            assert(s[j + 1] == esc_char(t2[0])[1]) by {
                assert(s.subrange(j, bend)[1] == ser_str_body(t2)[1]);
            }
        }
    }
}

fn parse_string(s: &Vec<char>, i: usize) -> (r: Option<(String, usize)>)
    requires
        i < s@.len(),
        s@[i as int] == '"',
    ensures
        r matches Some((text, j)) ==> i < j <= s@.len() && seq!['"'] + ser_str_body(text@) + seq![
            '"',
        ] == s@.subrange(i as int, j as int),
        forall|t: Seq<char>| #![trigger ser_str_body(t)]
            str_image_at(s@, i as int, t) ==> (r matches Some(p) && p.1 == i + 2 + ser_str_body(
                t,
            ).len()),
{
    let slen = s.len();
    let mut acc: Vec<char> = Vec::new();
    let mut j: usize = i + 1;
    proof {
        assert(s@.subrange(i as int + 1, j as int) =~= Seq::<char>::empty());
    }
    while j < slen
        invariant
            slen == s@.len(),
            i < j <= s@.len(),
            s@[i as int] == '"',
            s@.subrange(i as int + 1, j as int) == ser_str_body(acc@),
            forall|t: Seq<char>| #![trigger ser_str_body(t)]
                str_image_at(s@, i as int, t) ==> acc@.len() <= t.len() && t.subrange(
                    0,
                    acc@.len() as int,
                ) == acc@,
        decreases s@.len() - j,
    {
        let ghost acc_pre = acc@;
        let c = s[j];
        if c == '"' {
            let text = crate::strutil::chars_to_string(&acc);
            proof {
                lemma_subrange_chain(s@, i as int, i as int + 1, j as int + 1);
                lemma_subrange_chain(s@, i as int + 1, j as int, j as int + 1);
                assert(s@.subrange(i as int, i as int + 1) =~= seq!['"']);
                assert(s@.subrange(j as int, j as int + 1) =~= seq!['"']);
                assert forall|t: Seq<char>| #![trigger ser_str_body(t)]
                    str_image_at(s@, i as int, t) implies j + 1 == i + 2 + ser_str_body(
                    t,
                ).len() by {
                    lemma_str_step(s@, i as int, j as int, acc_pre, t);
                    let t2 = t.subrange(acc_pre.len() as int, t.len() as int);
                    if t2.len() > 0 {
                        assert(esc_char(t2[0])[0] != '"');
                    }
                }
            }
            return Some((text, j + 1));
        } else if c == '\\' {
            proof {
                assert forall|t: Seq<char>| #![trigger ser_str_body(t)]
                    str_image_at(s@, i as int, t) implies ({
                    let t2 = t.subrange(acc_pre.len() as int, t.len() as int);
                    t2.len() > 0 && esc_char(t2[0]).len() == 2 && j + 1 < s@.len()
                }) by {
                    lemma_str_step(s@, i as int, j as int, acc_pre, t);
                    let t2 = t.subrange(acc_pre.len() as int, t.len() as int);
                    if t2.len() == 0 {
                        assert(s@[j as int] == '"');
                    } else {
                        if esc_char(t2[0]).len() == 1 {
                            assert(esc_char(t2[0])[0] == t2[0]);
                            assert(t2[0] == '\\');
                        }
                    }
                }
            }
            if j + 1 >= slen {
                proof {
                    assert forall|t: Seq<char>| #![trigger ser_str_body(t)]
                        str_image_at(s@, i as int, t) implies false by {}
                }
                return None;
            }
            let e = s[j + 1];
            let unescaped: char = if e == '"' {
                '"'
            } else if e == '\\' {
                '\\'
            } else if e == 'b' {
                '\u{8}'
            } else if e == 't' {
                '\t'
            } else if e == 'n' {
                '\n'
            } else if e == 'f' {
                '\u{c}'
            } else if e == 'r' {
                '\r'
            } else {
                proof {
                    assert forall|t: Seq<char>| #![trigger ser_str_body(t)]
                        str_image_at(s@, i as int, t) implies false by {
                        lemma_str_step(s@, i as int, j as int, acc_pre, t);
                        let t2 = t.subrange(acc_pre.len() as int, t.len() as int);
                        assert(esc_char(t2[0]).len() == 2);
                        assert(s@[j as int + 1] == esc_char(t2[0])[1]);
                    }
                }
                return None;
            };
            proof {
                assert(esc_char(unescaped) =~= seq![c, e]);
                assert(s@.subrange(i as int + 1, j as int + 2) =~= s@.subrange(
                    i as int + 1,
                    j as int,
                ) + seq![c, e]);
                lemma_ser_str_snoc(acc@, unescaped);
            }
            proof {
                assert forall|t: Seq<char>| #![trigger ser_str_body(t)]
                    str_image_at(s@, i as int, t) implies acc_pre.push(unescaped).len() <= t.len()
                    && t.subrange(0, acc_pre.len() as int + 1) == acc_pre.push(unescaped) by {
                    lemma_str_step(s@, i as int, j as int, acc_pre, t);
                    let t2 = t.subrange(acc_pre.len() as int, t.len() as int);
                    assert(esc_char(t2[0]).len() == 2);
                    assert(s@[j as int + 1] == esc_char(t2[0])[1]);
                    assert(t2[0] == unescaped);
                    assert(t.subrange(0, acc_pre.len() as int + 1) =~= acc_pre.push(t2[0]));
                }
            }
            acc.push(unescaped);
            j = j + 2;
        } else if c == '\u{8}' || c == '\t' || c == '\n' || c == '\u{c}' || c == '\r' {
            proof {
                assert forall|t: Seq<char>| #![trigger ser_str_body(t)]
                    str_image_at(s@, i as int, t) implies false by {
                    lemma_str_step(s@, i as int, j as int, acc_pre, t);
                    let t2 = t.subrange(acc_pre.len() as int, t.len() as int);
                    if t2.len() == 0 {
                        assert(s@[j as int] == '"');
                    } else {
                        if esc_char(t2[0]).len() == 1 {
                            assert(t2[0] == c);
                        }
                    }
                }
            }
            return None;
        } else {
            proof {
                assert(esc_char(c) =~= seq![c]);
                assert(s@.subrange(i as int + 1, j as int + 1) =~= s@.subrange(
                    i as int + 1,
                    j as int,
                ) + seq![c]);
                lemma_ser_str_snoc(acc@, c);
                assert forall|t: Seq<char>| #![trigger ser_str_body(t)]
                    str_image_at(s@, i as int, t) implies acc_pre.push(c).len() <= t.len()
                    && t.subrange(0, acc_pre.len() as int + 1) == acc_pre.push(c) by {
                    lemma_str_step(s@, i as int, j as int, acc_pre, t);
                    let t2 = t.subrange(acc_pre.len() as int, t.len() as int);
                    if t2.len() == 0 {
                        assert(s@[j as int] == '"');
                    } else {
                        if esc_char(t2[0]).len() == 2 {
                            assert(esc_char(t2[0])[0] == '\\');
                        }
                        assert(t2[0] == c);
                        assert(t.subrange(0, acc_pre.len() as int + 1) =~= acc_pre.push(t2[0]));
                    }
                }
            }
            acc.push(c);
            j = j + 1;
        }
    }
    proof {
        assert forall|t: Seq<char>| #![trigger ser_str_body(t)]
            str_image_at(s@, i as int, t) implies false by {
            lemma_str_step(s@, i as int, j as int, acc@, t);
        }
    }
    None
}

/// An array image at `i`: bracket, joined elements, bracket.
pub open spec fn arr_image_at(s: Seq<char>, i: int, es: Seq<JVal>) -> bool {
    &&& 0 <= i
    &&& in_range_arr(es)
    &&& i + 2 + ser_arr(es).len() <= s.len()
    &&& s.subrange(i, i + 2 + ser_arr(es).len()) == seq!['['] + ser_arr(es) + seq![']']
}

/// An object image at `i`: brace, joined members, brace.
pub open spec fn obj_image_at(s: Seq<char>, i: int, ms: Seq<(Seq<char>, JVal)>) -> bool {
    &&& 0 <= i
    &&& in_range_obj(ms)
    &&& i + 2 + ser_obj(ms).len() <= s.len()
    &&& s.subrange(i, i + 2 + ser_obj(ms).len()) == seq!['{'] + ser_obj(ms) + seq!['}']
}

/// Where the pieces of an array image sit: after the first `k` elements
/// comes a comma and the next element's own image, or the closing
/// bracket; every element image is followed by a non-digit.
proof fn lemma_arr_image_pos(s: Seq<char>, i: int, es: Seq<JVal>, k: int)
    requires
        arr_image_at(s, i, es),
        0 <= k <= es.len(),
    ensures
        ({
            let posk = i + 1 + ser_arr(es.subrange(0, k)).len();
            let estart = posk + if k == 0 {
                0int
            } else {
                1int
            };
            &&& posk <= i + 1 + ser_arr(es).len() < s.len()
            &&& (k == es.len() ==> posk == i + 1 + ser_arr(es).len() && s[posk] == ']')
            &&& (1 <= k < es.len() ==> s[posk] == ',')
            &&& (k < es.len() ==> jval_in_range(es[k]) && estart + ser(es[k]).len() < s.len()
                && s.subrange(estart, estart + ser(es[k]).len()) == ser(es[k])
                && !is_digit_char(s[estart + ser(es[k]).len()]))
        }),
    decreases es.len() - k,
{
    let whole = ser_arr(es);
    let image = seq!['['] + whole + seq![']'];
    assert forall|p: int| 0 <= p < whole.len() implies s[i + 1 + p] == whole[p] by {
        assert(s.subrange(i, i + 2 + whole.len())[p + 1] == image[p + 1]);
    }
    assert(s[i + 1 + whole.len() as int] == ']') by {
        assert(s.subrange(i, i + 2 + whole.len())[1 + whole.len() as int] == image[1
            + whole.len() as int]);
    }
    lemma_in_range_arr(es);
    let head = es.subrange(0, k);
    if k == es.len() {
        assert(head =~= es);
    } else {
        let posk = i + 1 + ser_arr(head).len();
        let estart = posk + if k == 0 {
            0int
        } else {
            1int
        };
        let tail = es.subrange(k, es.len() as int);
        assert(tail.len() >= 1);
        assert(tail[0] == es[k]);
        let tail_txt = ser_arr(tail);
        if tail.len() == 1 {
            assert(tail_txt == ser(es[k]));
        } else {
            assert(tail_txt == ser(es[k]) + seq![','] + ser_arr(
                tail.subrange(1, tail.len() as int),
            ));
        }
        lemma_ser_nonempty(es[k]);
        if k == 0 {
            assert(head.len() == 0);
            assert(ser_arr(head) =~= Seq::<char>::empty());
            assert(tail =~= es);
            assert forall|p: int|
                0 <= p < ser(es[k]).len() implies s.subrange(
                estart,
                estart + ser(es[k]).len(),
            )[p] == ser(es[k])[p] by {
                assert(s[i + 1 + p] == whole[p]);
                assert(whole[p] == tail_txt[p]);
            }
            assert(s.subrange(estart, estart + ser(es[k]).len()) =~= ser(es[k]));
            if tail.len() == 1 {
                assert(estart + ser(es[k]).len() == i + 1 + whole.len());
                assert(s[estart + ser(es[k]).len()] == ']');
            } else {
                assert(s[estart + ser(es[k]).len()] == ',') by {
                    assert(s[i + 1 + ser(es[k]).len() as int] == whole[ser(es[k]).len() as int]);
                    assert(whole[ser(es[k]).len() as int] == tail_txt[ser(es[k]).len() as int]);
                }
            }
        } else {
            lemma_ser_arr_split(es, k);
            assert(whole == ser_arr(head) + seq![','] + tail_txt);
            assert(s[posk] == ',') by {
                assert(s[i + 1 + ser_arr(head).len() as int] == whole[ser_arr(
                    head,
                ).len() as int]);
            }
            assert forall|p: int|
                0 <= p < ser(es[k]).len() implies s.subrange(
                estart,
                estart + ser(es[k]).len(),
            )[p] == ser(es[k])[p] by {
                assert(s[i + 1 + (ser_arr(head).len() + 1 + p)] == whole[ser_arr(head).len() + 1
                    + p]);
                assert(whole[ser_arr(head).len() + 1 + p] == tail_txt[p]);
            }
            assert(s.subrange(estart, estart + ser(es[k]).len()) =~= ser(es[k]));
            if tail.len() == 1 {
                assert(estart + ser(es[k]).len() == i + 1 + whole.len());
                assert(s[estart + ser(es[k]).len()] == ']');
            } else {
                assert(s[estart + ser(es[k]).len()] == ',') by {
                    let off = ser_arr(head).len() + 1 + ser(es[k]).len();
                    assert(s[i + 1 + off] == whole[off as int]);
                    assert(whole[off as int] == tail_txt[ser(es[k]).len() as int]);
                }
            }
        }
    }
}

/// Where the pieces of an object image sit: after the first `k` members
/// comes a comma and the next member — its quoted key, the colon, and
/// the value's own image — or the closing brace.
proof fn lemma_obj_image_pos(s: Seq<char>, i: int, ms: Seq<(Seq<char>, JVal)>, k: int)
    requires
        obj_image_at(s, i, ms),
        0 <= k <= ms.len(),
    ensures
        ({
            let posk = i + 1 + ser_obj(ms.subrange(0, k)).len();
            let mstart = posk + if k == 0 {
                0int
            } else {
                1int
            };
            let kl = ser_str_body(ms[k].0).len();
            let vstart = mstart + 2 + kl + 1;
            &&& posk <= i + 1 + ser_obj(ms).len() < s.len()
            &&& (k == ms.len() ==> posk == i + 1 + ser_obj(ms).len() && s[posk] == '}')
            &&& (1 <= k < ms.len() ==> s[posk] == ',')
            &&& (k < ms.len() ==> jval_in_range(ms[k].1) && str_image_at(s, mstart, ms[k].0)
                && s[mstart + 2 + kl] == ':' && vstart + ser(ms[k].1).len() < s.len()
                && s.subrange(vstart, vstart + ser(ms[k].1).len()) == ser(ms[k].1)
                && !is_digit_char(s[vstart + ser(ms[k].1).len()]))
        }),
    decreases ms.len() - k,
{
    let whole = ser_obj(ms);
    let image = seq!['{'] + whole + seq!['}'];
    assert forall|p: int| 0 <= p < whole.len() implies s[i + 1 + p] == whole[p] by {
        assert(s.subrange(i, i + 2 + whole.len())[p + 1] == image[p + 1]);
    }
    assert(s[i + 1 + whole.len() as int] == '}') by {
        assert(s.subrange(i, i + 2 + whole.len())[1 + whole.len() as int] == image[1
            + whole.len() as int]);
    }
    lemma_in_range_obj(ms);
    let head = ms.subrange(0, k);
    if k == ms.len() {
        assert(head =~= ms);
    } else {
        let posk = i + 1 + ser_obj(head).len();
        let mstart = posk + if k == 0 {
            0int
        } else {
            1int
        };
        let kl = ser_str_body(ms[k].0).len();
        let vstart = mstart + 2 + kl + 1;
        let tail = ms.subrange(k, ms.len() as int);
        assert(tail.len() >= 1);
        assert(tail[0] == ms[k]);
        let member = seq!['"'] + ser_str_body(ms[k].0) + seq!['"', ':'] + ser(ms[k].1);
        let tail_txt = ser_obj(tail);
        if tail.len() == 1 {
            assert(tail_txt == member);
        } else {
            assert(tail_txt == member + seq![','] + ser_obj(tail.subrange(1, tail.len() as int)));
        }
        lemma_ser_nonempty(ms[k].1);
        let moff: int = if k == 0 {
            0int
        } else {
            ser_obj(head).len() as int + 1
        };
        if k == 0 {
            assert(head.len() == 0);
            assert(ser_obj(head) =~= Seq::<char>::empty());
            assert(tail =~= ms);
        } else {
            lemma_ser_obj_split(ms, k);
            assert(whole == ser_obj(head) + seq![','] + tail_txt);
            assert(s[posk] == ',') by {
                assert(s[i + 1 + ser_obj(head).len() as int] == whole[ser_obj(
                    head,
                ).len() as int]);
            }
        }
        assert forall|p: int| 0 <= p < member.len() implies s[mstart + p] == member[p] by {
            assert(s[i + 1 + (moff + p)] == whole[moff + p]);
            assert(whole[moff + p] == tail_txt[p]);
        }
        assert(str_image_at(s, mstart, ms[k].0)) by {
            assert forall|p: int|
                0 <= p < 2 + kl implies s.subrange(mstart, mstart + 2 + kl)[p] == (seq!['"']
                + ser_str_body(ms[k].0) + seq!['"'])[p] by {
                assert(s[mstart + p] == member[p]);
            }
            assert(s.subrange(mstart, mstart + 2 + kl) =~= seq!['"'] + ser_str_body(ms[k].0)
                + seq!['"']);
        }
        assert(s[mstart + 2 + kl] == ':') by {
            assert(s[mstart + (2 + kl + 1 - 1)] == member[2 + kl + 1 - 1]);
        }
        assert forall|p: int|
            0 <= p < ser(ms[k].1).len() implies s.subrange(
            vstart,
            vstart + ser(ms[k].1).len(),
        )[p] == ser(ms[k].1)[p] by {
            assert(s[mstart + (2 + kl + 2 + p - 1)] == member[2 + kl + 2 + p - 1]);
        }
        assert(s.subrange(vstart, vstart + ser(ms[k].1).len()) =~= ser(ms[k].1));
        if tail.len() == 1 {
            assert(vstart + ser(ms[k].1).len() == i + 1 + whole.len());
            assert(s[vstart + ser(ms[k].1).len()] == '}');
        } else {
            assert(s[vstart + ser(ms[k].1).len()] == ',') by {
                let off = moff + member.len();
                assert(s[i + 1 + off] == whole[off as int]);
                assert(whole[off as int] == tail_txt[member.len() as int]);
            }
        }
    }
}

fn expect_lit(s: &Vec<char>, i: usize, a: char, b: char, c: char, d: char) -> (r: bool)
    requires
        i < s@.len(),
    ensures
        r == (i + 4 <= s@.len() && s@.subrange(i as int, i as int + 4) == seq![a, b, c, d]),
{
    if s.len() - i < 4 {
        return false;
    }
    let ok = s[i] == a && s[i + 1] == b && s[i + 2] == c && s[i + 3] == d;
    proof {
        if ok {
            assert(s@.subrange(i as int, i as int + 4) =~= seq![a, b, c, d]);
        } else {
            assert(s@.subrange(i as int, i as int + 4) != seq![a, b, c, d]) by {
                if s@.subrange(i as int, i as int + 4) == seq![a, b, c, d] {
                    assert(s@[i as int] == s@.subrange(i as int, i as int + 4)[0]);
                    assert(s@[i as int + 1] == s@.subrange(i as int, i as int + 4)[1]);
                    assert(s@[i as int + 2] == s@.subrange(i as int, i as int + 4)[2]);
                    assert(s@[i as int + 3] == s@.subrange(i as int, i as int + 4)[3]);
                }
            }
        }
    }
    ok
}

/// A value image at `i`: the serialization of an in-range value,
/// followed by the end of the text or a character that cannot extend a
/// number.
pub open spec fn val_image_at(s: Seq<char>, i: int, v: JVal) -> bool {
    &&& 0 <= i
    &&& jval_in_range(v)
    &&& i + ser(v).len() <= s.len()
    &&& s.subrange(i, i + ser(v).len()) == ser(v)
    &&& (i + ser(v).len() == s.len() || !is_digit_char(s[i + ser(v).len()]))
}

/// A value image seen through its constructor: the first character names
/// the kind, and each kind's own image predicate follows.
proof fn lemma_val_image_kind(s: Seq<char>, i: int, v: JVal)
    requires
        val_image_at(s, i, v),
    ensures
        ser(v).len() >= 1,
        i < s.len(),
        s[i] == ser(v)[0],
        v is Null ==> ser(v).len() == 4 && s[i] == 'n' && i + 4 <= s.len() && s.subrange(
            i,
            i + 4,
        ) == seq!['n', 'u', 'l', 'l'],
        v == JVal::Bool(true) ==> ser(v).len() == 4 && s[i] == 't' && i + 4 <= s.len()
            && s.subrange(i, i + 4) == seq!['t', 'r', 'u', 'e'],
        v == JVal::Bool(false) ==> ser(v).len() == 5 && s[i] == 'f' && i + 5 <= s.len()
            && s.subrange(i, i + 5) == seq!['f', 'a', 'l', 's', 'e'],
        v matches JVal::Int(n) ==> int_image_at(s, i, n) && (s[i] == '-' || is_digit_char(s[i])),
        v matches JVal::Str(t) ==> s[i] == '"' && str_image_at(s, i, t) && ser(v).len() == 2
            + ser_str_body(t).len(),
        v matches JVal::Arr(es) ==> s[i] == '[' && arr_image_at(s, i, es) && ser(v).len() == 2
            + ser_arr(es).len(),
        v matches JVal::Obj(ms) ==> s[i] == '{' && obj_image_at(s, i, ms) && ser(v).len() == 2
            + ser_obj(ms).len(),
{
    lemma_ser_first(v);
    assert(s[i] == ser(v)[0]) by {
        assert(s.subrange(i, i + ser(v).len())[0] == ser(v)[0]);
    }
    match v {
        JVal::Null => {
            assert(s.subrange(i, i + 4) =~= ser(v));
        },
        JVal::Bool(b) => {
            if b {
                assert(s.subrange(i, i + 4) =~= ser(v));
            } else {
                assert(s.subrange(i, i + 5) =~= ser(v));
            }
        },
        JVal::Int(n) => {},
        JVal::Str(t) => {
            assert(s.subrange(i, i + 2 + ser_str_body(t).len()) =~= seq!['"'] + ser_str_body(t)
                + seq!['"']);
        },
        JVal::Arr(es) => {
            assert(s.subrange(i, i + 2 + ser_arr(es).len()) =~= seq!['['] + ser_arr(es)
                + seq![']']);
        },
        JVal::Obj(ms) => {
            assert(s.subrange(i, i + 2 + ser_obj(ms).len()) =~= seq!['{'] + ser_obj(ms)
                + seq!['}']);
        },
    }
}

#[verifier::rlimit(100)]
fn parse_array(s: &Vec<char>, i: usize) -> (r: Option<(JsonValue, usize)>)
    requires
        i < s@.len(),
        s@[i as int] == '[',
    ensures
        r matches Some((v, j)) ==> i < j <= s@.len() && ser(v@) == s@.subrange(i as int, j as int),
        forall|v: JVal| #![trigger ser(v)]
            val_image_at(s@, i as int, v) ==> (r matches Some(p) && p.1 == i + ser(v).len()),
    decreases s@.len() - i, 0int,
{
    let slen = s.len();
    proof {
        assert(i < slen);
    }
        if i + 1 < s.len() && s[i + 1] == ']' {
            let elems: Vec<JsonValue> = Vec::new();
            proof {
                assert(jval_arr(elems@) =~= Seq::<JVal>::empty());
                assert(s@.subrange(i as int, i as int + 2) =~= seq!['[', ']']);
                assert(ser(jval(JsonValue::Arr(elems))) =~= s@.subrange(i as int, i as int + 2));
                assert forall|v: JVal| #![trigger ser(v)]
                    val_image_at(s@, i as int, v) implies i + 2 == i + ser(v).len() by {
                    lemma_val_image_kind(s@, i as int, v);
                    match v {
                        JVal::Arr(es) => {
                            if es.len() > 0 {
                                lemma_arr_image_pos(s@, i as int, es, 0);
                                lemma_ser_first(es[0]);
                                assert(s@[i as int + 1] == ser(es[0])[0]) by {
                                    assert(s@.subrange(
                                        i as int + 1,
                                        i as int + 1 + ser(es[0]).len(),
                                    )[0] == ser(es[0])[0]);
                                }
                            }
                        },
                        _ => {},
                    }
                }
            }
            return Some((JsonValue::Arr(elems), i + 2));
        }
        proof {
            assert forall|es: Seq<JVal>| #![trigger ser_arr(es)]
                arr_image_at(s@, i as int, es) implies (es.len() > 0 && val_image_at(
                s@,
                i as int + 1,
                es[0],
            )) by {
                if es.len() == 0 {
                    assert(ser_arr(es).len() == 0);
                    assert(s@.subrange(i as int, i as int + 2)[1] == ']');
                } else {
                    lemma_arr_image_pos(s@, i as int, es, 0);
                }
            }
        }
        let mut elems: Vec<JsonValue> = Vec::new();
        let first = match parse_value(s, i + 1) {
            Some(p) => p,
            None => {
                proof {
                    assert forall|v: JVal| #![trigger ser(v)]
                        val_image_at(s@, i as int, v) implies false by {
                        lemma_val_image_kind(s@, i as int, v);
                        match v {
                            JVal::Arr(es) => {
                                assert(es.len() > 0 && val_image_at(s@, i as int + 1, es[0]));
                                assert(ser(es[0]).len() >= 0);
                            },
                            _ => {},
                        }
                    }
                }
                return None;
            },
        };
        let mut cur: usize = first.1;
        proof {
            lemma_jval_arr_push(elems@, first.0);
            assert(jval_arr(elems@) =~= Seq::<JVal>::empty());
            assert(jval_arr(elems@.push(first.0)) =~= seq![jval(first.0)]);
        }
        elems.push(first.0);
        proof {
            assert(ser_arr(jval_arr(elems@)) == s@.subrange(i as int + 1, cur as int));
            assert forall|es: Seq<JVal>| #![trigger ser_arr(es)]
                arr_image_at(s@, i as int, es) implies 1 <= elems@.len() <= es.len() && cur as int
                == i + 1 + ser_arr(es.subrange(0, elems@.len() as int)).len() by {
                assert(es.len() > 0 && val_image_at(s@, i as int + 1, es[0]));
                assert(ser(es[0]).len() >= 0);
                assert(cur as int == i + 1 + ser(es[0]).len());
                assert(es.subrange(0, 1) =~= seq![es[0]]);
                assert(ser_arr(seq![es[0]]) == ser(es[0]));
            }
        }
        while cur < s.len()
            invariant
                i < cur <= s@.len(),
                elems@.len() >= 1,
                jval_arr(elems@).len() >= 1,
                s@.subrange(i as int + 1, cur as int) == ser_arr(jval_arr(elems@)),
                s@[i as int] == '[',
                forall|es: Seq<JVal>| #![trigger ser_arr(es)]
                    arr_image_at(s@, i as int, es) ==> 1 <= elems@.len() <= es.len() && cur as int
                        == i + 1 + ser_arr(es.subrange(0, elems@.len() as int)).len(),
            decreases s@.len() - cur,
        {
            let ghost k = elems@.len() as int;
            let t = s[cur];
            if t == ']' {
                proof {
                    lemma_subrange_chain(s@, i as int, i as int + 1, cur as int + 1);
                    lemma_subrange_chain(s@, i as int + 1, cur as int, cur as int + 1);
                    assert(s@.subrange(i as int, i as int + 1) =~= seq!['[']);
                    assert(s@.subrange(cur as int, cur as int + 1) =~= seq![']']);
                    assert forall|v: JVal| #![trigger ser(v)]
                        val_image_at(s@, i as int, v) implies cur + 1 == i + ser(v).len() by {
                        lemma_val_image_kind(s@, i as int, v);
                        match v {
                            JVal::Arr(es) => {
                                if k < es.len() {
                                    lemma_arr_image_pos(s@, i as int, es, k);
                                }
                                assert(k == es.len());
                                assert(es.subrange(0, k) =~= es);
                            },
                            _ => {},
                        }
                    }
                }
                return Some((JsonValue::Arr(elems), cur + 1));
            } else if t == ',' {
                let ghost cur_pre = cur as int;
                proof {
                    assert forall|es: Seq<JVal>| #![trigger ser_arr(es)]
                        arr_image_at(s@, i as int, es) implies (k < es.len() && val_image_at(
                        s@,
                        cur as int + 1,
                        es[k],
                    )) by {
                        if k == es.len() {
                            lemma_arr_image_pos(s@, i as int, es, k);
                            assert(es.subrange(0, k) =~= es);
                            assert(s@[cur as int] == ']');
                        }
                        assert(k < es.len());
                        lemma_arr_image_pos(s@, i as int, es, k);
                        lemma_in_range_arr(es);
                    }
                }
                let nxt = match parse_value(s, cur + 1) {
                    Some(p) => p,
                    None => {
                        proof {
                            assert forall|v: JVal| #![trigger ser(v)]
                                val_image_at(s@, i as int, v) implies false by {
                                lemma_val_image_kind(s@, i as int, v);
                                match v {
                                    JVal::Arr(es) => {
                                        assert(k < es.len() && val_image_at(
                                            s@,
                                            cur as int + 1,
                                            es[k],
                                        ));
                                        assert(ser(es[k]).len() >= 0);
                                    },
                                    _ => {},
                                }
                            }
                        }
                        return None;
                    },
                };
                proof {
                    lemma_jval_arr_push(elems@, nxt.0);
                    lemma_ser_arr_snoc(jval_arr(elems@), jval(nxt.0));
                    lemma_subrange_chain(s@, i as int + 1, cur as int, cur as int + 1);
                    lemma_subrange_chain(s@, i as int + 1, cur as int + 1, nxt.1 as int);
                    assert(s@.subrange(cur as int, cur as int + 1) =~= seq![',']);
                }
                let j2 = nxt.1;
                elems.push(nxt.0);
                cur = j2;
                proof {
                    assert(s@.subrange(i as int + 1, cur as int) =~= ser_arr(jval_arr(elems@)));
                    assert forall|es: Seq<JVal>| #![trigger ser_arr(es)]
                        arr_image_at(s@, i as int, es) implies 1 <= elems@.len() <= es.len()
                        && cur as int == i + 1 + ser_arr(
                        es.subrange(0, elems@.len() as int),
                    ).len() by {
                        assert(k < es.len() && val_image_at(s@, cur_pre + 1, es[k]));
                        assert(ser(es[k]).len() >= 0);
                        assert(es.subrange(0, k).push(es[k]) =~= es.subrange(0, k + 1));
                        lemma_ser_arr_snoc(es.subrange(0, k), es[k]);
                    }
                }
            } else {
                proof {
                    assert forall|v: JVal| #![trigger ser(v)]
                        val_image_at(s@, i as int, v) implies false by {
                        lemma_val_image_kind(s@, i as int, v);
                        match v {
                            JVal::Arr(es) => {
                                lemma_arr_image_pos(s@, i as int, es, k);
                                if k == es.len() {
                                    assert(es.subrange(0, k) =~= es);
                                }
                            },
                            _ => {},
                        }
                    }
                }
                return None;
            }
        }
        proof {
            assert forall|v: JVal| #![trigger ser(v)]
                val_image_at(s@, i as int, v) implies false by {
                lemma_val_image_kind(s@, i as int, v);
                match v {
                    JVal::Arr(es) => {
                        lemma_arr_image_pos(s@, i as int, es, elems@.len() as int);
                    },
                    _ => {},
                }
            }
        }
        return None;
}

#[verifier::rlimit(100)]
fn parse_object(s: &Vec<char>, i: usize) -> (r: Option<(JsonValue, usize)>)
    requires
        i < s@.len(),
        s@[i as int] == '{',
    ensures
        r matches Some((v, j)) ==> i < j <= s@.len() && ser(v@) == s@.subrange(i as int, j as int),
        forall|v: JVal| #![trigger ser(v)]
            val_image_at(s@, i as int, v) ==> (r matches Some(p) && p.1 == i + ser(v).len()),
    decreases s@.len() - i, 0int,
{
    let slen = s.len();
    proof {
        assert(i < slen);
    }
        if i + 1 < s.len() && s[i + 1] == '}' {
            let members: Vec<(String, JsonValue)> = Vec::new();
            proof {
                assert(jval_obj(members@) =~= Seq::<(Seq<char>, JVal)>::empty());
                assert(s@.subrange(i as int, i as int + 2) =~= seq!['{', '}']);
                assert(ser(jval(JsonValue::Obj(members))) =~= s@.subrange(i as int, i as int + 2));
                assert forall|v: JVal| #![trigger ser(v)]
                    val_image_at(s@, i as int, v) implies i + 2 == i + ser(v).len() by {
                    lemma_val_image_kind(s@, i as int, v);
                    match v {
                        JVal::Obj(ms) => {
                            if ms.len() > 0 {
                                lemma_obj_image_pos(s@, i as int, ms, 0);
                            }
                        },
                        _ => {},
                    }
                }
            }
            return Some((JsonValue::Obj(members), i + 2));
        }
        proof {
            assert forall|ms: Seq<(Seq<char>, JVal)>| #![trigger ser_obj(ms)]
                obj_image_at(s@, i as int, ms) implies (ms.len() > 0 && str_image_at(
                s@,
                i as int + 1,
                ms[0].0,
            ) && s@[i as int + 1] == '"' && s@[i + 3 + ser_str_body(ms[0].0).len() as int] == ':'
                && val_image_at(s@, i + 4 + ser_str_body(ms[0].0).len(), ms[0].1)) by {
                if ms.len() == 0 {
                    assert(ser_obj(ms).len() == 0);
                    assert(s@.subrange(i as int, i as int + 2)[1] == '}');
                } else {
                    lemma_obj_image_pos(s@, i as int, ms, 0);
                    lemma_in_range_obj(ms);
                    assert(s@[i as int + 1] == '"') by {
                        assert(s@.subrange(
                            i as int + 1,
                            i as int + 3 + ser_str_body(ms[0].0).len(),
                        )[0] == (seq!['"'] + ser_str_body(ms[0].0) + seq!['"'])[0]);
                    }
                }
            }
        }
        let mut members: Vec<(String, JsonValue)> = Vec::new();
        let mut cur: usize = i + 1;
        if cur >= s.len() || s[cur] != '"' {
            proof {
                assert forall|v: JVal| #![trigger ser(v)]
                    val_image_at(s@, i as int, v) implies false by {
                    lemma_val_image_kind(s@, i as int, v);
                    match v {
                        JVal::Obj(ms) => {
                            assert(ms.len() > 0 && s@[i as int + 1] == '"');
                        },
                        _ => {},
                    }
                }
            }
            return None;
        }
        let first_key = match parse_string(s, cur) {
            Some(p) => p,
            None => {
                proof {
                    assert forall|v: JVal| #![trigger ser(v)]
                        val_image_at(s@, i as int, v) implies false by {
                        lemma_val_image_kind(s@, i as int, v);
                        match v {
                            JVal::Obj(ms) => {
                                assert(ms.len() > 0 && str_image_at(s@, i as int + 1, ms[0].0));
                                assert(ser_str_body(ms[0].0).len() >= 0);
                            },
                            _ => {},
                        }
                    }
                }
                return None;
            },
        };
        let kend = first_key.1;
        proof {
            assert forall|v: JVal| #![trigger ser(v)]
                val_image_at(s@, i as int, v) implies (v matches JVal::Obj(ms) && ms.len() > 0
                && kend as int == i + 3 + ser_str_body(ms[0].0).len() && s@[kend as int] == ':'
                && val_image_at(s@, kend as int + 1, ms[0].1)) by {
                lemma_val_image_kind(s@, i as int, v);
                match v {
                    JVal::Obj(ms) => {
                        assert(ms.len() > 0 && str_image_at(s@, i as int + 1, ms[0].0));
                        assert(ser_str_body(ms[0].0).len() >= 0);
                    },
                    _ => {},
                }
            }
        }
        if kend >= s.len() || s[kend] != ':' {
            proof {
                assert forall|v: JVal| #![trigger ser(v)]
                    val_image_at(s@, i as int, v) implies false by {
                    lemma_val_image_kind(s@, i as int, v);
                }
            }
            return None;
        }
        let first_val = match parse_value(s, kend + 1) {
            Some(p) => p,
            None => {
                proof {
                    assert forall|v: JVal| #![trigger ser(v)]
                        val_image_at(s@, i as int, v) implies false by {
                        lemma_val_image_kind(s@, i as int, v);
                        match v {
                            JVal::Obj(ms) => {
                                assert(val_image_at(s@, kend as int + 1, ms[0].1));
                                assert(ser(ms[0].1).len() >= 0);
                            },
                            _ => {},
                        }
                    }
                }
                return None;
            },
        };
        let vend = first_val.1;
        proof {
            lemma_jval_obj_push(members@, (first_key.0, first_val.0));
            assert(jval_obj(members@) =~= Seq::<(Seq<char>, JVal)>::empty());
            assert(jval_obj(members@.push((first_key.0, first_val.0))) =~= seq![
                (first_key.0@, jval(first_val.0)),
            ]);
            lemma_subrange_chain(s@, i as int + 1, kend as int, kend as int + 1);
            lemma_subrange_chain(s@, i as int + 1, kend as int + 1, vend as int);
            assert(s@.subrange(kend as int, kend as int + 1) =~= seq![':']);
        }
        members.push((first_key.0, first_val.0));
        let mut cur: usize = vend;
        proof {
            assert(s@.subrange(i as int + 1, cur as int) =~= ser_obj(jval_obj(members@)));
            assert forall|ms: Seq<(Seq<char>, JVal)>| #![trigger ser_obj(ms)]
                obj_image_at(s@, i as int, ms) implies 1 <= members@.len() <= ms.len()
                && cur as int == i + 1 + ser_obj(ms.subrange(0, members@.len() as int)).len() by {
                assert(ms.len() > 0 && str_image_at(s@, i as int + 1, ms[0].0));
                assert(ser_str_body(ms[0].0).len() >= 0);
                assert(val_image_at(s@, i + 4 + ser_str_body(ms[0].0).len(), ms[0].1));
                assert(ser(ms[0].1).len() >= 0);
                assert(ms.subrange(0, 1) =~= seq![ms[0]]);
            }
        }
        while cur < s.len()
            invariant
                i < cur <= s@.len(),
                members@.len() >= 1,
                jval_obj(members@).len() >= 1,
                s@.subrange(i as int + 1, cur as int) == ser_obj(jval_obj(members@)),
                s@[i as int] == '{',
                forall|ms: Seq<(Seq<char>, JVal)>| #![trigger ser_obj(ms)]
                    obj_image_at(s@, i as int, ms) ==> 1 <= members@.len() <= ms.len()
                        && cur as int == i + 1 + ser_obj(
                        ms.subrange(0, members@.len() as int),
                    ).len(),
            decreases s@.len() - cur,
        {
            let ghost k = members@.len() as int;
            let t = s[cur];
            if t == '}' {
                proof {
                    lemma_subrange_chain(s@, i as int, i as int + 1, cur as int + 1);
                    lemma_subrange_chain(s@, i as int + 1, cur as int, cur as int + 1);
                    assert(s@.subrange(i as int, i as int + 1) =~= seq!['{']);
                    assert(s@.subrange(cur as int, cur as int + 1) =~= seq!['}']);
                    assert forall|v: JVal| #![trigger ser(v)]
                        val_image_at(s@, i as int, v) implies cur + 1 == i + ser(v).len() by {
                        lemma_val_image_kind(s@, i as int, v);
                        match v {
                            JVal::Obj(ms) => {
                                if k < ms.len() {
                                    lemma_obj_image_pos(s@, i as int, ms, k);
                                    assert(str_image_at(
                                        s@,
                                        cur as int + 1,
                                        ms[k].0,
                                    ) || s@[cur as int] == ',');
                                }
                                assert(k == ms.len());
                                assert(ms.subrange(0, k) =~= ms);
                            },
                            _ => {},
                        }
                    }
                }
                return Some((JsonValue::Obj(members), cur + 1));
            } else if t == ',' {
                let ghost cur_pre = cur as int;
                proof {
                    assert forall|ms: Seq<(Seq<char>, JVal)>| #![trigger ser_obj(ms)]
                        obj_image_at(s@, i as int, ms) implies (k < ms.len() && str_image_at(
                        s@,
                        cur as int + 1,
                        ms[k].0,
                    ) && s@[cur as int + 1] == '"' && s@[cur + 3 + ser_str_body(
                        ms[k].0,
                    ).len() as int] == ':' && val_image_at(
                        s@,
                        cur + 4 + ser_str_body(ms[k].0).len(),
                        ms[k].1,
                    )) by {
                        if k == ms.len() {
                            lemma_obj_image_pos(s@, i as int, ms, k);
                            assert(ms.subrange(0, k) =~= ms);
                            assert(s@[cur as int] == '}');
                        }
                        assert(k < ms.len());
                        lemma_obj_image_pos(s@, i as int, ms, k);
                        lemma_in_range_obj(ms);
                        assert(s@[cur as int + 1] == '"') by {
                            assert(s@.subrange(
                                cur as int + 1,
                                cur as int + 3 + ser_str_body(ms[k].0).len(),
                            )[0] == (seq!['"'] + ser_str_body(ms[k].0) + seq!['"'])[0]);
                        }
                    }
                }
                if cur + 1 >= s.len() || s[cur + 1] != '"' {
                    proof {
                        assert forall|v: JVal| #![trigger ser(v)]
                            val_image_at(s@, i as int, v) implies false by {
                            lemma_val_image_kind(s@, i as int, v);
                            match v {
                                JVal::Obj(ms) => {
                                    assert(k < ms.len() && s@[cur as int + 1] == '"');
                                    assert(ser_str_body(ms[k].0).len() >= 0);
                                },
                                _ => {},
                            }
                        }
                    }
                    return None;
                }
                let key = match parse_string(s, cur + 1) {
                    Some(p) => p,
                    None => {
                        proof {
                            assert forall|v: JVal| #![trigger ser(v)]
                                val_image_at(s@, i as int, v) implies false by {
                                lemma_val_image_kind(s@, i as int, v);
                                match v {
                                    JVal::Obj(ms) => {
                                        assert(k < ms.len() && str_image_at(
                                            s@,
                                            cur as int + 1,
                                            ms[k].0,
                                        ));
                                        assert(ser_str_body(ms[k].0).len() >= 0);
                                    },
                                    _ => {},
                                }
                            }
                        }
                        return None;
                    },
                };
                let kend2 = key.1;
                proof {
                    assert forall|v: JVal| #![trigger ser(v)]
                        val_image_at(s@, i as int, v) implies (v matches JVal::Obj(ms) && k
                        < ms.len() && kend2 as int == cur + 3 + ser_str_body(ms[k].0).len()
                        && s@[kend2 as int] == ':' && val_image_at(
                        s@,
                        kend2 as int + 1,
                        ms[k].1,
                    )) by {
                        lemma_val_image_kind(s@, i as int, v);
                        match v {
                            JVal::Obj(ms) => {
                                assert(k < ms.len() && str_image_at(s@, cur as int + 1, ms[k].0));
                                assert(ser_str_body(ms[k].0).len() >= 0);
                            },
                            _ => {},
                        }
                    }
                }
                if kend2 >= s.len() || s[kend2] != ':' {
                    proof {
                        assert forall|v: JVal| #![trigger ser(v)]
                            val_image_at(s@, i as int, v) implies false by {
                            lemma_val_image_kind(s@, i as int, v);
                        }
                    }
                    return None;
                }
                let val = match parse_value(s, kend2 + 1) {
                    Some(p) => p,
                    None => {
                        proof {
                            assert forall|v: JVal| #![trigger ser(v)]
                                val_image_at(s@, i as int, v) implies false by {
                                lemma_val_image_kind(s@, i as int, v);
                                match v {
                                    JVal::Obj(ms) => {
                                        assert(val_image_at(s@, kend2 as int + 1, ms[k].1));
                                        assert(ser(ms[k].1).len() >= 0);
                                    },
                                    _ => {},
                                }
                            }
                        }
                        return None;
                    },
                };
                let vend2 = val.1;
                proof {
                    lemma_jval_obj_push(members@, (key.0, val.0));
                    lemma_ser_obj_snoc(jval_obj(members@), key.0@, jval(val.0));
                    lemma_subrange_chain(s@, i as int + 1, cur as int, cur as int + 1);
                    lemma_subrange_chain(s@, i as int + 1, cur as int + 1, kend2 as int);
                    lemma_subrange_chain(s@, i as int + 1, kend2 as int, kend2 as int + 1);
                    lemma_subrange_chain(s@, i as int + 1, kend2 as int + 1, vend2 as int);
                    assert(s@.subrange(cur as int, cur as int + 1) =~= seq![',']);
                    assert(s@.subrange(kend2 as int, kend2 as int + 1) =~= seq![':']);
                }
                members.push((key.0, val.0));
                cur = vend2;
                proof {
                    assert(s@.subrange(i as int + 1, cur as int) =~= ser_obj(jval_obj(members@)));
                    assert forall|ms: Seq<(Seq<char>, JVal)>| #![trigger ser_obj(ms)]
                        obj_image_at(s@, i as int, ms) implies 1 <= members@.len() <= ms.len()
                        && cur as int == i + 1 + ser_obj(
                        ms.subrange(0, members@.len() as int),
                    ).len() by {
                        assert(k < ms.len() && str_image_at(s@, cur_pre + 1, ms[k].0));
                        assert(ser_str_body(ms[k].0).len() >= 0);
                        assert(val_image_at(s@, cur_pre + 4 + ser_str_body(ms[k].0).len(), ms[k].1));
                        assert(ser(ms[k].1).len() >= 0);
                        assert(ms.subrange(0, k).push(ms[k]) =~= ms.subrange(0, k + 1));
                        lemma_ser_obj_snoc(ms.subrange(0, k), ms[k].0, ms[k].1);
                    }
                }
            } else {
                proof {
                    assert forall|v: JVal| #![trigger ser(v)]
                        val_image_at(s@, i as int, v) implies false by {
                        lemma_val_image_kind(s@, i as int, v);
                        match v {
                            JVal::Obj(ms) => {
                                lemma_obj_image_pos(s@, i as int, ms, k);
                                if k == ms.len() {
                                    assert(ms.subrange(0, k) =~= ms);
                                }
                            },
                            _ => {},
                        }
                    }
                }
                return None;
            }
        }
        proof {
            assert forall|v: JVal| #![trigger ser(v)]
                val_image_at(s@, i as int, v) implies false by {
                lemma_val_image_kind(s@, i as int, v);
                match v {
                    JVal::Obj(ms) => {
                        lemma_obj_image_pos(s@, i as int, ms, members@.len() as int);
                    },
                    _ => {},
                }
            }
        }
        return None;
}

#[verifier::rlimit(100)]
fn parse_value(s: &Vec<char>, i: usize) -> (r: Option<(JsonValue, usize)>)
    requires
        i <= s@.len(),
    ensures
        r matches Some((v, j)) ==> i < j <= s@.len() && ser(v@) == s@.subrange(i as int, j as int),
        forall|v: JVal| #![trigger ser(v)]
            val_image_at(s@, i as int, v) ==> (r matches Some(p) && p.1 == i + ser(v).len()),
    decreases s@.len() - i, 1int,
{
    if i >= s.len() {
        proof {
            assert forall|v: JVal| #![trigger ser(v)]
                val_image_at(s@, i as int, v) implies false by {
                lemma_val_image_kind(s@, i as int, v);
            }
        }
        return None;
    }
    let c = s[i];
    if c == 'n' {
        if expect_lit(s, i, 'n', 'u', 'l', 'l') {
            proof {
                assert forall|v: JVal| #![trigger ser(v)]
                    val_image_at(s@, i as int, v) implies i + 4 == i + ser(v).len() by {
                    lemma_val_image_kind(s@, i as int, v);
                }
            }
            return Some((JsonValue::Null, i + 4));
        }
        proof {
            assert forall|v: JVal| #![trigger ser(v)]
                val_image_at(s@, i as int, v) implies false by {
                lemma_val_image_kind(s@, i as int, v);
            }
        }
        return None;
    } else if c == 't' {
        if expect_lit(s, i, 't', 'r', 'u', 'e') {
            proof {
                assert forall|v: JVal| #![trigger ser(v)]
                    val_image_at(s@, i as int, v) implies i + 4 == i + ser(v).len() by {
                    lemma_val_image_kind(s@, i as int, v);
                }
            }
            return Some((JsonValue::Bool(true), i + 4));
        }
        proof {
            assert forall|v: JVal| #![trigger ser(v)]
                val_image_at(s@, i as int, v) implies false by {
                lemma_val_image_kind(s@, i as int, v);
            }
        }
        return None;
    } else if c == 'f' {
        if s.len() - i >= 5 && s[i + 1] == 'a' && s[i + 2] == 'l' && s[i + 3] == 's' && s[i + 4]
            == 'e' {
            proof {
                assert(s@.subrange(i as int, i as int + 5) =~= seq!['f', 'a', 'l', 's', 'e']);
                assert forall|v: JVal| #![trigger ser(v)]
                    val_image_at(s@, i as int, v) implies i + 5 == i + ser(v).len() by {
                    lemma_val_image_kind(s@, i as int, v);
                }
            }
            return Some((JsonValue::Bool(false), i + 5));
        }
        proof {
            assert forall|v: JVal| #![trigger ser(v)]
                val_image_at(s@, i as int, v) implies false by {
                lemma_val_image_kind(s@, i as int, v);
                if v == JVal::Bool(false) {
                    assert(s@[i as int + 1] == 'a' && s@[i as int + 2] == 'l' && s@[i as int + 3]
                        == 's' && s@[i as int + 4] == 'e') by {
                        assert(s@.subrange(i as int, i as int + 5)[1] == 'a');
                        assert(s@.subrange(i as int, i as int + 5)[2] == 'l');
                        assert(s@.subrange(i as int, i as int + 5)[3] == 's');
                        assert(s@.subrange(i as int, i as int + 5)[4] == 'e');
                    }
                }
            }
        }
        return None;
    } else if c == '"' {
        match parse_string(s, i) {
            Some((text, j)) => {
                proof {
                    assert forall|v: JVal| #![trigger ser(v)]
                        val_image_at(s@, i as int, v) implies j == i + ser(v).len() by {
                        lemma_val_image_kind(s@, i as int, v);
                    }
                }
                return Some((JsonValue::Str(text), j));
            },
            None => {
                proof {
                    assert forall|v: JVal| #![trigger ser(v)]
                        val_image_at(s@, i as int, v) implies false by {
                        lemma_val_image_kind(s@, i as int, v);
                    }
                }
                return None;
            },
        }
    } else if c == '-' || c == '0' || c == '1' || c == '2' || c == '3' || c == '4' || c == '5' || c
        == '6' || c == '7' || c == '8' || c == '9' {
        match parse_number(s, i) {
            Some((n, j)) => {
                proof {
                    assert forall|v: JVal| #![trigger ser(v)]
                        val_image_at(s@, i as int, v) implies j == i + ser(v).len() by {
                        lemma_val_image_kind(s@, i as int, v);
                        match v {
                            JVal::Int(nv) => {
                                assert(dec_int(nv) == ser(v));
                            },
                            _ => {},
                        }
                    }
                }
                return Some((JsonValue::Int(n), j));
            },
            None => {
                proof {
                    assert forall|v: JVal| #![trigger ser(v)]
                        val_image_at(s@, i as int, v) implies false by {
                        lemma_val_image_kind(s@, i as int, v);
                        match v {
                            JVal::Int(nv) => {
                                assert(dec_int(nv) == ser(v));
                            },
                            _ => {},
                        }
                    }
                }
                return None;
            },
        }
    } else if c == '[' {
        return parse_array(s, i);
    } else if c == '{' {
        return parse_object(s, i);
    } else {
        proof {
            assert forall|v: JVal| #![trigger ser(v)]
                val_image_at(s@, i as int, v) implies false by {
                lemma_val_image_kind(s@, i as int, v);
            }
        }
        return None;
    }
}

/// Parses the library's JSON text format.  A parse succeeds on exactly
/// the texts that `ser` produces: `from_chars(s) == Some(v)` implies
/// `ser(v@) == s@`, and a `None` means no in-range value serializes to
/// the text.
pub fn from_chars(s: &Vec<char>) -> (r: Option<JsonValue>)
    ensures
        r matches Some(v) ==> ser(v@) == s@,
        r is None ==> forall|v: JVal| #![trigger ser(v)] jval_in_range(v) ==> ser(v) != s@,
{
    proof {
        assert forall|v: JVal| #![trigger ser(v)]
            jval_in_range(v) && ser(v) == s@ implies val_image_at(s@, 0, v) by {
            assert(s@.subrange(0, s@.len() as int) =~= s@);
        }
    }
    match parse_value(s, 0) {
        Some((v, j)) => {
            if j == s.len() {
                proof {
                    assert(s@.subrange(0, s@.len() as int) =~= s@);
                }
                Some(v)
            } else {
                None
            }
        },
        None => None,
    }
}

} // verus!
