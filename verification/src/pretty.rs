//! Pretty-printing: a specification-level serializer `ser` (two-space
//! indentation, one element or member per line, keys in insertion order) and
//! an executable printer proved to produce exactly `ser`.

use vstd::prelude::*;

use crate::value::{jv_fields_of, jv_of, jv_seq_of, lemma_jv_fields_of, lemma_jv_seq_of, Jv,
    JsonValue};

verus! {

/// A run of `n` spaces.
pub open spec fn spaces(n: nat) -> Seq<char>
    decreases n,
{
    if n == 0 {
        Seq::empty()
    } else {
        spaces((n - 1) as nat).push(' ')
    }
}

pub open spec fn all_spaces(s: Seq<char>) -> bool {
    forall|i: int| 0 <= i < s.len() ==> s[i] == ' '
}

pub proof fn lemma_spaces_is(s: Seq<char>)
    requires
        all_spaces(s),
    ensures
        s == spaces(s.len()),
    decreases s.len(),
{
    if s.len() > 0 {
        lemma_spaces_is(s.drop_last());
        assert(s =~= s.drop_last().push(' '));
    }
}

/// The hexadecimal digit for `n < 16`.
pub open spec fn hex_digit(n: nat) -> char {
    if n == 0 {
        '0'
    } else if n == 1 {
        '1'
    } else if n == 2 {
        '2'
    } else if n == 3 {
        '3'
    } else if n == 4 {
        '4'
    } else if n == 5 {
        '5'
    } else if n == 6 {
        '6'
    } else if n == 7 {
        '7'
    } else if n == 8 {
        '8'
    } else if n == 9 {
        '9'
    } else if n == 10 {
        'a'
    } else if n == 11 {
        'b'
    } else if n == 12 {
        'c'
    } else if n == 13 {
        'd'
    } else if n == 14 {
        'e'
    } else {
        'f'
    }
}

/// The escape of one string character: the two-character escapes for quote,
/// backslash and the common control characters, a `\u00XX` escape for the
/// remaining control characters, and the character itself otherwise.
pub open spec fn esc_char(c: char) -> Seq<char> {
    if c == '"' {
        seq!['\\', '"']
    } else if c == '\\' {
        seq!['\\', '\\']
    } else if c == '\n' {
        seq!['\\', 'n']
    } else if c == '\r' {
        seq!['\\', 'r']
    } else if c == '\t' {
        seq!['\\', 't']
    } else if (c as u32) < 32 {
        seq!['\\', 'u', '0', '0', hex_digit((c as u32 / 16) as nat), hex_digit(
            (c as u32 % 16) as nat,
        )]
    } else {
        seq![c]
    }
}

/// The escaped body of a string literal.
pub open spec fn esc(s: Seq<char>) -> Seq<char>
    decreases s.len(),
{
    if s.len() == 0 {
        Seq::empty()
    } else {
        esc_char(s[0]) + esc(s.drop_first())
    }
}

pub proof fn lemma_esc_push(s: Seq<char>, c: char)
    ensures
        esc(s.push(c)) == esc(s) + esc_char(c),
    decreases s.len(),
{
    if s.len() == 0 {
        assert(s.push(c)[0] == c);
        assert(s.push(c).drop_first() =~= Seq::<char>::empty());
        assert(esc(Seq::<char>::empty()) == Seq::<char>::empty());
        assert(esc(s.push(c)) =~= esc(s) + esc_char(c));
    } else {
        assert(s.push(c).drop_first() =~= s.drop_first().push(c));
        lemma_esc_push(s.drop_first(), c);
        assert(esc(s.push(c)) =~= esc(s) + esc_char(c));
    }
}

/// The serialized form of a JSON value at indentation `ind`.
pub open spec fn ser(v: Jv, ind: nat) -> Seq<char>
    decreases v, 0int,
{
    match v {
        Jv::Null => seq!['n', 'u', 'l', 'l'],
        Jv::Bool(b) => if b {
            seq!['t', 'r', 'u', 'e']
        } else {
            seq!['f', 'a', 'l', 's', 'e']
        },
        Jv::Num(lex) => lex,
        Jv::Str(s) => seq!['"'] + esc(s) + seq!['"'],
        Jv::Arr(items) => if items.len() == 0 {
            seq!['[', ']']
        } else {
            seq!['[', '\n'] + spaces(ind + 2) + ser(items[0], ind + 2) + ser_items_rest(
                items.drop_first(),
                ind + 2,
            ) + seq!['\n'] + spaces(ind) + seq![']']
        },
        Jv::Obj(fields) => if fields.len() == 0 {
            seq!['{', '}']
        } else {
            seq!['{', '\n'] + spaces(ind + 2) + ser_field(fields[0].0, fields[0].1, ind + 2)
                + ser_fields_rest(fields.drop_first(), ind + 2) + seq!['\n'] + spaces(ind) + seq![
                '}',
            ]
        },
    }
}

/// One object member: quoted escaped key, a colon and a space, the value.
pub open spec fn ser_field(k: Seq<char>, v: Jv, ind: nat) -> Seq<char>
    decreases v, 1int,
{
    seq!['"'] + esc(k) + seq!['"', ':', ' '] + ser(v, ind)
}

/// Every array element after the first, each preceded by a comma, a newline
/// and its indentation.
pub open spec fn ser_items_rest(items: Seq<Jv>, ind: nat) -> Seq<char>
    decreases items, 1int,
{
    if items.len() == 0 {
        Seq::empty()
    } else {
        seq![',', '\n'] + spaces(ind) + ser(items[0], ind) + ser_items_rest(
            items.drop_first(),
            ind,
        )
    }
}

/// Every object member after the first, each preceded by a comma, a newline
/// and its indentation.
pub open spec fn ser_fields_rest(fields: Seq<(Seq<char>, Jv)>, ind: nat) -> Seq<char>
    decreases fields, 2int,
{
    if fields.len() == 0 {
        Seq::empty()
    } else {
        seq![',', '\n'] + spaces(ind) + ser_field(fields[0].0, fields[0].1, ind)
            + ser_fields_rest(fields.drop_first(), ind)
    }
}

pub proof fn lemma_ser_items_rest_push(items: Seq<Jv>, x: Jv, ind: nat)
    ensures
        ser_items_rest(items.push(x), ind) == ser_items_rest(items, ind) + seq![',', '\n']
            + spaces(ind) + ser(x, ind),
    decreases items.len(),
{
    if items.len() == 0 {
        assert(items.push(x)[0] == x);
        assert(items.push(x).drop_first() =~= Seq::<Jv>::empty());
        assert(ser_items_rest(Seq::<Jv>::empty(), ind) == Seq::<char>::empty());
        assert(ser_items_rest(items.push(x), ind) =~= ser_items_rest(items, ind) + seq![',', '\n']
            + spaces(ind) + ser(x, ind));
    } else {
        assert(items.push(x).drop_first() =~= items.drop_first().push(x));
        lemma_ser_items_rest_push(items.drop_first(), x, ind);
        assert(ser_items_rest(items.push(x), ind) =~= ser_items_rest(items, ind) + seq![',', '\n']
            + spaces(ind) + ser(x, ind));
    }
}

pub proof fn lemma_ser_fields_rest_push(fields: Seq<(Seq<char>, Jv)>, k: Seq<char>, x: Jv, ind: nat)
    ensures
        ser_fields_rest(fields.push((k, x)), ind) == ser_fields_rest(fields, ind) + seq![',', '\n']
            + spaces(ind) + ser_field(k, x, ind),
    decreases fields.len(),
{
    if fields.len() == 0 {
        assert(fields.push((k, x))[0] == (k, x));
        assert(fields.push((k, x)).drop_first() =~= Seq::<(Seq<char>, Jv)>::empty());
        assert(ser_fields_rest(Seq::<(Seq<char>, Jv)>::empty(), ind) == Seq::<char>::empty());
        assert(ser_fields_rest(fields.push((k, x)), ind) =~= ser_fields_rest(fields, ind) + seq![
            ',',
            '\n',
        ] + spaces(ind) + ser_field(k, x, ind));
    } else {
        assert(fields.push((k, x)).drop_first() =~= fields.drop_first().push((k, x)));
        lemma_ser_fields_rest_push(fields.drop_first(), k, x, ind);
        assert(ser_fields_rest(fields.push((k, x)), ind) =~= ser_fields_rest(fields, ind) + seq![
            ',',
            '\n',
        ] + spaces(ind) + ser_field(k, x, ind));
    }
}

/// Relies on `core::iter::Iterator::collect` for `String`: collecting
/// characters yields the string of exactly those characters, in order.
#[verifier::external_body]
pub fn chars_to_string(v: &Vec<char>) -> (r: String)
    ensures
        r@ == v@,
{
    v.iter().collect()
}

/// The characters of a string slice, in order.
pub fn str_to_chars(s: &str) -> (r: Vec<char>)
    ensures
        r@ == s@,
{
    let n: usize = s.unicode_len();
    let mut r: Vec<char> = Vec::new();
    let mut i: usize = 0;
    while i < n
        invariant
            n == s@.len(),
            i <= n,
            r@ == s@.take(i as int),
        decreases n - i,
    {
        r.push(s.get_char(i));
        i = i + 1;
        proof {
            assert(r@ =~= s@.take(i as int));
        }
    }
    proof {
        assert(s@.take(n as int) =~= s@);
    }
    r
}

/// Append every character of `s` to `out`.
pub fn push_all(out: &mut Vec<char>, s: &Vec<char>)
    ensures
        final(out)@ == old(out)@ + s@,
{
    let mut i: usize = 0;
    while i < s.len()
        invariant
            i <= s@.len(),
            out@ == old(out)@ + s@.take(i as int),
        decreases s@.len() - i,
    {
        out.push(s[i]);
        i = i + 1;
        proof {
            assert(old(out)@ + s@.take(i as int) =~= (old(out)@ + s@.take(i - 1)).push(
                s@[i - 1],
            ));
        }
    }
    proof {
        assert(old(out)@ + s@.take(s@.len() as int) =~= old(out)@ + s@);
    }
}

/// Append every character of the string `s` to `out`.
pub fn push_string(out: &mut Vec<char>, s: &String)
    ensures
        final(out)@ == old(out)@ + s@,
{
    let n: usize = s.as_str().unicode_len();
    let mut i: usize = 0;
    while i < n
        invariant
            n == s@.len(),
            i <= n,
            out@ == old(out)@ + s@.take(i as int),
        decreases n - i,
    {
        out.push(s.as_str().get_char(i));
        i = i + 1;
        proof {
            assert(old(out)@ + s@.take(i as int) =~= (old(out)@ + s@.take(i - 1)).push(
                s@[i - 1],
            ));
        }
    }
    proof {
        assert(old(out)@ + s@.take(n as int) =~= old(out)@ + s@);
    }
}

/// Append the escaped body of `s` to `out`.
fn push_escaped(out: &mut Vec<char>, s: &String)
    ensures
        final(out)@ == old(out)@ + esc(s@),
{
    let n: usize = s.as_str().unicode_len();
    let mut i: usize = 0;
    proof {
        assert(s@.take(0) =~= Seq::<char>::empty());
    }
    while i < n
        invariant
            n == s@.len(),
            i <= n,
            out@ == old(out)@ + esc(s@.take(i as int)),
        decreases n - i,
    {
        let c = s.as_str().get_char(i);
        if c == '"' {
            out.push('\\');
            out.push('"');
        } else if c == '\\' {
            out.push('\\');
            out.push('\\');
        } else if c == '\n' {
            out.push('\\');
            out.push('n');
        } else if c == '\r' {
            out.push('\\');
            out.push('r');
        } else if c == '\t' {
            out.push('\\');
            out.push('t');
        } else if (c as u32) < 32 {
            let code: u32 = c as u32;
            out.push('\\');
            out.push('u');
            out.push('0');
            out.push('0');
            out.push(hex_digit_exec(code / 16));
            out.push(hex_digit_exec(code % 16));
        } else {
            out.push(c);
        }
        proof {
            assert(out@ =~= old(out)@ + (esc(s@.take(i as int)) + esc_char(s@[i as int])));
        }
        i = i + 1;
        proof {
            lemma_esc_push(s@.take(i - 1), s@[i - 1]);
            assert(s@.take(i as int) =~= s@.take(i - 1).push(s@[i - 1]));
        }
    }
    proof {
        assert(s@.take(n as int) =~= s@);
    }
}

/// The hexadecimal digit character for `n < 16`.
pub fn hex_digit_exec(n: u32) -> (r: char)
    requires
        n < 16,
    ensures
        r == hex_digit(n as nat),
{
    if n == 0 {
        '0'
    } else if n == 1 {
        '1'
    } else if n == 2 {
        '2'
    } else if n == 3 {
        '3'
    } else if n == 4 {
        '4'
    } else if n == 5 {
        '5'
    } else if n == 6 {
        '6'
    } else if n == 7 {
        '7'
    } else if n == 8 {
        '8'
    } else if n == 9 {
        '9'
    } else if n == 10 {
        'a'
    } else if n == 11 {
        'b'
    } else if n == 12 {
        'c'
    } else if n == 13 {
        'd'
    } else if n == 14 {
        'e'
    } else {
        'f'
    }
}

/// Write `ser(v@, indent@.len())` to `out`, keeping `indent` as it was.
fn write_value(v: &JsonValue, indent: &mut Vec<char>, out: &mut Vec<char>)
    requires
        all_spaces(old(indent)@),
    ensures
        final(indent)@ == old(indent)@,
        final(out)@ == old(out)@ + ser(v@, old(indent)@.len()),
    decreases v, 0int,
{
    proof {
        lemma_spaces_is(indent@);
    }
    match v {
        JsonValue::Null => {
            out.push('n');
            out.push('u');
            out.push('l');
            out.push('l');
            proof {
                assert(out@ =~= old(out)@ + ser(v@, old(indent)@.len()));
            }
        },
        JsonValue::Bool(b) => {
            if *b {
                out.push('t');
                out.push('r');
                out.push('u');
                out.push('e');
            } else {
                out.push('f');
                out.push('a');
                out.push('l');
                out.push('s');
                out.push('e');
            }
            proof {
                assert(out@ =~= old(out)@ + ser(v@, old(indent)@.len()));
            }
        },
        JsonValue::Num(lex) => {
            push_string(out, lex);
        },
        JsonValue::Str(s) => {
            out.push('"');
            push_escaped(out, s);
            out.push('"');
            proof {
                assert(out@ =~= old(out)@ + ser(v@, old(indent)@.len()));
            }
        },
        JsonValue::Arr(items) => {
            write_array(items, indent, out);
            proof {
                assert(v@ == Jv::Arr(jv_seq_of(items@)));
            }
        },
        JsonValue::Obj(fields) => {
            write_object(fields, indent, out);
            proof {
                assert(v@ == Jv::Obj(jv_fields_of(fields@)));
            }
        },
    }
}

/// Write a serialized array to `out`.
fn write_array(items: &Vec<JsonValue>, indent: &mut Vec<char>, out: &mut Vec<char>)
    requires
        all_spaces(old(indent)@),
    ensures
        final(indent)@ == old(indent)@,
        final(out)@ == old(out)@ + ser(Jv::Arr(jv_seq_of(items@)), old(indent)@.len()),
    decreases items, 1int,
{
    proof {
        lemma_spaces_is(indent@);
        lemma_jv_seq_of(items@);
    }
    let ghost jvs = jv_seq_of(items@);
    let ghost ind = indent@.len();
    if items.len() == 0 {
        out.push('[');
        out.push(']');
        proof {
            assert(out@ =~= old(out)@ + ser(Jv::Arr(jvs), ind));
        }
        return ;
    }
    out.push('[');
    out.push('\n');
    indent.push(' ');
    indent.push(' ');
    proof {
        lemma_spaces_is(indent@);
        assert(indent@.len() == ind + 2);
    }
    push_all(out, indent);
    write_value(&items[0], indent, out);
    let ghost head = old(out)@ + seq!['[', '\n'] + spaces(ind + 2) + ser(jvs[0], ind + 2);
    proof {
        assert(out@ =~= head);
    }
    let mut i: usize = 1;
    while i < items.len()
        invariant
            all_spaces(indent@),
            indent@.len() == ind + 2,
            1 <= i <= items@.len(),
            jvs == jv_seq_of(items@),
            jvs.len() == items@.len(),
            forall|j: int| 0 <= j < items@.len() ==> jvs[j] == jv_of(#[trigger] items@[j]),
            head == old(out)@ + seq!['[', '\n'] + spaces(ind + 2) + ser(jvs[0], ind + 2),
            out@ == head + ser_items_rest(jvs.subrange(1, i as int), ind + 2),
        decreases items@.len() - i,
    {
        out.push(',');
        out.push('\n');
        push_all(out, indent);
        proof {
            lemma_spaces_is(indent@);
        }
        write_value(&items[i], indent, out);
        i = i + 1;
        proof {
            lemma_ser_items_rest_push(jvs.subrange(1, i - 1), jvs[i - 1], ind + 2);
            assert(jvs.subrange(1, i as int) =~= jvs.subrange(1, i - 1).push(jvs[i - 1]));
            assert(out@ =~= head + ser_items_rest(jvs.subrange(1, i as int), ind + 2));
        }
    }
    indent.pop();
    indent.pop();
    proof {
        assert(indent@ =~= old(indent)@);
    }
    out.push('\n');
    push_all(out, indent);
    out.push(']');
    proof {
        assert(jvs.subrange(1, jvs.len() as int) =~= jvs.drop_first());
        assert(out@ =~= old(out)@ + ser(Jv::Arr(jvs), ind));
    }
}

/// Write a serialized object to `out`.
fn write_object(fields: &Vec<(String, JsonValue)>, indent: &mut Vec<char>, out: &mut Vec<char>)
    requires
        all_spaces(old(indent)@),
    ensures
        final(indent)@ == old(indent)@,
        final(out)@ == old(out)@ + ser(Jv::Obj(jv_fields_of(fields@)), old(indent)@.len()),
    decreases fields, 1int,
{
    proof {
        lemma_spaces_is(indent@);
        lemma_jv_fields_of(fields@);
    }
    let ghost jfs = jv_fields_of(fields@);
    let ghost ind = indent@.len();
    if fields.len() == 0 {
        out.push('{');
        out.push('}');
        proof {
            assert(out@ =~= old(out)@ + ser(Jv::Obj(jfs), ind));
        }
        return ;
    }
    out.push('{');
    out.push('\n');
    indent.push(' ');
    indent.push(' ');
    proof {
        lemma_spaces_is(indent@);
        assert(indent@.len() == ind + 2);
    }
    push_all(out, indent);
    write_member(&fields[0].0, &fields[0].1, indent, out);
    let ghost head = old(out)@ + seq!['{', '\n'] + spaces(ind + 2) + ser_field(
        jfs[0].0,
        jfs[0].1,
        ind + 2,
    );
    proof {
        assert(out@ =~= head);
    }
    let mut i: usize = 1;
    while i < fields.len()
        invariant
            all_spaces(indent@),
            indent@.len() == ind + 2,
            1 <= i <= fields@.len(),
            jfs == jv_fields_of(fields@),
            jfs.len() == fields@.len(),
            forall|j: int|
                0 <= j < fields@.len() ==> jfs[j] == (
                    #[trigger] fields@[j].0@,
                    jv_of(fields@[j].1),
                ),
            head == old(out)@ + seq!['{', '\n'] + spaces(ind + 2) + ser_field(
                jfs[0].0,
                jfs[0].1,
                ind + 2,
            ),
            out@ == head + ser_fields_rest(jfs.subrange(1, i as int), ind + 2),
        decreases fields@.len() - i,
    {
        out.push(',');
        out.push('\n');
        push_all(out, indent);
        proof {
            lemma_spaces_is(indent@);
        }
        write_member(&fields[i].0, &fields[i].1, indent, out);
        i = i + 1;
        proof {
            lemma_ser_fields_rest_push(
                jfs.subrange(1, i - 1),
                jfs[i - 1].0,
                jfs[i - 1].1,
                ind + 2,
            );
            assert(jfs.subrange(1, i as int) =~= jfs.subrange(1, i - 1).push(jfs[i - 1]));
            assert(out@ =~= head + ser_fields_rest(jfs.subrange(1, i as int), ind + 2));
        }
    }
    indent.pop();
    indent.pop();
    proof {
        assert(indent@ =~= old(indent)@);
    }
    out.push('\n');
    push_all(out, indent);
    out.push('}');
    proof {
        assert(jfs.subrange(1, jfs.len() as int) =~= jfs.drop_first());
        assert(out@ =~= old(out)@ + ser(Jv::Obj(jfs), ind));
    }
}

/// Write one serialized object member to `out`.
fn write_member(k: &String, v: &JsonValue, indent: &mut Vec<char>, out: &mut Vec<char>)
    requires
        all_spaces(old(indent)@),
    ensures
        final(indent)@ == old(indent)@,
        final(out)@ == old(out)@ + ser_field(k@, v@, old(indent)@.len()),
    decreases v, 2int,
{
    out.push('"');
    push_escaped(out, k);
    out.push('"');
    out.push(':');
    out.push(' ');
    write_value(v, indent, out);
    proof {
        assert(out@ =~= old(out)@ + ser_field(k@, v@, old(indent)@.len()));
    }
}

/// The pretty-printed text of a value: exactly `ser(v@, 0)`.
pub fn to_pretty(v: &JsonValue) -> (r: String)
    ensures
        r@ == ser(v@, 0),
{
    let mut indent: Vec<char> = Vec::new();
    let mut out: Vec<char> = Vec::new();
    write_value(v, &mut indent, &mut out);
    proof {
        assert(out@ =~= ser(v@, 0));
    }
    chars_to_string(&out)
}

} // verus!
