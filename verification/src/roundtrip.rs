//! The round-trip law: pretty-printing any well-formed value and parsing
//! the text back yields the value itself.

use vstd::prelude::*;

use crate::parse::{char_of, hex_val, is_hex, is_num_char, is_ws, num_len, parse_doc,
    parse_elems, parse_members, parse_string_body, parse_value, skip_ws, wf, wf_fields, wf_seq};
use crate::pretty::{esc, esc_char, hex_digit, ser, ser_field, ser_fields_rest, ser_items_rest,
    spaces};
use crate::value::Jv;

verus! {

pub proof fn lemma_skip_ws_len(s: Seq<char>)
    ensures
        skip_ws(s).len() <= s.len(),
    decreases s.len(),
{
    if s.len() > 0 && is_ws(s[0]) {
        lemma_skip_ws_len(s.drop_first());
    }
}

pub proof fn lemma_skip_ws_idem(s: Seq<char>)
    ensures
        skip_ws(skip_ws(s)) == skip_ws(s),
    decreases s.len(),
{
    if s.len() > 0 && is_ws(s[0]) {
        lemma_skip_ws_idem(s.drop_first());
    }
}

/// Leading whitespace is invisible to `skip_ws`.
pub proof fn lemma_skip_ws_prefix(p: Seq<char>, s: Seq<char>)
    requires
        forall|i: int| 0 <= i < p.len() ==> is_ws(p[i]),
    ensures
        skip_ws(p + s) == skip_ws(s),
    decreases p.len(),
{
    if p.len() == 0 {
        assert(p + s =~= s);
    } else {
        assert((p + s)[0] == p[0]);
        assert((p + s).drop_first() =~= p.drop_first() + s);
        lemma_skip_ws_prefix(p.drop_first(), s);
    }
}

pub proof fn lemma_spaces_all_ws(n: nat)
    ensures
        forall|i: int| 0 <= i < spaces(n).len() ==> is_ws(#[trigger] spaces(n)[i]),
        spaces(n).len() == n,
    decreases n,
{
    if n > 0 {
        lemma_spaces_all_ws((n - 1) as nat);
    }
}

/// Serialized values are never empty and never begin with whitespace, a
/// closing bracket, a closing brace or a comma.
pub proof fn lemma_ser_first(v: Jv, ind: nat)
    requires
        wf(v),
    ensures
        ser(v, ind).len() > 0,
        !is_ws(ser(v, ind)[0]),
        ser(v, ind)[0] != ']',
        ser(v, ind)[0] != '}',
        ser(v, ind)[0] != ',',
{
    match v {
        Jv::Num(lex) => {
            assert(ser(v, ind) == lex);
            assert(is_num_char(lex[0]));
        },
        Jv::Str(s) => {
            assert(ser(v, ind)[0] == '"');
        },
        Jv::Arr(items) => {
            assert(ser(v, ind)[0] == '[');
        },
        Jv::Obj(fields) => {
            assert(ser(v, ind)[0] == '{');
        },
        _ => {},
    }
}

/// A maximal run of number characters followed by something else is read
/// back with exactly its own length.
pub proof fn lemma_num_len_concat(lex: Seq<char>, rest: Seq<char>)
    requires
        forall|i: int| 0 <= i < lex.len() ==> is_num_char(lex[i]),
        rest.len() == 0 || !is_num_char(rest[0]),
    ensures
        num_len(lex + rest) == lex.len(),
    decreases lex.len(),
{
    if lex.len() == 0 {
        assert(lex + rest =~= rest);
    } else {
        assert((lex + rest)[0] == lex[0]);
        assert((lex + rest).drop_first() =~= lex.drop_first() + rest);
        lemma_num_len_concat(lex.drop_first(), rest);
    }
}

pub proof fn lemma_hex_digit(n: nat)
    requires
        n < 16,
    ensures
        is_hex(hex_digit(n)),
        hex_val(hex_digit(n)) == n,
{
}

/// Escaping a character sequence and parsing it back, up to a closing
/// quote, recovers the sequence and what follows the quote.
pub proof fn lemma_unesc_esc(cs: Seq<char>, rest: Seq<char>)
    ensures
        parse_string_body(esc(cs) + seq!['"'] + rest) == Some((cs, rest)),
    decreases cs.len(),
{
    if cs.len() == 0 {
        let s = esc(cs) + seq!['"'] + rest;
        assert(s =~= seq!['"'] + rest);
        assert(s[0] == '"');
        assert(s.drop_first() =~= rest);
    } else {
        let c0 = cs[0];
        let tailtext = esc(cs.drop_first()) + seq!['"'] + rest;
        let s = esc(cs) + seq!['"'] + rest;
        assert(s =~= esc_char(c0) + tailtext);
        lemma_unesc_esc(cs.drop_first(), rest);
        assert(seq![c0] + cs.drop_first() =~= cs);
        if c0 == '"' || c0 == '\\' || c0 == '\n' || c0 == '\r' || c0 == '\t' {
            assert(s[0] == '\\');
            assert(s[1] == esc_char(c0)[1]);
            assert(s.len() >= 2);
            assert(s.skip(2) =~= tailtext);
        } else if (c0 as u32) < 32 {
            let code = c0 as u32;
            assert(esc_char(c0) == seq!['\\', 'u', '0', '0', hex_digit((code / 16) as nat),
                hex_digit((code % 16) as nat)]);
            assert(s[0] == '\\' && s[1] == 'u' && s[2] == '0' && s[3] == '0');
            assert(s[4] == hex_digit((code / 16) as nat));
            assert(s[5] == hex_digit((code % 16) as nat));
            assert(s.len() >= 6);
            lemma_hex_digit((code / 16) as nat);
            lemma_hex_digit((code % 16) as nat);
            assert(is_hex(s[2]) && is_hex(s[3]) && is_hex(s[4]) && is_hex(s[5]));
            let u = hex_val(s[2]) * 4096 + hex_val(s[3]) * 256 + hex_val(s[4]) * 16 + hex_val(
                s[5],
            );
            assert(u == (code / 16) * 16 + (code % 16));
            assert(u == code);
            vstd::utf8::char_u32_cast(c0, code);
            assert(char_of(u) == c0);
            assert(s.skip(6) =~= tailtext);
        } else {
            assert(esc_char(c0) == seq![c0]);
            assert(s[0] == c0);
            assert(s.drop_first() =~= tailtext);
        }
    }
}

/// Leading whitespace does not change what a value parses to.
pub proof fn lemma_parse_value_skip(u: Seq<char>)
    ensures
        parse_value(u) == parse_value(skip_ws(u)),
{
    let t = skip_ws(u);
    lemma_skip_ws_idem(u);
    lemma_skip_ws_len(u);
    if t.len() > 0 {
        if t[0] == '[' || t[0] == '{' {
            assert(t.drop_first().len() < t.len());
            assert(t.drop_first().len() < u.len());
        }
    }
}

/// Parsing the serialization of a well-formed value, with anything that
/// cannot extend a number literal after it, yields the value and the rest.
#[verifier::rlimit(100)]
#[verifier::spinoff_prover]
pub proof fn lemma_parse_ser(v: Jv, ind: nat, rest: Seq<char>)
    requires
        wf(v),
        rest.len() == 0 || !is_num_char(rest[0]),
    ensures
        parse_value(ser(v, ind) + rest) == Some((v, rest)),
    decreases v, 2int,
{
    if v is Arr {
        lemma_parse_ser_arr(v, ind, rest);
        return ;
    }
    if v is Obj {
        lemma_parse_ser_obj(v, ind, rest);
        return ;
    }
    let s = ser(v, ind) + rest;
    lemma_ser_first(v, ind);
    assert(s[0] == ser(v, ind)[0]);
    assert(skip_ws(s) == s);
    match v {
        Jv::Null => {
            assert(s.take(4) =~= seq!['n', 'u', 'l', 'l']);
            assert(s.skip(4) =~= rest);
        },
        Jv::Bool(b) => {
            if b {
                assert(s.take(4) =~= seq!['t', 'r', 'u', 'e']);
                assert(s.skip(4) =~= rest);
            } else {
                assert(s.take(5) =~= seq!['f', 'a', 'l', 's', 'e']);
                assert(s.skip(5) =~= rest);
            }
        },
        Jv::Num(lex) => {
            assert(s =~= lex + rest);
            lemma_num_len_concat(lex, rest);
            assert(s[0] == lex[0] && is_num_char(lex[0]));
            assert(num_len(s) == lex.len());
            assert(s.take(lex.len() as int) =~= lex);
            assert(s.skip(lex.len() as int) =~= rest);
        },
        Jv::Str(cs) => {
            assert(s.drop_first() =~= esc(cs) + seq!['"'] + rest);
            lemma_unesc_esc(cs, rest);
        },
        _ => {},
    }
}

/// The array case of `lemma_parse_ser`.
#[verifier::rlimit(100)]
#[verifier::spinoff_prover]
proof fn lemma_parse_ser_arr(v: Jv, ind: nat, rest: Seq<char>)
    requires
        wf(v),
        v is Arr,
        rest.len() == 0 || !is_num_char(rest[0]),
    ensures
        parse_value(ser(v, ind) + rest) == Some((v, rest)),
    decreases v, 1int,
{
    let items = v->Arr_0;
    assert(v == Jv::Arr(items));
    let s = ser(v, ind) + rest;
    lemma_ser_first(v, ind);
    assert(s[0] == ser(v, ind)[0]);
    assert(skip_ws(s) == s);
    if items.len() == 0 {
        assert(s =~= seq!['[', ']'] + rest);
        let u = s.drop_first();
        assert(u =~= seq![']'] + rest);
        assert(u[0] == ']');
        assert(skip_ws(u) == u);
        assert(u.drop_first() =~= rest);
        assert(items =~= Seq::<Jv>::empty());
        assert(parse_value(s) == Some((Jv::Arr(Seq::<Jv>::empty()), rest)));
    } else {
        let u = s.drop_first();
        let inner = ser_items_rest(items.drop_first(), ind + 2);
        let tail = seq!['\n'] + spaces(ind) + seq![']'] + rest;
        assert(u =~= seq!['\n'] + spaces(ind + 2) + ser(items[0], ind + 2) + inner + tail);
        lemma_spaces_all_ws(ind);
        assert(skip_ws(tail) =~= seq![']'] + rest) by {
            assert(tail =~= (seq!['\n'] + spaces(ind)) + (seq![']'] + rest));
            assert(forall|i: int|
                0 <= i < (seq!['\n'] + spaces(ind)).len() ==> is_ws(
                    #[trigger] (seq!['\n'] + spaces(ind))[i],
                ));
            lemma_skip_ws_prefix(seq!['\n'] + spaces(ind), seq![']'] + rest);
            assert(!is_ws(']'));
            assert((seq![']'] + rest)[0] == ']');
        }
        assert(wf_seq(items));
        assert(wf(items[0]));
        lemma_parse_elems_ser(items, ind + 2, tail, rest);
        // the empty-array branch is not taken: after the whitespace comes
        // the first element, which does not begin with `]`
        let w0 = skip_ws(u);
        lemma_spaces_all_ws(ind + 2);
        assert(u =~= (seq!['\n'] + spaces(ind + 2)) + (ser(items[0], ind + 2) + (inner
            + tail)));
        assert(forall|i: int|
            0 <= i < (seq!['\n'] + spaces(ind + 2)).len() ==> is_ws(
                #[trigger] (seq!['\n'] + spaces(ind + 2))[i],
            ));
        lemma_skip_ws_prefix(
            seq!['\n'] + spaces(ind + 2),
            ser(items[0], ind + 2) + (inner + tail),
        );
        lemma_ser_first(items[0], ind + 2);
        assert((ser(items[0], ind + 2) + (inner + tail))[0] == ser(items[0], ind + 2)[0]);
        assert(skip_ws(ser(items[0], ind + 2) + (inner + tail)) == ser(items[0], ind + 2) + (inner
            + tail));
        assert(w0.len() > 0 && w0[0] != ']');
        assert(u.len() < s.len());
        assert(parse_elems(u) == Some((items, rest)));
        assert(parse_value(s) == Some((Jv::Arr(items), rest)));
    }
}

/// The object case of `lemma_parse_ser`.
#[verifier::rlimit(100)]
#[verifier::spinoff_prover]
proof fn lemma_parse_ser_obj(v: Jv, ind: nat, rest: Seq<char>)
    requires
        wf(v),
        v is Obj,
        rest.len() == 0 || !is_num_char(rest[0]),
    ensures
        parse_value(ser(v, ind) + rest) == Some((v, rest)),
    decreases v, 1int,
{
    let fields = v->Obj_0;
    assert(v == Jv::Obj(fields));
    let s = ser(v, ind) + rest;
    lemma_ser_first(v, ind);
    assert(s[0] == ser(v, ind)[0]);
    assert(skip_ws(s) == s);
    if fields.len() == 0 {
        assert(s =~= seq!['{', '}'] + rest);
        let u = s.drop_first();
        assert(u =~= seq!['}'] + rest);
        assert(u[0] == '}');
        assert(skip_ws(u) == u);
        assert(u.drop_first() =~= rest);
        assert(fields =~= Seq::<(Seq<char>, Jv)>::empty());
        assert(parse_value(s) == Some((Jv::Obj(Seq::<(Seq<char>, Jv)>::empty()), rest)));
    } else {
        let u = s.drop_first();
        let inner = ser_fields_rest(fields.drop_first(), ind + 2);
        let tail = seq!['\n'] + spaces(ind) + seq!['}'] + rest;
        assert(u =~= seq!['\n'] + spaces(ind + 2) + ser_field(fields[0].0, fields[0].1, ind + 2)
            + inner + tail);
        lemma_spaces_all_ws(ind);
        assert(skip_ws(tail) =~= seq!['}'] + rest) by {
            assert(tail =~= (seq!['\n'] + spaces(ind)) + (seq!['}'] + rest));
            assert(forall|i: int|
                0 <= i < (seq!['\n'] + spaces(ind)).len() ==> is_ws(
                    #[trigger] (seq!['\n'] + spaces(ind))[i],
                ));
            lemma_skip_ws_prefix(seq!['\n'] + spaces(ind), seq!['}'] + rest);
            assert(!is_ws('}'));
            assert((seq!['}'] + rest)[0] == '}');
        }
        assert(wf_fields(fields));
        lemma_parse_members_ser(fields, ind + 2, tail, rest);
        let w0 = skip_ws(u);
        lemma_spaces_all_ws(ind + 2);
        let first = ser_field(fields[0].0, fields[0].1, ind + 2);
        assert(u =~= (seq!['\n'] + spaces(ind + 2)) + (first + (inner + tail)));
        assert(forall|i: int|
            0 <= i < (seq!['\n'] + spaces(ind + 2)).len() ==> is_ws(
                #[trigger] (seq!['\n'] + spaces(ind + 2))[i],
            ));
        lemma_skip_ws_prefix(seq!['\n'] + spaces(ind + 2), first + (inner + tail));
        assert(first[0] == '"');
        assert((first + (inner + tail))[0] == '"');
        assert(skip_ws(first + (inner + tail)) == first + (inner + tail));
        assert(w0.len() > 0 && w0[0] != '}');
        assert(u.len() < s.len());
        assert(parse_members(u) == Some((fields, rest)));
        assert(parse_value(s) == Some((Jv::Obj(fields), rest)));
    }
}

/// Parsing the serialized elements of a non-empty array, followed by a tail
/// that reduces to the closing bracket, yields the elements and the rest.
#[verifier::rlimit(100)]
#[verifier::spinoff_prover]
pub proof fn lemma_parse_elems_ser(items: Seq<Jv>, ind: nat, tail: Seq<char>, rest: Seq<char>)
    requires
        wf_seq(items),
        items.len() > 0,
        tail.len() > 0,
        is_ws(tail[0]),
        skip_ws(tail) == seq![']'] + rest,
    ensures
        parse_elems(
            seq!['\n'] + spaces(ind) + ser(items[0], ind) + ser_items_rest(
                items.drop_first(),
                ind,
            ) + tail,
        ) == Some((items, rest)),
    decreases items, 1int,
{
    let inner = ser_items_rest(items.drop_first(), ind);
    let u = seq!['\n'] + spaces(ind) + ser(items[0], ind) + inner + tail;
    let after0 = inner + tail;
    lemma_spaces_all_ws(ind);
    assert(u =~= (seq!['\n'] + spaces(ind)) + (ser(items[0], ind) + after0));
    assert(forall|i: int|
        0 <= i < (seq!['\n'] + spaces(ind)).len() ==> is_ws(
            #[trigger] (seq!['\n'] + spaces(ind))[i],
        ));
    lemma_skip_ws_prefix(seq!['\n'] + spaces(ind), ser(items[0], ind) + after0);
    lemma_parse_value_skip(u);
    assert(wf(items[0]));
    if items.len() == 1 {
        assert(inner =~= Seq::<char>::empty());
        assert(after0 =~= tail);
        lemma_parse_ser(items[0], ind, tail);
        assert(parse_value(u) == Some((items[0], tail)));
        let w = skip_ws(tail);
        assert(w[0] == ']');
        assert(w.drop_first() =~= rest);
        assert(seq![items[0]] =~= items);
    } else {
        let d = items.drop_first();
        assert(d.len() > 0);
        assert(inner =~= seq![',', '\n'] + spaces(ind) + ser(d[0], ind) + ser_items_rest(
            d.drop_first(),
            ind,
        ));
        assert(after0[0] == ',');
        assert(!is_num_char(','));
        lemma_parse_ser(items[0], ind, after0);
        assert(parse_value(u) == Some((items[0], after0)));
        let w = skip_ws(after0);
        assert(!is_ws(','));
        assert(w == after0);
        assert(w[0] == ',');
        let r2 = w.drop_first();
        assert(r2 =~= seq!['\n'] + spaces(ind) + ser(d[0], ind) + ser_items_rest(
            d.drop_first(),
            ind,
        ) + tail);
        lemma_ser_first(items[0], ind);
        assert(r2.len() < u.len());
        lemma_parse_elems_ser(d, ind, tail, rest);
        assert(parse_elems(r2) == Some((d, rest)));
        assert(seq![items[0]] + d =~= items);
    }
}

/// Parsing the serialized members of a non-empty object, followed by a tail
/// that reduces to the closing brace, yields the members and the rest.
#[verifier::rlimit(100)]
#[verifier::spinoff_prover]
pub proof fn lemma_parse_members_ser(
    fields: Seq<(Seq<char>, Jv)>,
    ind: nat,
    tail: Seq<char>,
    rest: Seq<char>,
)
    requires
        wf_fields(fields),
        fields.len() > 0,
        tail.len() > 0,
        is_ws(tail[0]),
        skip_ws(tail) == seq!['}'] + rest,
    ensures
        parse_members(
            seq!['\n'] + spaces(ind) + ser_field(fields[0].0, fields[0].1, ind)
                + ser_fields_rest(fields.drop_first(), ind) + tail,
        ) == Some((fields, rest)),
    decreases fields, 1int,
{
    let k0 = fields[0].0;
    let v0 = fields[0].1;
    let inner = ser_fields_rest(fields.drop_first(), ind);
    let first = ser_field(k0, v0, ind);
    let u = seq!['\n'] + spaces(ind) + first + inner + tail;
    let after0 = inner + tail;
    lemma_spaces_all_ws(ind);
    assert(u =~= (seq!['\n'] + spaces(ind)) + (first + after0));
    assert(forall|i: int|
        0 <= i < (seq!['\n'] + spaces(ind)).len() ==> is_ws(
            #[trigger] (seq!['\n'] + spaces(ind))[i],
        ));
    lemma_skip_ws_prefix(seq!['\n'] + spaces(ind), first + after0);
    let t = skip_ws(u);
    assert(first[0] == '"');
    assert((first + after0)[0] == '"');
    assert(t == first + after0);
    assert(t[0] == '"');
    let valtext = ser(v0, ind);
    assert(t.drop_first() =~= esc(k0) + seq!['"'] + (seq![':', ' '] + valtext + after0));
    lemma_unesc_esc(k0, seq![':', ' '] + valtext + after0);
    let r = seq![':', ' '] + valtext + after0;
    assert(parse_string_body(t.drop_first()) == Some((k0, r)));
    assert(!is_ws(':'));
    assert(r[0] == ':');
    assert(skip_ws(r) == r);
    let w1 = skip_ws(r);
    assert(w1[0] == ':');
    assert(w1.drop_first() =~= seq![' '] + (valtext + after0));
    assert(w1.drop_first().len() < u.len());
    lemma_parse_value_skip(w1.drop_first());
    assert(forall|i: int|
        0 <= i < seq![' '].len() ==> is_ws(#[trigger] seq![' '][i]));
    lemma_skip_ws_prefix(seq![' '], valtext + after0);
    assert(wf(v0));
    lemma_ser_first(v0, ind);
    assert((valtext + after0)[0] == valtext[0]);
    assert(skip_ws(valtext + after0) == valtext + after0);
    if fields.len() == 1 {
        assert(inner =~= Seq::<char>::empty());
        assert(after0 =~= tail);
        lemma_parse_ser(v0, ind, tail);
        assert(parse_value(w1.drop_first()) == Some((v0, tail)));
        let w2 = skip_ws(tail);
        assert(w2[0] == '}');
        assert(w2.drop_first() =~= rest);
        assert(seq![(k0, v0)] =~= fields);
    } else {
        let d = fields.drop_first();
        assert(d.len() > 0);
        assert(inner =~= seq![',', '\n'] + spaces(ind) + ser_field(d[0].0, d[0].1, ind)
            + ser_fields_rest(d.drop_first(), ind));
        assert(after0[0] == ',');
        assert(!is_num_char(','));
        lemma_parse_ser(v0, ind, after0);
        assert(parse_value(w1.drop_first()) == Some((v0, after0)));
        let w2 = skip_ws(after0);
        assert(!is_ws(','));
        assert(w2 == after0);
        assert(w2[0] == ',');
        let r3 = w2.drop_first();
        assert(r3 =~= seq!['\n'] + spaces(ind) + ser_field(d[0].0, d[0].1, ind)
            + ser_fields_rest(d.drop_first(), ind) + tail);
        lemma_ser_first(v0, ind);
        assert(r3.len() < u.len());
        lemma_parse_members_ser(d, ind, tail, rest);
        assert(parse_members(r3) == Some((d, rest)));
        assert(seq![(k0, v0)] + d =~= fields);
    }
}

proof fn lemma_num_len_chars(s: Seq<char>)
    ensures
        0 <= num_len(s) <= s.len(),
        forall|i: int| 0 <= i < num_len(s) ==> is_num_char(s[i]),
    decreases s.len(),
{
    if s.len() > 0 && is_num_char(s[0]) {
        lemma_num_len_chars(s.drop_first());
        assert forall|i: int| 0 <= i < num_len(s) implies is_num_char(s[i]) by {
            if i > 0 {
                assert(s.drop_first()[i - 1] == s[i]);
            }
        }
    }
}

/// Everything the parser accepts is well-formed.
pub proof fn lemma_parse_value_wf(s: Seq<char>)
    ensures
        parse_value(s) matches Some(p) ==> wf(p.0),
    decreases s.len(), 2int,
{
    let t = skip_ws(s);
    lemma_skip_ws_len(s);
    if t.len() > 0 {
        if t[0] == '[' {
            let u = t.drop_first();
            let w = skip_ws(u);
            if w.len() > 0 && w[0] == ']' {
                assert(wf_seq(Seq::<Jv>::empty()));
            } else if u.len() < s.len() {
                lemma_parse_elems_wf(u);
            }
        } else if t[0] == '{' {
            let u = t.drop_first();
            let w = skip_ws(u);
            if w.len() > 0 && w[0] == '}' {
                assert(wf_fields(Seq::<(Seq<char>, Jv)>::empty()));
            } else if u.len() < s.len() {
                lemma_parse_members_wf(u);
            }
        } else if t[0] == 'n' || t[0] == 't' || t[0] == 'f' || t[0] == '"' {
        } else if is_num_char(t[0]) {
            lemma_num_len_chars(t);
            lemma_num_len_chars(t.drop_first());
            let n = num_len(t);
            assert(n == 1 + num_len(t.drop_first()));
            assert(n > 0);
            assert forall|i: int| 0 <= i < t.take(n).len() implies is_num_char(t.take(n)[i]) by {
                assert(t.take(n)[i] == t[i]);
            }
        }
    }
}

proof fn lemma_parse_elems_wf(s: Seq<char>)
    ensures
        parse_elems(s) matches Some(p) ==> wf_seq(p.0),
    decreases s.len(), 3int,
{
    lemma_parse_value_wf(s);
    match parse_value(s) {
        Some((v, r)) => {
            let w = skip_ws(r);
            if w.len() > 0 && w[0] == ',' {
                let r2 = w.drop_first();
                if r2.len() < s.len() {
                    lemma_parse_elems_wf(r2);
                    match parse_elems(r2) {
                        Some((vs, _)) => {
                            assert forall|i: int|
                                0 <= i < (seq![v] + vs).len() implies wf(
                                #[trigger] (seq![v] + vs)[i],
                            ) by {
                                if i > 0 {
                                    assert((seq![v] + vs)[i] == vs[i - 1]);
                                }
                            }
                        },
                        None => {},
                    }
                }
            } else if w.len() > 0 && w[0] == ']' {
                assert(seq![v][0] == v);
            }
        },
        None => {},
    }
}

proof fn lemma_parse_members_wf(s: Seq<char>)
    ensures
        parse_members(s) matches Some(p) ==> wf_fields(p.0),
    decreases s.len(), 3int,
{
    let t = skip_ws(s);
    if t.len() > 0 && t[0] == '"' {
        match parse_string_body(t.drop_first()) {
            None => {},
            Some((k, r)) => {
                let w1 = skip_ws(r);
                if w1.len() > 0 && w1[0] == ':' && w1.drop_first().len() < s.len() {
                    lemma_parse_value_wf(w1.drop_first());
                    match parse_value(w1.drop_first()) {
                        None => {},
                        Some((v, r2)) => {
                            let w2 = skip_ws(r2);
                            if w2.len() > 0 && w2[0] == ',' {
                                let r3 = w2.drop_first();
                                if r3.len() < s.len() {
                                    lemma_parse_members_wf(r3);
                                    match parse_members(r3) {
                                        Some((fs, _)) => {
                                            assert forall|i: int|
                                                0 <= i < (seq![(k, v)] + fs).len() implies wf(
                                                (#[trigger] (seq![(k, v)] + fs)[i]).1,
                                            ) by {
                                                if i > 0 {
                                                    assert((seq![(k, v)] + fs)[i] == fs[i - 1]);
                                                }
                                            }
                                        },
                                        None => {},
                                    }
                                }
                            } else if w2.len() > 0 && w2[0] == '}' {
                                assert(seq![(k, v)][0] == (k, v));
                            }
                        },
                    }
                }
            },
        }
    }
}

/// Everything a whole parsed document holds is well-formed, so every loaded
/// document satisfies the round-trip law.
pub proof fn lemma_parse_doc_wf(s: Seq<char>)
    ensures
        parse_doc(s) matches Some(v) ==> wf(v),
{
    lemma_parse_value_wf(s);
}

/// Round trip: pretty-printing a well-formed value and parsing the printed
/// document recovers the value itself.
pub proof fn lemma_pretty_parse_roundtrip(v: Jv)
    requires
        wf(v),
    ensures
        parse_doc(ser(v, 0)) == Some(v),
{
    lemma_parse_ser(v, 0, Seq::empty());
    assert(ser(v, 0) + Seq::<char>::empty() =~= ser(v, 0));
    assert(parse_value(ser(v, 0)) == Some((v, Seq::<char>::empty())));
    assert(skip_ws(Seq::<char>::empty()) == Seq::<char>::empty());
}

} // verus!
