//! Tree rendering: turning the current subtree into the flat list of visible
//! rows, honouring per-node expansion state and the two display options.

use vstd::prelude::*;

use crate::explorer::{dup_segs, exp_lookup, lookup_expanded};
use crate::pretty::{chars_to_string, hex_digit, hex_digit_exec, push_string};
use crate::value::{jv_fields_of, jv_of, jv_seq_of, lemma_jv_fields_of, lemma_jv_seq_of, Jv,
    JsonValue};

verus! {

/// One visible row of the tree: the path from the displayed root to the
/// node (whose length is the indentation depth), the label text, and
/// whether the node is a container (clickable for expansion and
/// navigation). The displayed root itself has the empty path.
pub struct TreeRow {
    pub path: Vec<String>,
    pub label: String,
    pub is_container: bool,
}

/// The model of a row.
pub open spec fn row_model(r: TreeRow) -> (Seq<Seq<char>>, Seq<char>, bool) {
    (r.path.deep_view(), r.label@, r.is_container)
}

/// The models of a sequence of rows.
pub open spec fn rows_model(rs: Seq<TreeRow>) -> Seq<(Seq<Seq<char>>, Seq<char>, bool)> {
    Seq::new(rs.len(), |i: int| row_model(rs[i]))
}

/// The decimal digits of `n`.
pub open spec fn dec_digits(n: nat) -> Seq<char>
    decreases n,
{
    if n < 10 {
        seq![hex_digit(n)]
    } else {
        dec_digits(n / 10).push(hex_digit(n % 10))
    }
}

/// The decimal text of a number.
pub fn usize_to_string(n: usize) -> (r: String)
    ensures
        r@ == dec_digits(n as nat),
{
    let mut out: Vec<char> = Vec::new();
    push_dec(&mut out, n);
    chars_to_string(&out)
}

/// The bracketed display text of an array index, as `bracketed` has it.
pub fn bracketed_index(n: usize) -> (r: String)
    ensures
        r@ == bracketed(n as nat),
{
    let mut out: Vec<char> = Vec::new();
    out.push('[');
    push_dec(&mut out, n);
    out.push(']');
    proof {
        assert(out@ =~= bracketed(n as nat));
    }
    chars_to_string(&out)
}

/// Append the decimal digits of `n` to `out`.
fn push_dec(out: &mut Vec<char>, n: usize)
    ensures
        final(out)@ == old(out)@ + dec_digits(n as nat),
    decreases n,
{
    if n < 10 {
        out.push(hex_digit_exec(n as u32));
        proof {
            assert(out@ =~= old(out)@ + dec_digits(n as nat));
        }
    } else {
        push_dec(out, n / 10);
        out.push(hex_digit_exec((n % 10) as u32));
        proof {
            assert(out@ =~= old(out)@ + dec_digits(n as nat));
        }
    }
}

/// The kind tag of a scalar.
pub open spec fn kind_name(v: Jv) -> Seq<char> {
    match v {
        Jv::Str(_) => seq!['s', 't', 'r', 'i', 'n', 'g'],
        Jv::Num(_) => seq!['n', 'u', 'm', 'b', 'e', 'r'],
        Jv::Bool(_) => seq!['b', 'o', 'o', 'l', 'e', 'a', 'n'],
        _ => seq!['n', 'u', 'l', 'l'],
    }
}

/// The raw value text of a scalar: strings double-quoted, the rest as their
/// literal text.
pub open spec fn scalar_text(v: Jv) -> Seq<char> {
    match v {
        Jv::Str(s) => seq!['"'] + s + seq!['"'],
        Jv::Num(lex) => lex,
        Jv::Bool(b) => if b {
            seq!['t', 'r', 'u', 'e']
        } else {
            seq!['f', 'a', 'l', 's', 'e']
        },
        _ => seq!['n', 'u', 'l', 'l'],
    }
}

/// Truncation of long value text: at most 50 characters, then an ellipsis
/// marker.
pub open spec fn trunc50(s: Seq<char>) -> Seq<char> {
    if s.len() > 50 {
        s.take(50) + seq!['.', '.', '.']
    } else {
        s
    }
}

/// The key as displayed: `Root` where the key is empty.
pub open spec fn display_key(key: Seq<char>) -> Seq<char> {
    if key.len() == 0 {
        seq!['R', 'o', 'o', 't']
    } else {
        key
    }
}

/// The label of a scalar row: the key, then the kind tag in parentheses if
/// kinds are shown, then the truncated value text if values are shown.
pub open spec fn scalar_label(v: Jv, key: Seq<char>, st: bool, sv: bool) -> Seq<char> {
    let base = seq![' ', ' '] + display_key(key);
    let with_kind = if st {
        base + seq![' ', '('] + kind_name(v) + seq![')']
    } else {
        base
    };
    if sv {
        with_kind + seq![' '] + trunc50(scalar_text(v))
    } else {
        with_kind
    }
}

/// The label of a container row: the expansion glyph, the key, and, if
/// kinds are shown, the kind and the number of direct children.
pub open spec fn container_label(v: Jv, key: Seq<char>, expanded: bool, st: bool) -> Seq<char> {
    let icon = if expanded {
        seq!['\u{25BC}']
    } else {
        seq!['\u{25B6}']
    };
    let kind = if v is Obj {
        seq!['o', 'b', 'j', 'e', 'c', 't']
    } else {
        seq!['a', 'r', 'r', 'a', 'y']
    };
    let count: nat = if v is Obj {
        v->Obj_0.len()
    } else {
        v->Arr_0.len()
    };
    let head = icon + seq![' '] + display_key(key);
    if st {
        head + seq![' ', '('] + kind + seq![',', ' '] + dec_digits(count) + seq![
            ' ',
            'i',
            't',
            'e',
            'm',
            's',
            ')',
        ]
    } else {
        head
    }
}

/// The node path of a node with the given key under `path`: the key is
/// appended unless it is empty (the displayed root).
pub open spec fn node_path(path: Seq<Seq<char>>, key: Seq<char>) -> Seq<Seq<char>> {
    if key.len() == 0 {
        path
    } else {
        path.push(key)
    }
}

/// The visible rows for a node under `path`: `key` is the navigation
/// segment and `shown` the text the key is displayed as (they differ only
/// for array elements, whose labels carry the bracketed index). Scalars are
/// one row; containers are their header row and, when expanded, the rows of
/// each child in order.
pub open spec fn rows_of(
    v: Jv,
    key: Seq<char>,
    shown: Seq<char>,
    path: Seq<Seq<char>>,
    exp: Seq<(Seq<Seq<char>>, bool)>,
    st: bool,
    sv: bool,
) -> Seq<(Seq<Seq<char>>, Seq<char>, bool)>
    decreases v, 0int,
{
    let npath = node_path(path, key);
    match v {
        Jv::Arr(items) => {
            let expanded = exp_lookup(exp, npath);
            let head = seq![(npath, container_label(v, shown, expanded, st), true)];
            if expanded {
                head + rows_of_items(items, 0, npath, exp, st, sv)
            } else {
                head
            }
        },
        Jv::Obj(fields) => {
            let expanded = exp_lookup(exp, npath);
            let head = seq![(npath, container_label(v, shown, expanded, st), true)];
            if expanded {
                head + rows_of_fields(fields, npath, exp, st, sv)
            } else {
                head
            }
        },
        _ => seq![(npath, scalar_label(v, shown, st, sv), false)],
    }
}

/// The bracketed display text of an array index.
pub open spec fn bracketed(idx: nat) -> Seq<char> {
    seq!['['] + dec_digits(idx) + seq![']']
}

/// The rows of the elements of an array, the first carrying index `idx`.
pub open spec fn rows_of_items(
    items: Seq<Jv>,
    idx: nat,
    path: Seq<Seq<char>>,
    exp: Seq<(Seq<Seq<char>>, bool)>,
    st: bool,
    sv: bool,
) -> Seq<(Seq<Seq<char>>, Seq<char>, bool)>
    decreases items, 1int,
{
    if items.len() == 0 {
        Seq::empty()
    } else {
        rows_of(items[0], dec_digits(idx), bracketed(idx), path, exp, st, sv) + rows_of_items(
            items.drop_first(),
            idx + 1,
            path,
            exp,
            st,
            sv,
        )
    }
}

/// The rows of the members of an object, in order.
pub open spec fn rows_of_fields(
    fields: Seq<(Seq<char>, Jv)>,
    path: Seq<Seq<char>>,
    exp: Seq<(Seq<Seq<char>>, bool)>,
    st: bool,
    sv: bool,
) -> Seq<(Seq<Seq<char>>, Seq<char>, bool)>
    decreases fields, 2int,
{
    if fields.len() == 0 {
        Seq::empty()
    } else {
        rows_of(fields[0].1, fields[0].0, fields[0].0, path, exp, st, sv) + rows_of_fields(
            fields.drop_first(),
            path,
            exp,
            st,
            sv,
        )
    }
}

pub proof fn lemma_rows_of_items_push(
    items: Seq<Jv>,
    x: Jv,
    idx: nat,
    path: Seq<Seq<char>>,
    exp: Seq<(Seq<Seq<char>>, bool)>,
    st: bool,
    sv: bool,
)
    ensures
        rows_of_items(items.push(x), idx, path, exp, st, sv) == rows_of_items(
            items,
            idx,
            path,
            exp,
            st,
            sv,
        ) + rows_of(x, dec_digits(idx + items.len()), bracketed(idx + items.len()), path, exp, st, sv),
    decreases items.len(),
{
    if items.len() == 0 {
        assert(items.push(x)[0] == x);
        assert(items.push(x).drop_first() =~= Seq::<Jv>::empty());
        assert(rows_of_items(Seq::<Jv>::empty(), idx + 1, path, exp, st, sv)
            == Seq::<(Seq<Seq<char>>, Seq<char>, bool)>::empty());
        assert(rows_of_items(items.push(x), idx, path, exp, st, sv) =~= rows_of_items(
            items,
            idx,
            path,
            exp,
            st,
            sv,
        ) + rows_of(x, dec_digits(idx), bracketed(idx), path, exp, st, sv));
    } else {
        assert(items.push(x).drop_first() =~= items.drop_first().push(x));
        lemma_rows_of_items_push(items.drop_first(), x, idx + 1, path, exp, st, sv);
        assert(rows_of_items(items.push(x), idx, path, exp, st, sv) =~= rows_of_items(
            items,
            idx,
            path,
            exp,
            st,
            sv,
        ) + rows_of(x, dec_digits(idx + items.len()), bracketed(idx + items.len()), path, exp, st,
            sv));
    }
}

pub proof fn lemma_rows_of_fields_push(
    fields: Seq<(Seq<char>, Jv)>,
    k: Seq<char>,
    x: Jv,
    path: Seq<Seq<char>>,
    exp: Seq<(Seq<Seq<char>>, bool)>,
    st: bool,
    sv: bool,
)
    ensures
        rows_of_fields(fields.push((k, x)), path, exp, st, sv) == rows_of_fields(
            fields,
            path,
            exp,
            st,
            sv,
        ) + rows_of(x, k, k, path, exp, st, sv),
    decreases fields.len(),
{
    if fields.len() == 0 {
        assert(fields.push((k, x))[0] == (k, x));
        assert(fields.push((k, x)).drop_first() =~= Seq::<(Seq<char>, Jv)>::empty());
        assert(rows_of_fields(Seq::<(Seq<char>, Jv)>::empty(), path, exp, st, sv)
            == Seq::<(Seq<Seq<char>>, Seq<char>, bool)>::empty());
        assert(rows_of_fields(fields.push((k, x)), path, exp, st, sv) =~= rows_of_fields(
            fields,
            path,
            exp,
            st,
            sv,
        ) + rows_of(x, k, k, path, exp, st, sv));
    } else {
        assert(fields.push((k, x)).drop_first() =~= fields.drop_first().push((k, x)));
        lemma_rows_of_fields_push(fields.drop_first(), k, x, path, exp, st, sv);
        assert(rows_of_fields(fields.push((k, x)), path, exp, st, sv) =~= rows_of_fields(
            fields,
            path,
            exp,
            st,
            sv,
        ) + rows_of(x, k, k, path, exp, st, sv));
    }
}

/// Changing the display options changes only the label text of the rows:
/// the same nodes are listed, in the same order, with the same paths and
/// the same container flags.
pub proof fn lemma_rows_options_label_only(
    v: Jv,
    key: Seq<char>,
    shown: Seq<char>,
    path: Seq<Seq<char>>,
    exp: Seq<(Seq<Seq<char>>, bool)>,
    st1: bool,
    sv1: bool,
    st2: bool,
    sv2: bool,
)
    ensures
        rows_of(v, key, shown, path, exp, st1, sv1).len() == rows_of(v, key, shown, path, exp, st2, sv2).len(),
        forall|i: int|
            0 <= i < rows_of(v, key, shown, path, exp, st1, sv1).len() ==> (#[trigger] rows_of(
                v,
                key,
                shown,
                path,
                exp,
                st1,
                sv1,
            )[i]).0 == rows_of(v, key, shown, path, exp, st2, sv2)[i].0 && rows_of(
                v,
                key,
                shown,
                path,
                exp,
                st1,
                sv1,
            )[i].2 == rows_of(v, key, shown, path, exp, st2, sv2)[i].2,
    decreases v, 0int,
{
    let npath = node_path(path, key);
    match v {
        Jv::Arr(items) => {
            if exp_lookup(exp, npath) {
                lemma_rows_items_options_label_only(items, 0, npath, exp, st1, sv1, st2, sv2);
            }
        },
        Jv::Obj(fields) => {
            if exp_lookup(exp, npath) {
                lemma_rows_fields_options_label_only(fields, npath, exp, st1, sv1, st2, sv2);
            }
        },
        _ => {},
    }
}

proof fn lemma_rows_items_options_label_only(
    items: Seq<Jv>,
    idx: nat,
    path: Seq<Seq<char>>,
    exp: Seq<(Seq<Seq<char>>, bool)>,
    st1: bool,
    sv1: bool,
    st2: bool,
    sv2: bool,
)
    ensures
        rows_of_items(items, idx, path, exp, st1, sv1).len() == rows_of_items(
            items,
            idx,
            path,
            exp,
            st2,
            sv2,
        ).len(),
        forall|i: int|
            0 <= i < rows_of_items(items, idx, path, exp, st1, sv1).len() ==> (
            #[trigger] rows_of_items(items, idx, path, exp, st1, sv1)[i]).0 == rows_of_items(
                items,
                idx,
                path,
                exp,
                st2,
                sv2,
            )[i].0 && rows_of_items(items, idx, path, exp, st1, sv1)[i].2 == rows_of_items(
                items,
                idx,
                path,
                exp,
                st2,
                sv2,
            )[i].2,
    decreases items, 1int,
{
    if items.len() > 0 {
        lemma_rows_options_label_only(
            items[0],
            dec_digits(idx),
            bracketed(idx),
            path,
            exp,
            st1,
            sv1,
            st2,
            sv2,
        );
        lemma_rows_items_options_label_only(
            items.drop_first(),
            idx + 1,
            path,
            exp,
            st1,
            sv1,
            st2,
            sv2,
        );
    }
}

proof fn lemma_rows_fields_options_label_only(
    fields: Seq<(Seq<char>, Jv)>,
    path: Seq<Seq<char>>,
    exp: Seq<(Seq<Seq<char>>, bool)>,
    st1: bool,
    sv1: bool,
    st2: bool,
    sv2: bool,
)
    ensures
        rows_of_fields(fields, path, exp, st1, sv1).len() == rows_of_fields(
            fields,
            path,
            exp,
            st2,
            sv2,
        ).len(),
        forall|i: int|
            0 <= i < rows_of_fields(fields, path, exp, st1, sv1).len() ==> (
            #[trigger] rows_of_fields(fields, path, exp, st1, sv1)[i]).0 == rows_of_fields(
                fields,
                path,
                exp,
                st2,
                sv2,
            )[i].0 && rows_of_fields(fields, path, exp, st1, sv1)[i].2 == rows_of_fields(
                fields,
                path,
                exp,
                st2,
                sv2,
            )[i].2,
    decreases fields, 2int,
{
    if fields.len() > 0 {
        lemma_rows_options_label_only(
            fields[0].1,
            fields[0].0,
            fields[0].0,
            path,
            exp,
            st1,
            sv1,
            st2,
            sv2,
        );
        lemma_rows_fields_options_label_only(
            fields.drop_first(),
            path,
            exp,
            st1,
            sv1,
            st2,
            sv2,
        );
    }
}

/// The truncated value text of a scalar, as characters.
fn build_scalar_text(v: &JsonValue, out: &mut Vec<char>)
    ensures
        final(out)@ == old(out)@ + trunc50(scalar_text(v@)),
{
    let mut raw: Vec<char> = Vec::new();
    match v {
        JsonValue::Str(s) => {
            raw.push('"');
            push_string(&mut raw, s);
            raw.push('"');
            proof {
                assert(raw@ =~= scalar_text(v@));
            }
        },
        JsonValue::Num(lex) => {
            push_string(&mut raw, lex);
            proof {
                assert(raw@ =~= scalar_text(v@));
            }
        },
        JsonValue::Bool(b) => {
            if *b {
                raw.push('t');
                raw.push('r');
                raw.push('u');
                raw.push('e');
            } else {
                raw.push('f');
                raw.push('a');
                raw.push('l');
                raw.push('s');
                raw.push('e');
            }
            proof {
                assert(raw@ =~= scalar_text(v@));
            }
        },
        _ => {
            raw.push('n');
            raw.push('u');
            raw.push('l');
            raw.push('l');
            proof {
                assert(raw@ =~= scalar_text(v@));
            }
        },
    }
    if raw.len() > 50 {
        let mut i: usize = 0;
        while i < 50
            invariant
                i <= 50,
                raw@ == scalar_text(v@),
                raw@.len() > 50,
                out@ == old(out)@ + raw@.take(i as int),
            decreases 50 - i,
        {
            out.push(raw[i]);
            i = i + 1;
            proof {
                assert(out@ =~= old(out)@ + raw@.take(i as int));
            }
        }
        out.push('.');
        out.push('.');
        out.push('.');
        proof {
            assert(out@ =~= old(out)@ + trunc50(scalar_text(v@)));
        }
    } else {
        crate::pretty::push_all(out, &raw);
        proof {
            assert(out@ =~= old(out)@ + trunc50(scalar_text(v@)));
        }
    }
}

/// Append the display key.
fn push_display_key(out: &mut Vec<char>, key: &String)
    ensures
        final(out)@ == old(out)@ + display_key(key@),
{
    if key.as_str().unicode_len() == 0 {
        out.push('R');
        out.push('o');
        out.push('o');
        out.push('t');
        proof {
            assert(out@ =~= old(out)@ + display_key(key@));
        }
    } else {
        push_string(out, key);
    }
}

/// The label of a scalar row, as `scalar_label` has it.
fn build_scalar_label(v: &JsonValue, key: &String, st: bool, sv: bool) -> (r: String)
    ensures
        r@ == scalar_label(v@, key@, st, sv),
{
    let mut out: Vec<char> = Vec::new();
    out.push(' ');
    out.push(' ');
    push_display_key(&mut out, key);
    if st {
        out.push(' ');
        out.push('(');
        match v {
            JsonValue::Str(_) => {
                out.push('s');
                out.push('t');
                out.push('r');
                out.push('i');
                out.push('n');
                out.push('g');
            },
            JsonValue::Num(_) => {
                out.push('n');
                out.push('u');
                out.push('m');
                out.push('b');
                out.push('e');
                out.push('r');
            },
            JsonValue::Bool(_) => {
                out.push('b');
                out.push('o');
                out.push('o');
                out.push('l');
                out.push('e');
                out.push('a');
                out.push('n');
            },
            _ => {
                out.push('n');
                out.push('u');
                out.push('l');
                out.push('l');
            },
        }
        out.push(')');
        proof {
            assert(out@ =~= (seq![' ', ' '] + display_key(key@)) + seq![' ', '('] + kind_name(v@)
                + seq![')']);
        }
    }
    if sv {
        out.push(' ');
        build_scalar_text(v, &mut out);
    }
    proof {
        assert(out@ =~= scalar_label(v@, key@, st, sv));
    }
    chars_to_string(&out)
}

/// The label of a container row, as `container_label` has it.
#[verifier::rlimit(60)]
#[verifier::spinoff_prover]
fn build_container_label(v: &JsonValue, key: &String, expanded: bool, st: bool) -> (r: String)
    requires
        v@ is Arr || v@ is Obj,
    ensures
        r@ == container_label(v@, key@, expanded, st),
{
    let mut out: Vec<char> = Vec::new();
    if expanded {
        out.push('\u{25BC}');
    } else {
        out.push('\u{25B6}');
    }
    out.push(' ');
    push_display_key(&mut out, key);
    if st {
        out.push(' ');
        out.push('(');
        let count: usize = match v {
            JsonValue::Obj(fields) => {
                out.push('o');
                out.push('b');
                out.push('j');
                out.push('e');
                out.push('c');
                out.push('t');
                proof {
                    crate::value::lemma_jv_fields_of(fields@);
                }
                fields.len()
            },
            JsonValue::Arr(items) => {
                out.push('a');
                out.push('r');
                out.push('r');
                out.push('a');
                out.push('y');
                proof {
                    crate::value::lemma_jv_seq_of(items@);
                }
                items.len()
            },
            _ => 0,
        };
        out.push(',');
        out.push(' ');
        push_dec(&mut out, count);
        out.push(' ');
        out.push('i');
        out.push('t');
        out.push('e');
        out.push('m');
        out.push('s');
        out.push(')');
        proof {
            assert(out@ =~= container_label(v@, key@, expanded, st));
        }
    } else {
        proof {
            assert(out@ =~= container_label(v@, key@, expanded, st));
        }
    }
    chars_to_string(&out)
}

/// Append the visible rows of the node `(v, key)` under `path` to `out`;
/// `shown` is the display text of the key.
pub fn emit_rows(
    v: &JsonValue,
    key: &String,
    shown: &String,
    path: &Vec<String>,
    exp: &Vec<(Vec<String>, bool)>,
    st: bool,
    sv: bool,
    out: &mut Vec<TreeRow>,
)
    ensures
        rows_model(final(out)@) == rows_model(old(out)@) + rows_of(
            v@,
            key@,
            shown@,
            path.deep_view(),
            exp.deep_view(),
            st,
            sv,
        ),
    decreases v, 0int,
{
    let npath: Vec<String> = if key.as_str().unicode_len() == 0 {
        dup_segs(path)
    } else {
        let mut p = dup_segs(path);
        p.push(key.clone());
        proof {
            assert(p.deep_view() =~= path.deep_view().push(key@));
        }
        p
    };
    proof {
        assert(npath.deep_view() == node_path(path.deep_view(), key@));
    }
    match v {
        JsonValue::Arr(items) => {
            let expanded = lookup_expanded(exp, &npath);
            let label = build_container_label(v, shown, expanded, st);
            let row = TreeRow { path: dup_segs(&npath), label, is_container: true };
            let ghost head_model = row_model(row);
            out.push(row);
            proof {
                assert(rows_model(out@) =~= rows_model(old(out)@) + seq![head_model]);
            }
            if expanded {
                let ghost base = rows_model(out@);
                let ghost jvs = jv_seq_of(items@);
                proof {
                    lemma_jv_seq_of(items@);
                    assert(rows_of_items(jvs.take(0), 0, npath.deep_view(), exp.deep_view(), st, sv)
                        == Seq::<(Seq<Seq<char>>, Seq<char>, bool)>::empty());
                    assert(rows_model(out@) =~= base + rows_of_items(
                        jvs.take(0),
                        0,
                        npath.deep_view(),
                        exp.deep_view(),
                        st,
                        sv,
                    ));
                }
                let mut i: usize = 0;
                while i < items.len()
                    invariant
                        *v == JsonValue::Arr(*items),
                        i <= items@.len(),
                        jvs == jv_seq_of(items@),
                        jvs.len() == items@.len(),
                        forall|j: int|
                            0 <= j < items@.len() ==> jvs[j] == jv_of(#[trigger] items@[j]),
                        rows_model(out@) == base + rows_of_items(
                            jvs.take(i as int),
                            0,
                            npath.deep_view(),
                            exp.deep_view(),
                            st,
                            sv,
                        ),
                    decreases items@.len() - i,
                {
                    proof {
                        assert(decreases_to!(*v => v->Arr_0@[i as int]));
                        assert(items@[i as int] == v->Arr_0@[i as int]);
                    }
                    let idx_key = usize_to_string(i);
                    let idx_shown = bracketed_index(i);
                    emit_rows(&items[i], &idx_key, &idx_shown, &npath, exp, st, sv, out);
                    i = i + 1;
                    proof {
                        lemma_rows_of_items_push(
                            jvs.take(i - 1),
                            jvs[i - 1],
                            0,
                            npath.deep_view(),
                            exp.deep_view(),
                            st,
                            sv,
                        );
                        assert(jvs.take(i as int) =~= jvs.take(i - 1).push(jvs[i - 1]));
                        assert(dec_digits(0 + jvs.take(i - 1).len()) == dec_digits((i - 1) as nat));
                        assert(rows_model(out@) =~= base + rows_of_items(
                            jvs.take(i as int),
                            0,
                            npath.deep_view(),
                            exp.deep_view(),
                            st,
                            sv,
                        ));
                    }
                }
                proof {
                    assert(jvs.take(jvs.len() as int) =~= jvs);
                    assert(rows_model(out@) =~= rows_model(old(out)@) + rows_of(
                        v@,
                        key@,
                        shown@,
                        path.deep_view(),
                        exp.deep_view(),
                        st,
                        sv,
                    ));
                }
            } else {
                proof {
                    assert(rows_model(out@) =~= rows_model(old(out)@) + rows_of(
                        v@,
                        key@,
                        shown@,
                        path.deep_view(),
                        exp.deep_view(),
                        st,
                        sv,
                    ));
                }
            }
        },
        JsonValue::Obj(fields) => {
            let expanded = lookup_expanded(exp, &npath);
            let label = build_container_label(v, shown, expanded, st);
            let row = TreeRow { path: dup_segs(&npath), label, is_container: true };
            let ghost head_model = row_model(row);
            out.push(row);
            proof {
                assert(rows_model(out@) =~= rows_model(old(out)@) + seq![head_model]);
            }
            if expanded {
                let ghost base = rows_model(out@);
                let ghost jfs = jv_fields_of(fields@);
                proof {
                    lemma_jv_fields_of(fields@);
                    assert(rows_of_fields(jfs.take(0), npath.deep_view(), exp.deep_view(), st, sv)
                        == Seq::<(Seq<Seq<char>>, Seq<char>, bool)>::empty());
                    assert(rows_model(out@) =~= base + rows_of_fields(
                        jfs.take(0),
                        npath.deep_view(),
                        exp.deep_view(),
                        st,
                        sv,
                    ));
                }
                let mut i: usize = 0;
                while i < fields.len()
                    invariant
                        *v == JsonValue::Obj(*fields),
                        i <= fields@.len(),
                        jfs == jv_fields_of(fields@),
                        jfs.len() == fields@.len(),
                        forall|j: int|
                            0 <= j < fields@.len() ==> jfs[j] == (
                                #[trigger] fields@[j].0@,
                                jv_of(fields@[j].1),
                            ),
                        rows_model(out@) == base + rows_of_fields(
                            jfs.take(i as int),
                            npath.deep_view(),
                            exp.deep_view(),
                            st,
                            sv,
                        ),
                    decreases fields@.len() - i,
                {
                    proof {
                        assert(decreases_to!(*v => v->Obj_0@[i as int].1));
                        assert(fields@[i as int] == v->Obj_0@[i as int]);
                    }
                    emit_rows(&fields[i].1, &fields[i].0, &fields[i].0, &npath, exp, st, sv, out);
                    i = i + 1;
                    proof {
                        lemma_rows_of_fields_push(
                            jfs.take(i - 1),
                            jfs[i - 1].0,
                            jfs[i - 1].1,
                            npath.deep_view(),
                            exp.deep_view(),
                            st,
                            sv,
                        );
                        assert(jfs.take(i as int) =~= jfs.take(i - 1).push(jfs[i - 1]));
                        assert(rows_model(out@) =~= base + rows_of_fields(
                            jfs.take(i as int),
                            npath.deep_view(),
                            exp.deep_view(),
                            st,
                            sv,
                        ));
                    }
                }
                proof {
                    assert(jfs.take(jfs.len() as int) =~= jfs);
                    assert(rows_model(out@) =~= rows_model(old(out)@) + rows_of(
                        v@,
                        key@,
                        shown@,
                        path.deep_view(),
                        exp.deep_view(),
                        st,
                        sv,
                    ));
                }
            } else {
                proof {
                    assert(rows_model(out@) =~= rows_model(old(out)@) + rows_of(
                        v@,
                        key@,
                        shown@,
                        path.deep_view(),
                        exp.deep_view(),
                        st,
                        sv,
                    ));
                }
            }
        },
        _ => {
            let label = build_scalar_label(v, shown, st, sv);
            let row = TreeRow { path: dup_segs(&npath), label, is_container: false };
            let ghost head_model = row_model(row);
            out.push(row);
            proof {
                assert(rows_model(out@) =~= rows_model(old(out)@) + rows_of(
                    v@,
                    key@,
                    shown@,
                    path.deep_view(),
                    exp.deep_view(),
                    st,
                    sv,
                ));
            }
        },
    }
}

impl crate::explorer::JsonExplorer {
    /// The visible rows of the current subtree: the displayed root with the
    /// empty key and path, expanded nodes showing their children; nothing
    /// when no document is loaded.
    pub fn render_tree_rows(&self) -> (rows: Vec<TreeRow>)
        ensures
            self.current_data is Some ==> rows_model(rows@) == rows_of(
                self.current_data->0@,
                Seq::<char>::empty(),
                Seq::<char>::empty(),
                Seq::<Seq<char>>::empty(),
                self.expanded_nodes.deep_view(),
                self.show_node_types,
                self.show_node_values,
            ),
            self.current_data is None ==> rows@.len() == 0,
    {
        let mut out: Vec<TreeRow> = Vec::new();
        if self.current_data.is_none() {
            return out;
        }
        let key = String::new();
        let path: Vec<String> = Vec::new();
        proof {
            assert(path.deep_view() =~= Seq::<Seq<char>>::empty());
            assert(rows_model(Seq::<TreeRow>::empty()) =~= Seq::<
                (Seq<Seq<char>>, Seq<char>, bool),
            >::empty());
        }
        emit_rows(
            self.current_data.as_ref().unwrap(),
            &key,
            &key,
            &path,
            &self.expanded_nodes,
            self.show_node_types,
            self.show_node_values,
            &mut out,
        );
        proof {
            assert(rows_model(out@) =~= rows_of(
                self.current_data->0@,
                Seq::<char>::empty(),
                Seq::<char>::empty(),
                Seq::<Seq<char>>::empty(),
                self.expanded_nodes.deep_view(),
                self.show_node_types,
                self.show_node_values,
            ));
        }
        out
    }
}

} // verus!
