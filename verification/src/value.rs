//! The JSON value model: a mathematical model `Jv` over sequences, and the
//! executable `JsonValue` tree whose view is a `Jv`.

use vstd::prelude::*;

verus! {

/// Mathematical model of a JSON value. Numbers are kept as their lexeme
/// (the sequence of characters of the literal), strings as their decoded
/// characters, and objects as ordered key/value pairs (insertion order).
#[verifier::ext_equal]
pub enum Jv {
    Null,
    Bool(bool),
    Num(Seq<char>),
    Str(Seq<char>),
    Arr(Seq<Jv>),
    Obj(Seq<(Seq<char>, Jv)>),
}

/// Executable JSON value. Mirrors `Jv`; a number holds the literal text it
/// was written with, so no floating point is ever needed.
#[derive(Debug, PartialEq)]
pub enum JsonValue {
    Null,
    Bool(bool),
    Num(String),
    Str(String),
    Arr(Vec<JsonValue>),
    Obj(Vec<(String, JsonValue)>),
}

/// The model of an executable JSON value.
pub open spec fn jv_of(v: JsonValue) -> Jv
    decreases v, 2int,
{
    match v {
        JsonValue::Null => Jv::Null,
        JsonValue::Bool(b) => Jv::Bool(b),
        JsonValue::Num(s) => Jv::Num(s@),
        JsonValue::Str(s) => Jv::Str(s@),
        JsonValue::Arr(items) => Jv::Arr(jv_seq_of(items@)),
        JsonValue::Obj(fields) => Jv::Obj(jv_fields_of(fields@)),
    }
}

/// The models of a sequence of executable JSON values, elementwise.
pub open spec fn jv_seq_of(items: Seq<JsonValue>) -> Seq<Jv>
    decreases items, 3int,
{
    if items.len() == 0 {
        Seq::empty()
    } else {
        seq![jv_of(items[0])] + jv_seq_of(items.drop_first())
    }
}

/// The models of a sequence of key/value pairs, elementwise.
pub open spec fn jv_fields_of(fields: Seq<(String, JsonValue)>) -> Seq<(Seq<char>, Jv)>
    decreases fields, 3int,
{
    if fields.len() == 0 {
        Seq::empty()
    } else {
        seq![(fields[0].0@, jv_of(fields[0].1))] + jv_fields_of(fields.drop_first())
    }
}

/// Elementwise reading of `jv_seq_of`.
pub proof fn lemma_jv_seq_of(items: Seq<JsonValue>)
    ensures
        jv_seq_of(items).len() == items.len(),
        forall|i: int| 0 <= i < items.len() ==> jv_seq_of(items)[i] == jv_of(#[trigger] items[i]),
    decreases items.len(),
{
    if items.len() > 0 {
        lemma_jv_seq_of(items.drop_first());
        assert forall|i: int| 0 <= i < items.len() implies jv_seq_of(items)[i] == jv_of(
            #[trigger] items[i],
        ) by {
            if i > 0 {
                assert(items.drop_first()[i - 1] == items[i]);
                assert(jv_seq_of(items)[i] == jv_seq_of(items.drop_first())[i - 1]);
            }
        }
    }
}

/// Elementwise reading of `jv_fields_of`.
pub proof fn lemma_jv_fields_of(fields: Seq<(String, JsonValue)>)
    ensures
        jv_fields_of(fields).len() == fields.len(),
        forall|i: int|
            0 <= i < fields.len() ==> jv_fields_of(fields)[i] == (
                #[trigger] fields[i].0@,
                jv_of(fields[i].1),
            ),
    decreases fields.len(),
{
    if fields.len() > 0 {
        lemma_jv_fields_of(fields.drop_first());
        assert forall|i: int| 0 <= i < fields.len() implies jv_fields_of(fields)[i] == (
            #[trigger] fields[i].0@,
            jv_of(fields[i].1),
        ) by {
            if i > 0 {
                assert(fields.drop_first()[i - 1] == fields[i]);
                assert(jv_fields_of(fields)[i] == jv_fields_of(fields.drop_first())[i - 1]);
            }
        }
    }
}

pub proof fn lemma_jv_seq_of_push(items: Seq<JsonValue>, x: JsonValue)
    ensures
        jv_seq_of(items.push(x)) == jv_seq_of(items).push(jv_of(x)),
{
    lemma_jv_seq_of(items.push(x));
    lemma_jv_seq_of(items);
    assert forall|j: int| 0 <= j < items.len() + 1 implies jv_seq_of(items.push(x))[j]
        == jv_seq_of(items).push(jv_of(x))[j] by {
        if j < items.len() {
            assert(items.push(x)[j] == items[j]);
        } else {
            assert(items.push(x)[j] == x);
        }
    }
    assert(jv_seq_of(items.push(x)) =~= jv_seq_of(items).push(jv_of(x)));
}

pub proof fn lemma_jv_fields_of_push(fields: Seq<(String, JsonValue)>, k: String, x: JsonValue)
    ensures
        jv_fields_of(fields.push((k, x))) == jv_fields_of(fields).push((k@, jv_of(x))),
{
    lemma_jv_fields_of(fields.push((k, x)));
    lemma_jv_fields_of(fields);
    assert forall|j: int| 0 <= j < fields.len() + 1 implies jv_fields_of(fields.push((k, x)))[j]
        == jv_fields_of(fields).push((k@, jv_of(x)))[j] by {
        let fp = fields.push((k, x));
        assert(jv_fields_of(fp)[j] == (fp[j].0@, jv_of(fp[j].1)));
        if j < fields.len() {
            assert(fp[j] == fields[j]);
            assert(jv_fields_of(fields)[j] == (fields[j].0@, jv_of(fields[j].1)));
        } else {
            assert(fp[j] == (k, x));
        }
    }
    assert(jv_fields_of(fields.push((k, x))) =~= jv_fields_of(fields).push((k@, jv_of(x))));
}

impl View for JsonValue {
    type V = Jv;

    open spec fn view(&self) -> Jv {
        jv_of(*self)
    }
}

impl JsonValue {
    /// A deep copy, with the same model.
    pub fn dup(&self) -> (r: JsonValue)
        ensures
            r@ == self@,
        decreases self,
    {
        match self {
            JsonValue::Null => JsonValue::Null,
            JsonValue::Bool(b) => JsonValue::Bool(*b),
            JsonValue::Num(s) => JsonValue::Num(s.clone()),
            JsonValue::Str(s) => JsonValue::Str(s.clone()),
            JsonValue::Arr(items) => {
                let mut out: Vec<JsonValue> = Vec::new();
                let mut i: usize = 0;
                while i < items.len()
                    invariant
                        *self == JsonValue::Arr(*items),
                        i <= items@.len(),
                        out@.len() == i,
                        forall|j: int| 0 <= j < i ==> jv_of(#[trigger] out@[j]) == jv_of(
                            items@[j],
                        ),
                    decreases items@.len() - i,
                {
                    proof {
                        assert(decreases_to!(*self => self->Arr_0@[i as int]));
                        assert(items@[i as int] == self->Arr_0@[i as int]);
                    }
                    out.push(items[i].dup());
                    i = i + 1;
                }
                proof {
                    lemma_jv_seq_of(out@);
                    lemma_jv_seq_of(items@);
                    assert forall|j: int| 0 <= j < out@.len() implies jv_seq_of(out@)[j]
                        == jv_seq_of(items@)[j] by {
                        assert(jv_of(out@[j]) == jv_of(items@[j]));
                    }
                    assert(jv_seq_of(out@) =~= jv_seq_of(items@));
                }
                JsonValue::Arr(out)
            },
            JsonValue::Obj(fields) => {
                let mut out: Vec<(String, JsonValue)> = Vec::new();
                let mut i: usize = 0;
                while i < fields.len()
                    invariant
                        *self == JsonValue::Obj(*fields),
                        i <= fields@.len(),
                        out@.len() == i,
                        forall|j: int|
                            0 <= j < i ==> (#[trigger] out@[j]).0@ == fields@[j].0@ && jv_of(
                                out@[j].1,
                            ) == jv_of(fields@[j].1),
                    decreases fields@.len() - i,
                {
                    proof {
                        assert(decreases_to!(*self => self->Obj_0@[i as int].1));
                        assert(fields@[i as int] == self->Obj_0@[i as int]);
                    }
                    let entry = (fields[i].0.clone(), fields[i].1.dup());
                    out.push(entry);
                    i = i + 1;
                }
                proof {
                    lemma_jv_fields_of(out@);
                    lemma_jv_fields_of(fields@);
                    assert forall|j: int| 0 <= j < out@.len() implies jv_fields_of(out@)[j]
                        == jv_fields_of(fields@)[j] by {
                        assert(out@[j].0@ == fields@[j].0@);
                        assert(jv_of(out@[j].1) == jv_of(fields@[j].1));
                    }
                    assert(jv_fields_of(out@) =~= jv_fields_of(fields@));
                }
                JsonValue::Obj(out)
            },
        }
    }
}

} // verus!
