//! Path resolution: walking a value along a sequence of string segments
//! (object keys, or stringified array indices), truncating at the first
//! invalid segment, so that the longest valid prefix is followed.

use vstd::prelude::*;

use crate::value::{jv_fields_of, jv_of, jv_seq_of, lemma_jv_fields_of, lemma_jv_seq_of, Jv,
    JsonValue};

verus! {

pub open spec fn is_digit(c: char) -> bool {
    48 <= (c as u32) <= 57
}

pub open spec fn digit_val(c: char) -> int {
    (c as u32) - 48
}

/// The numeric value of a digit string, most significant digit first.
pub open spec fn digits_val(s: Seq<char>) -> int
    decreases s.len(),
{
    if s.len() == 0 {
        0
    } else {
        digits_val(s.drop_last()) * 10 + digit_val(s.last())
    }
}

/// A segment that can address an array element: one or more digits.
pub open spec fn is_index_seg(s: Seq<char>) -> bool {
    s.len() > 0 && forall|i: int| 0 <= i < s.len() ==> is_digit(s[i])
}

pub proof fn lemma_digits_val_nonneg(s: Seq<char>)
    requires
        forall|i: int| 0 <= i < s.len() ==> is_digit(s[i]),
    ensures
        digits_val(s) >= 0,
    decreases s.len(),
{
    if s.len() > 0 {
        lemma_digits_val_nonneg(s.drop_last());
    }
}

/// Dropping trailing digits never increases the value.
pub proof fn lemma_digits_val_take(s: Seq<char>, n: int)
    requires
        forall|i: int| 0 <= i < s.len() ==> is_digit(s[i]),
        0 <= n <= s.len(),
    ensures
        digits_val(s.take(n)) <= digits_val(s),
    decreases s.len() - n,
{
    if n < s.len() {
        lemma_digits_val_take(s, n + 1);
        let t = s.take(n + 1);
        assert(t.drop_last() =~= s.take(n));
        lemma_digits_val_nonneg(s.take(n));
        assert(digits_val(t) == digits_val(s.take(n)) * 10 + digit_val(t.last()));
        assert(digits_val(s.take(n)) * 10 >= digits_val(s.take(n)));
        assert(digit_val(t.last()) >= 0);
    } else {
        assert(s.take(n) =~= s);
    }
}

/// The value bound to key `k`, looking at members in order; if a document
/// holds the same key twice, the earliest member wins.
pub open spec fn obj_lookup(fields: Seq<(Seq<char>, Jv)>, k: Seq<char>) -> Option<Jv>
    decreases fields.len(),
{
    if fields.len() == 0 {
        None
    } else if fields[0].0 == k {
        Some(fields[0].1)
    } else {
        obj_lookup(fields.drop_first(), k)
    }
}

/// Whether `seg` addresses a child of `v`: a present key of an object, or an
/// in-bounds decimal index of an array.
pub open spec fn seg_valid(v: Jv, seg: Seq<char>) -> bool {
    match v {
        Jv::Obj(fields) => obj_lookup(fields, seg) is Some,
        Jv::Arr(items) => is_index_seg(seg) && digits_val(seg) < items.len(),
        _ => false,
    }
}

/// The child of `v` addressed by a valid `seg`.
pub open spec fn seg_child(v: Jv, seg: Seq<char>) -> Jv {
    match v {
        Jv::Obj(fields) => obj_lookup(fields, seg)->0,
        Jv::Arr(items) => items[digits_val(seg)],
        _ => v,
    }
}

/// Resolution of a candidate path against `v`: the longest valid prefix of
/// the path, and the value reached by it.
pub open spec fn resolve(v: Jv, path: Seq<Seq<char>>) -> (Seq<Seq<char>>, Jv)
    decreases path.len(),
{
    if path.len() == 0 {
        (Seq::empty(), v)
    } else if seg_valid(v, path[0]) {
        let (p, r) = resolve(seg_child(v, path[0]), path.drop_first());
        (seq![path[0]] + p, r)
    } else {
        (Seq::empty(), v)
    }
}

/// The prefix law of resolution: `resolve(v, path)` yields a prefix `p` of
/// `path`; resolving `p` itself reaches the same value with the whole of `p`
/// valid; and `p` is the longest such prefix, since the next requested
/// segment is invalid against the value reached.
pub proof fn lemma_resolve_prefix(v: Jv, path: Seq<Seq<char>>)
    ensures
        resolve(v, path).0.len() <= path.len(),
        resolve(v, path).0 == path.take(resolve(v, path).0.len() as int),
        resolve(v, resolve(v, path).0) == resolve(v, path),
        resolve(v, path).0.len() < path.len() ==> !seg_valid(
            resolve(v, path).1,
            path[resolve(v, path).0.len() as int],
        ),
    decreases path.len(),
{
    if path.len() == 0 {
        assert(resolve(v, path).0 =~= path.take(0));
    } else if seg_valid(v, path[0]) {
        let c = seg_child(v, path[0]);
        let rest = path.drop_first();
        lemma_resolve_prefix(c, rest);
        let (p, r) = resolve(c, rest);
        let whole = seq![path[0]] + p;
        assert(resolve(v, path).0 == whole);
        assert(whole.len() == p.len() + 1);
        assert(whole =~= path.take(whole.len() as int)) by {
            assert(p == rest.take(p.len() as int));
        }
        assert(whole[0] == path[0]);
        assert(whole.drop_first() =~= p);
        assert(resolve(v, whole) == (seq![path[0]] + resolve(c, p).0, resolve(c, p).1));
        assert(resolve(c, p) == (p, r));
        assert(resolve(v, whole) == (whole, r));
        if whole.len() < path.len() {
            assert(rest[p.len() as int] == path[whole.len() as int]);
        }
    } else {
        assert(resolve(v, path).0 =~= path.take(0));
    }
}

/// Parse a segment as a decimal index. `Some(n)` exactly when the segment is
/// all digits and its value fits a `usize`.
pub fn parse_index(s: &String) -> (r: Option<usize>)
    ensures
        match r {
            Some(n) => is_index_seg(s@) && digits_val(s@) == n as int,
            None => !is_index_seg(s@) || digits_val(s@) > usize::MAX,
        },
{
    let n: usize = s.as_str().unicode_len();
    if n == 0 {
        return None;
    }
    let mut acc: usize = 0;
    let mut i: usize = 0;
    while i < n
        invariant
            n == s@.len(),
            0 < n,
            i <= n,
            forall|j: int| 0 <= j < i ==> is_digit(s@[j]),
            acc as int == digits_val(s@.take(i as int)),
        decreases n - i,
    {
        let c = s.as_str().get_char(i);
        let code: u32 = c as u32;
        if code < 48 || code > 57 {
            assert(!is_digit(s@[i as int]));
            return None;
        }
        let d: usize = (code - 48) as usize;
        proof {
            assert(s@.take(i + 1).drop_last() =~= s@.take(i as int));
            assert(s@.take(i + 1).last() == s@[i as int]);
        }
        if acc > usize::MAX / 10 {
            proof {
                lemma_digits_val_nonneg(s@.take(i as int));
                assert(acc * 10 > usize::MAX - 9) by {
                    assert(usize::MAX / 10 * 10 + usize::MAX % 10 == usize::MAX);
                };
                if is_index_seg(s@) {
                    lemma_digits_val_take(s@, i + 1);
                }
            }
            return None;
        }
        let shifted: usize = acc * 10;
        proof {
            assert(acc * 10 <= usize::MAX / 10 * 10);
            assert(usize::MAX / 10 * 10 + usize::MAX % 10 == usize::MAX);
        }
        if shifted > usize::MAX - d {
            proof {
                if is_index_seg(s@) {
                    lemma_digits_val_take(s@, i + 1);
                }
            }
            return None;
        }
        acc = shifted + d;
        i = i + 1;
    }
    proof {
        assert(s@.take(n as int) =~= s@);
    }
    Some(acc)
}

/// Look a key up among an object's members, in order.
pub fn obj_get<'a>(fields: &'a Vec<(String, JsonValue)>, k: &String) -> (r: Option<&'a JsonValue>)
    ensures
        match r {
            Some(c) => obj_lookup(jv_fields_of(fields@), k@) == Some(c@),
            None => obj_lookup(jv_fields_of(fields@), k@) is None,
        },
{
    proof {
        lemma_jv_fields_of(fields@);
    }
    let ghost jfs = jv_fields_of(fields@);
    let mut i: usize = 0;
    proof {
        assert(jfs.skip(0) =~= jfs);
    }
    while i < fields.len()
        invariant
            jfs == jv_fields_of(fields@),
            jfs.len() == fields@.len(),
            forall|j: int|
                0 <= j < fields@.len() ==> jfs[j] == (
                    #[trigger] fields@[j].0@,
                    jv_of(fields@[j].1),
                ),
            i <= fields@.len(),
            obj_lookup(jfs, k@) == obj_lookup(jfs.skip(i as int), k@),
        decreases fields@.len() - i,
    {
        if fields[i].0.eq(k) {
            proof {
                assert(jfs.skip(i as int)[0] == jfs[i as int]);
            }
            return Some(&fields[i].1);
        }
        i = i + 1;
        proof {
            assert(jfs[i - 1] == (fields@[i - 1].0@, jv_of(fields@[i - 1].1)));
            assert(jfs.skip(i - 1)[0] == jfs[i - 1]);
            assert(jfs.skip(i - 1).drop_first() =~= jfs.skip(i as int));
            assert(obj_lookup(jfs.skip(i - 1), k@) == obj_lookup(jfs.skip(i as int), k@));
        }
    }
    proof {
        assert(jfs.skip(i as int).len() == 0);
        assert(obj_lookup(jfs.skip(i as int), k@) is None);
    }
    None
}

/// Resolve a candidate path against a root value: the longest valid prefix
/// and a copy of the value it reaches.
pub fn resolve_path(root: &JsonValue, path: &Vec<String>) -> (r: (Vec<String>, JsonValue))
    ensures
        r.0.deep_view() == resolve(root@, path.deep_view()).0,
        r.1@ == resolve(root@, path.deep_view()).1,
{
    let ghost full = path.deep_view();
    let mut cur: &JsonValue = root;
    let mut out: Vec<String> = Vec::new();
    let mut i: usize = 0;
    proof {
        assert(full.skip(0) =~= full);
        assert(out.deep_view() =~= full.take(0));
    }
    while i < path.len()
        invariant
            full == path.deep_view(),
            full.len() == path@.len(),
            forall|j: int| 0 <= j < full.len() ==> full[j] == #[trigger] path@[j]@,
            i <= path@.len(),
            out.deep_view() == full.take(i as int),
            resolve(root@, full).0 == full.take(i as int) + resolve(cur@, full.skip(i as int)).0,
            resolve(root@, full).1 == resolve(cur@, full.skip(i as int)).1,
        decreases path@.len() - i,
    {
        let ghost restpath = full.skip(i as int);
        proof {
            assert(restpath[0] == full[i as int]);
        }
        let seg: &String = &path[i];
        let next: Option<&JsonValue> = match cur {
            JsonValue::Obj(fields) => obj_get(fields, seg),
            JsonValue::Arr(items) => {
                let alen: usize = items.len();
                match parse_index(seg) {
                    Some(n) => {
                        proof {
                            lemma_jv_seq_of(items@);
                        }
                        if n < alen {
                            proof {
                                assert(cur@ == Jv::Arr(jv_seq_of(items@)));
                                assert(seg_valid(cur@, seg@));
                                assert(seg_child(cur@, seg@) == jv_seq_of(items@)[n as int]);
                            }
                            Some(&items[n])
                        } else {
                            None
                        }
                    },
                    None => {
                        proof {
                            lemma_jv_seq_of(items@);
                            assert(cur@ == Jv::Arr(jv_seq_of(items@)));
                            assert(!seg_valid(cur@, seg@));
                        }
                        None
                    },
                }
            },
            _ => None,
        };
        match next {
            Some(c) => {
                proof {
                    assert(seg_valid(cur@, restpath[0]));
                    assert(seg_child(cur@, restpath[0]) == c@);
                    assert(restpath.drop_first() =~= full.skip(i + 1));
                    assert(resolve(cur@, restpath) == (
                        seq![restpath[0]] + resolve(c@, full.skip(i + 1)).0,
                        resolve(c@, full.skip(i + 1)).1,
                    ));
                }
                out.push(seg.clone());
                cur = c;
                i = i + 1;
                proof {
                    assert(out.deep_view() =~= full.take(i as int));
                    assert(full.take(i - 1) + (seq![full[i - 1]] + resolve(cur@, full.skip(i as int)).0)
                        =~= full.take(i as int) + resolve(cur@, full.skip(i as int)).0);
                }
            },
            None => {
                proof {
                    assert(!seg_valid(cur@, restpath[0]));
                    assert(resolve(cur@, restpath).0 =~= Seq::<Seq<char>>::empty());
                    assert(full.take(i as int) + Seq::<Seq<char>>::empty() =~= full.take(
                        i as int,
                    ));
                }
                return (out, cur.dup());
            },
        }
    }
    proof {
        assert(full.skip(i as int).len() == 0);
        assert(full.take(i as int) + Seq::<Seq<char>>::empty() =~= full.take(i as int));
    }
    (out, cur.dup())
}

} // verus!
