//! Parsing JSON text: a specification-level recursive-descent parser over
//! character sequences, and an executable parser proved to return exactly
//! what the specification parser describes.

use vstd::prelude::*;

use crate::nav::is_digit;
use crate::pretty::chars_to_string;
use crate::value::{jv_fields_of, jv_of, jv_seq_of, lemma_jv_fields_of_push, lemma_jv_seq_of_push,
    Jv, JsonValue};

verus! {

pub open spec fn is_ws(c: char) -> bool {
    c == ' ' || c == '\n' || c == '\t' || c == '\r'
}

/// The input without its leading whitespace.
pub open spec fn skip_ws(s: Seq<char>) -> Seq<char>
    decreases s.len(),
{
    if s.len() > 0 && is_ws(s[0]) {
        skip_ws(s.drop_first())
    } else {
        s
    }
}

/// Characters that may occur in a number literal.
pub open spec fn is_num_char(c: char) -> bool {
    is_digit(c) || c == '-' || c == '+' || c == '.' || c == 'e' || c == 'E'
}

/// How many leading number characters the input has.
pub open spec fn num_len(s: Seq<char>) -> int
    decreases s.len(),
{
    if s.len() > 0 && is_num_char(s[0]) {
        1 + num_len(s.drop_first())
    } else {
        0
    }
}

/// How many leading digits the input has.
pub open spec fn digits_len(s: Seq<char>) -> int
    decreases s.len(),
{
    if s.len() > 0 && is_digit(s[0]) {
        1 + digits_len(s.drop_first())
    } else {
        0
    }
}

/// Whether `s` is a well-formed JSON number literal: an optional minus sign,
/// an integer part without a superfluous leading zero, an optional fraction
/// and an optional exponent.
pub open spec fn is_num_lexeme(s: Seq<char>) -> bool {
    let t0 = if s.len() > 0 && s[0] == '-' {
        s.drop_first()
    } else {
        s
    };
    let di = digits_len(t0);
    let t1 = t0.skip(di);
    let t2 = if t1.len() >= 2 && t1[0] == '.' && is_digit(t1[1]) {
        t1.drop_first().skip(digits_len(t1.drop_first()))
    } else {
        t1
    };
    let t3 = if t2.len() >= 2 && (t2[0] == 'e' || t2[0] == 'E') {
        if is_digit(t2[1]) {
            t2.drop_first().skip(digits_len(t2.drop_first()))
        } else if t2.len() >= 3 && (t2[1] == '+' || t2[1] == '-') && is_digit(t2[2]) {
            t2.skip(2).skip(digits_len(t2.skip(2)))
        } else {
            t2
        }
    } else {
        t2
    };
    &&& di > 0
    &&& (t0[0] == '0' ==> di == 1)
    &&& t2 != t1 || t1.len() == 0 || t1[0] != '.'
    &&& t3.len() == 0
}

/// A number lexeme as the parser accepts it: a nonempty run of number
/// characters forming a well-formed literal.
pub open spec fn wf_num(s: Seq<char>) -> bool {
    &&& s.len() > 0
    &&& (forall|i: int| 0 <= i < s.len() ==> is_num_char(s[i]))
    &&& is_num_lexeme(s)
}

/// Well-formed values: every number lexeme in the tree is one the parser
/// could have produced.
pub open spec fn wf(v: Jv) -> bool
    decreases v, 1int,
{
    match v {
        Jv::Null => true,
        Jv::Bool(_) => true,
        Jv::Num(lex) => wf_num(lex),
        Jv::Str(_) => true,
        Jv::Arr(items) => wf_seq(items),
        Jv::Obj(fields) => wf_fields(fields),
    }
}

pub open spec fn wf_seq(items: Seq<Jv>) -> bool
    decreases items, 2int,
{
    forall|i: int| 0 <= i < items.len() ==> wf(#[trigger] items[i])
}

pub open spec fn wf_fields(fields: Seq<(Seq<char>, Jv)>) -> bool
    decreases fields, 2int,
{
    forall|i: int| 0 <= i < fields.len() ==> wf((#[trigger] fields[i]).1)
}

pub open spec fn is_hex(c: char) -> bool {
    is_digit(c) || (97 <= (c as u32) <= 102) || (65 <= (c as u32) <= 70)
}

/// The value of one hexadecimal digit.
pub open spec fn hex_val(c: char) -> int {
    if is_digit(c) {
        (c as u32) - 48
    } else if 97 <= (c as u32) <= 102 {
        (c as u32) - 87
    } else {
        (c as u32) - 55
    }
}

/// A code point that a `char` can hold: not a surrogate, not out of range.
pub open spec fn valid_code(u: int) -> bool {
    u < 0xD800 || (0xE000 <= u && u <= 0x10FFFF)
}

/// Whether four hexadecimal digits stand at offset `i`.
pub open spec fn is_hex4(s: Seq<char>, i: int) -> bool {
    is_hex(s[i]) && is_hex(s[i + 1]) && is_hex(s[i + 2]) && is_hex(s[i + 3])
}

/// The value of the four hexadecimal digits at offset `i`.
pub open spec fn hex4(s: Seq<char>, i: int) -> int {
    hex_val(s[i]) * 4096 + hex_val(s[i + 1]) * 256 + hex_val(s[i + 2]) * 16 + hex_val(s[i + 3])
}

/// The character with code point `u`.
pub open spec fn char_of(u: int) -> char {
    (u as u32) as char
}

/// The decoding of a two-character escape.
pub open spec fn unesc_char(e: char) -> Option<char> {
    if e == '"' {
        Some('"')
    } else if e == '\\' {
        Some('\\')
    } else if e == '/' {
        Some('/')
    } else if e == 'n' {
        Some('\n')
    } else if e == 't' {
        Some('\t')
    } else if e == 'r' {
        Some('\r')
    } else if e == 'b' {
        Some('\u{8}')
    } else if e == 'f' {
        Some('\u{c}')
    } else {
        None
    }
}

/// Parse the body of a string literal, after its opening quote: the decoded
/// characters, and the input after the closing quote.
pub open spec fn parse_string_body(s: Seq<char>) -> Option<(Seq<char>, Seq<char>)>
    decreases s.len(),
{
    if s.len() == 0 {
        None
    } else if s[0] == '"' {
        Some((Seq::empty(), s.drop_first()))
    } else if s[0] == '\\' {
        if s.len() < 2 {
            None
        } else if s[1] == 'u' {
            if s.len() >= 6 && is_hex4(s, 2) {
                let u = hex4(s, 2);
                if u < 0xD800 || u > 0xDFFF {
                    match parse_string_body(s.skip(6)) {
                        Some((cs, r)) => Some((seq![char_of(u)] + cs, r)),
                        None => None,
                    }
                } else if u <= 0xDBFF {
                    // a high surrogate must be followed by a low surrogate
                    // escape; the pair encodes one astral code point
                    if s.len() >= 12 && s[6] == '\\' && s[7] == 'u' && is_hex4(s, 8) {
                        let u2 = hex4(s, 8);
                        if 0xDC00 <= u2 <= 0xDFFF {
                            let code = 0x10000 + (u - 0xD800) * 0x400 + (u2 - 0xDC00);
                            match parse_string_body(s.skip(12)) {
                                Some((cs, r)) => Some((seq![char_of(code)] + cs, r)),
                                None => None,
                            }
                        } else {
                            None
                        }
                    } else {
                        None
                    }
                } else {
                    None
                }
            } else {
                None
            }
        } else {
            match unesc_char(s[1]) {
                Some(c) => match parse_string_body(s.skip(2)) {
                    Some((cs, r)) => Some((seq![c] + cs, r)),
                    None => None,
                },
                None => None,
            }
        }
    } else if (s[0] as u32) < 32 {
        None
    } else {
        match parse_string_body(s.drop_first()) {
            Some((cs, r)) => Some((seq![s[0]] + cs, r)),
            None => None,
        }
    }
}

/// Parse a JSON value at the head of the input (after optional whitespace):
/// the value and the input just after it.
pub open spec fn parse_value(s: Seq<char>) -> Option<(Jv, Seq<char>)>
    decreases s.len(), 2int,
{
    let t = skip_ws(s);
    if t.len() == 0 {
        None
    } else if t[0] == 'n' {
        if t.len() >= 4 && t.take(4) == seq!['n', 'u', 'l', 'l'] {
            Some((Jv::Null, t.skip(4)))
        } else {
            None
        }
    } else if t[0] == 't' {
        if t.len() >= 4 && t.take(4) == seq!['t', 'r', 'u', 'e'] {
            Some((Jv::Bool(true), t.skip(4)))
        } else {
            None
        }
    } else if t[0] == 'f' {
        if t.len() >= 5 && t.take(5) == seq!['f', 'a', 'l', 's', 'e'] {
            Some((Jv::Bool(false), t.skip(5)))
        } else {
            None
        }
    } else if t[0] == '"' {
        match parse_string_body(t.drop_first()) {
            Some((cs, r)) => Some((Jv::Str(cs), r)),
            None => None,
        }
    } else if t[0] == '[' {
        let u = t.drop_first();
        let w = skip_ws(u);
        if w.len() > 0 && w[0] == ']' {
            Some((Jv::Arr(Seq::empty()), w.drop_first()))
        } else if u.len() < s.len() {
            match parse_elems(u) {
                Some((vs, r)) => Some((Jv::Arr(vs), r)),
                None => None,
            }
        } else {
            None
        }
    } else if t[0] == '{' {
        let u = t.drop_first();
        let w = skip_ws(u);
        if w.len() > 0 && w[0] == '}' {
            Some((Jv::Obj(Seq::empty()), w.drop_first()))
        } else if u.len() < s.len() {
            match parse_members(u) {
                Some((fs, r)) => Some((Jv::Obj(fs), r)),
                None => None,
            }
        } else {
            None
        }
    } else if is_num_char(t[0]) {
        let n = num_len(t);
        let lex = t.take(n);
        if is_num_lexeme(lex) {
            Some((Jv::Num(lex), t.skip(n)))
        } else {
            None
        }
    } else {
        None
    }
}

/// Parse one or more array elements and the closing bracket.
pub open spec fn parse_elems(s: Seq<char>) -> Option<(Seq<Jv>, Seq<char>)>
    decreases s.len(), 3int,
{
    match parse_value(s) {
        None => None,
        Some((v, r)) => {
            let w = skip_ws(r);
            if w.len() > 0 && w[0] == ',' {
                let r2 = w.drop_first();
                if r2.len() < s.len() {
                    match parse_elems(r2) {
                        Some((vs, rr)) => Some((seq![v] + vs, rr)),
                        None => None,
                    }
                } else {
                    None
                }
            } else if w.len() > 0 && w[0] == ']' {
                Some((seq![v], w.drop_first()))
            } else {
                None
            }
        },
    }
}

/// Parse one or more object members and the closing brace.
pub open spec fn parse_members(s: Seq<char>) -> Option<(Seq<(Seq<char>, Jv)>, Seq<char>)>
    decreases s.len(), 3int,
{
    let t = skip_ws(s);
    if t.len() > 0 && t[0] == '"' {
        match parse_string_body(t.drop_first()) {
            None => None,
            Some((k, r)) => {
                let w1 = skip_ws(r);
                if w1.len() > 0 && w1[0] == ':' && w1.drop_first().len() < s.len() {
                    match parse_value(w1.drop_first()) {
                        None => None,
                        Some((v, r2)) => {
                            let w2 = skip_ws(r2);
                            if w2.len() > 0 && w2[0] == ',' {
                                let r3 = w2.drop_first();
                                if r3.len() < s.len() {
                                    match parse_members(r3) {
                                        Some((fs, rr)) => Some((seq![(k, v)] + fs, rr)),
                                        None => None,
                                    }
                                } else {
                                    None
                                }
                            } else if w2.len() > 0 && w2[0] == '}' {
                                Some((seq![(k, v)], w2.drop_first()))
                            } else {
                                None
                            }
                        },
                    }
                } else {
                    None
                }
            },
        }
    } else {
        None
    }
}

/// Advance past leading whitespace.
fn p_skip_ws(s: &Vec<char>, pos: usize) -> (np: usize)
    requires
        pos <= s@.len(),
    ensures
        pos <= np <= s@.len(),
        s@.skip(np as int) == skip_ws(s@.skip(pos as int)),
        np < s@.len() ==> !is_ws(s@[np as int]),
{
    let mut cur: usize = pos;
    while cur < s.len() && (s[cur] == ' ' || s[cur] == '\n' || s[cur] == '\t' || s[cur] == '\r')
        invariant
            pos <= cur <= s@.len(),
            skip_ws(s@.skip(cur as int)) == skip_ws(s@.skip(pos as int)),
        decreases s@.len() - cur,
    {
        cur = cur + 1;
        proof {
            assert(s@.skip(cur - 1).drop_first() =~= s@.skip(cur as int));
            assert(s@.skip(cur - 1)[0] == s@[cur - 1]);
        }
    }
    proof {
        if cur < s@.len() {
            assert(s@.skip(cur as int)[0] == s@[cur as int]);
        }
        assert(skip_ws(s@.skip(cur as int)) == s@.skip(cur as int));
    }
    cur
}

/// Relies on `char::from_u32`: `Some` exactly for code points that are not
/// surrogates and not beyond the largest code point, holding that value.
#[verifier::external_body]
fn char_from_code(u: u32) -> (r: Option<char>)
    ensures
        r is Some <==> valid_code(u as int),
        r is Some ==> (r->0 as u32) == u,
{
    char::from_u32(u)
}

/// The decoded character of a two-character escape, as `unesc_char` has it.
fn unesc_c(e: char) -> (r: Option<char>)
    ensures
        r == unesc_char(e),
{
    if e == '"' {
        Some('"')
    } else if e == '\\' {
        Some('\\')
    } else if e == '/' {
        Some('/')
    } else if e == 'n' {
        Some('\n')
    } else if e == 't' {
        Some('\t')
    } else if e == 'r' {
        Some('\r')
    } else if e == 'b' {
        Some('\u{8}')
    } else if e == 'f' {
        Some('\u{c}')
    } else {
        None
    }
}

/// Whether `c` is a hexadecimal digit, as `is_hex` has it.
fn is_hex_c(c: char) -> (r: bool)
    ensures
        r == is_hex(c),
{
    let u: u32 = c as u32;
    (48 <= u && u <= 57) || (97 <= u && u <= 102) || (65 <= u && u <= 70)
}

/// The value of a hexadecimal digit, as `hex_val` has it.
fn hex_val_c(c: char) -> (r: u32)
    requires
        is_hex(c),
    ensures
        r as int == hex_val(c),
        r < 16,
{
    let u: u32 = c as u32;
    if 48 <= u && u <= 57 {
        u - 48
    } else if 97 <= u && u <= 102 {
        u - 87
    } else {
        u - 55
    }
}

/// Parse a string literal body starting at `pos` (after the opening quote).
fn p_string_body(s: &Vec<char>, pos: usize) -> (r: Option<(String, usize)>)
    requires
        pos <= s@.len(),
    ensures
        match r {
            Some(p) => pos < p.1 <= s@.len() && parse_string_body(s@.skip(pos as int)) == Some(
                (p.0@, s@.skip(p.1 as int)),
            ),
            None => parse_string_body(s@.skip(pos as int)) is None,
        },
{
    let mut acc: Vec<char> = Vec::new();
    let mut cur: usize = pos;
    loop
        invariant
            pos <= cur <= s@.len(),
            match parse_string_body(s@.skip(cur as int)) {
                Some((cs, rr)) => parse_string_body(s@.skip(pos as int)) == Some((acc@ + cs, rr)),
                None => parse_string_body(s@.skip(pos as int)) is None,
            },
        decreases s@.len() - cur,
    {
        if cur >= s.len() {
            proof {
                assert(s@.skip(cur as int).len() == 0);
            }
            return None;
        }
        let ghost t = s@.skip(cur as int);
        proof {
            assert(t[0] == s@[cur as int]);
        }
        let c = s[cur];
        if c == '"' {
            proof {
                assert(t.drop_first() =~= s@.skip(cur + 1));
                assert(acc@ + Seq::<char>::empty() =~= acc@);
            }
            return Some((chars_to_string(&acc), cur + 1));
        } else if c == '\\' {
            if cur + 1 >= s.len() {
                proof {
                    assert(t.len() < 2);
                }
                return None;
            }
            proof {
                assert(t[1] == s@[cur + 1]);
            }
            let e = s[cur + 1];
            if e == 'u' {
                if s.len() - cur < 6 {
                    proof {
                        assert(t.len() < 6);
                    }
                    return None;
                }
                proof {
                    assert(t[2] == s@[cur + 2]);
                    assert(t[3] == s@[cur + 3]);
                    assert(t[4] == s@[cur + 4]);
                    assert(t[5] == s@[cur + 5]);
                }
                let h2 = s[cur + 2];
                let h3 = s[cur + 3];
                let h4 = s[cur + 4];
                let h5 = s[cur + 5];
                if !(is_hex_c(h2) && is_hex_c(h3) && is_hex_c(h4) && is_hex_c(h5)) {
                    return None;
                }
                let u: u32 = hex_val_c(h2) * 4096 + hex_val_c(h3) * 256 + hex_val_c(h4) * 16
                    + hex_val_c(h5);
                proof {
                    assert(u as int == hex4(t, 2));
                }
                if u < 0xD800 || u > 0xDFFF {
                    match char_from_code(u) {
                        Some(dec) => {
                            proof {
                                let uu = u as int;
                                assert(dec as u32 == u);
                                vstd::utf8::char_u32_cast(dec, u);
                                assert((uu as u32) == u);
                                assert(dec == char_of(uu));
                                assert(t.skip(6) =~= s@.skip(cur + 6));
                            }
                            let ghost old_acc = acc@;
                            acc.push(dec);
                            cur = cur + 6;
                            proof {
                                match parse_string_body(s@.skip(cur as int)) {
                                    Some((cs, rr)) => {
                                        assert(old_acc + (seq![dec] + cs) =~= acc@ + cs);
                                    },
                                    None => {
                                    },
                                }
                            }
                        },
                        None => {
                            proof {
                                assert(false);
                            }
                            return None;
                        },
                    }
                } else if u <= 0xDBFF {
                    if s.len() - cur < 12 {
                        proof {
                            assert(t.len() < 12);
                        }
                        return None;
                    }
                    proof {
                        assert(t[6] == s@[cur + 6]);
                        assert(t[7] == s@[cur + 7]);
                        assert(t[8] == s@[cur + 8]);
                        assert(t[9] == s@[cur + 9]);
                        assert(t[10] == s@[cur + 10]);
                        assert(t[11] == s@[cur + 11]);
                    }
                    if !(s[cur + 6] == '\\' && s[cur + 7] == 'u') {
                        return None;
                    }
                    let g2 = s[cur + 8];
                    let g3 = s[cur + 9];
                    let g4 = s[cur + 10];
                    let g5 = s[cur + 11];
                    if !(is_hex_c(g2) && is_hex_c(g3) && is_hex_c(g4) && is_hex_c(g5)) {
                        return None;
                    }
                    let u2: u32 = hex_val_c(g2) * 4096 + hex_val_c(g3) * 256 + hex_val_c(g4) * 16
                        + hex_val_c(g5);
                    proof {
                        assert(u2 as int == hex4(t, 8));
                    }
                    if !(0xDC00 <= u2 && u2 <= 0xDFFF) {
                        return None;
                    }
                    let code: u32 = 0x10000 + (u - 0xD800) * 0x400 + (u2 - 0xDC00);
                    match char_from_code(code) {
                        Some(dec) => {
                            proof {
                                let cc = code as int;
                                assert(dec as u32 == code);
                                vstd::utf8::char_u32_cast(dec, code);
                                assert((cc as u32) == code);
                                assert(dec == char_of(cc));
                                assert(t.skip(12) =~= s@.skip(cur + 12));
                            }
                            let ghost old_acc = acc@;
                            acc.push(dec);
                            cur = cur + 12;
                            proof {
                                match parse_string_body(s@.skip(cur as int)) {
                                    Some((cs, rr)) => {
                                        assert(old_acc + (seq![dec] + cs) =~= acc@ + cs);
                                    },
                                    None => {
                                    },
                                }
                            }
                        },
                        None => {
                            proof {
                                assert(false);
                            }
                            return None;
                        },
                    }
                } else {
                    return None;
                }
            } else {
                match unesc_c(e) {
                    Some(dec) => {
                        proof {
                            assert(t.skip(2) =~= s@.skip(cur + 2));
                        }
                        let ghost old_acc = acc@;
                        acc.push(dec);
                        cur = cur + 2;
                        proof {
                            match parse_string_body(s@.skip(cur as int)) {
                                Some((cs, rr)) => {
                                    assert(old_acc + (seq![dec] + cs) =~= acc@ + cs);
                                },
                                None => {
                                },
                            }
                        }
                    },
                    None => {
                        return None;
                    },
                }
            }
        } else if (c as u32) < 32 {
            return None;
        } else {
            proof {
                assert(t.drop_first() =~= s@.skip(cur + 1));
            }
            let ghost old_acc = acc@;
            acc.push(c);
            cur = cur + 1;
            proof {
                match parse_string_body(s@.skip(cur as int)) {
                    Some((cs, rr)) => {
                        assert(old_acc + (seq![c] + cs) =~= acc@ + cs);
                    },
                    None => {
                    },
                }
            }
        }
    }
}

/// Whether `c` is a decimal digit, as `is_digit` has it.
fn is_digit_c(c: char) -> (r: bool)
    ensures
        r == is_digit(c),
{
    let u: u32 = c as u32;
    48 <= u && u <= 57
}

/// Whether `c` may occur in a number literal, as `is_num_char` has it.
fn is_num_char_c(c: char) -> (r: bool)
    ensures
        r == is_num_char(c),
{
    is_digit_c(c) || c == '-' || c == '+' || c == '.' || c == 'e' || c == 'E'
}

/// Count the digits starting at `i`.
fn digits_from(v: &Vec<char>, i: usize) -> (r: usize)
    requires
        i <= v@.len(),
    ensures
        r as int == digits_len(v@.skip(i as int)),
        i + r <= v@.len(),
{
    let mut e: usize = i;
    while e < v.len() && is_digit_c(v[e])
        invariant
            i <= e <= v@.len(),
            digits_len(v@.skip(i as int)) == (e - i) + digits_len(v@.skip(e as int)),
        decreases v@.len() - e,
    {
        e = e + 1;
        proof {
            assert(v@.skip(e - 1)[0] == v@[e - 1]);
            assert(v@.skip(e - 1).drop_first() =~= v@.skip(e as int));
        }
    }
    proof {
        if e < v@.len() {
            assert(v@.skip(e as int)[0] == v@[e as int]);
        }
        assert(digits_len(v@.skip(e as int)) == 0);
    }
    e - i
}

/// Whether `v` holds a well-formed number literal, as `is_num_lexeme` has it.
#[verifier::rlimit(100)]
fn is_num_lexeme_c(v: &Vec<char>) -> (r: bool)
    ensures
        r == is_num_lexeme(v@),
{
    let n: usize = v.len();
    let i0: usize = if n > 0 && v[0] == '-' {
        1
    } else {
        0
    };
    let ghost t0 = if v@.len() > 0 && v@[0] == '-' {
        v@.drop_first()
    } else {
        v@
    };
    proof {
        assert(t0 =~= v@.skip(i0 as int));
    }
    let d = digits_from(v, i0);
    if d == 0 {
        return false;
    }
    if v[i0] == '0' && d != 1 {
        proof {
            assert(t0[0] == v@[i0 as int]);
        }
        return false;
    }
    proof {
        assert(t0[0] == v@[i0 as int]);
    }
    let mut j: usize = i0 + d;
    let ghost t1 = t0.skip(d as int);
    proof {
        assert(t1 =~= v@.skip(j as int));
    }
    let ghost t2 = if t1.len() >= 2 && t1[0] == '.' && is_digit(t1[1]) {
        t1.drop_first().skip(digits_len(t1.drop_first()))
    } else {
        t1
    };
    if n - j > 1 && v[j] == '.' && is_digit_c(v[j + 1]) {
        proof {
            assert(t1[0] == v@[j as int]);
            assert(t1[1] == v@[j + 1]);
            assert(t1.drop_first() =~= v@.skip(j + 1));
        }
        let d2 = digits_from(v, j + 1);
        j = j + 1 + d2;
        proof {
            assert(t2 =~= v@.skip(j as int));
            assert(t2.len() < t1.len());
        }
    } else {
        proof {
            if t1.len() >= 2 {
                assert(t1[0] == v@[j as int]);
                assert(t1[1] == v@[j + 1]);
            } else if t1.len() == 1 {
                assert(t1[0] == v@[j as int]);
            }
            assert(t2 == t1);
        }
        if j < n && v[j] == '.' {
            proof {
                assert(t1[0] == v@[j as int]);
            }
            return false;
        }
    }
    let ghost t3 = if t2.len() >= 2 && (t2[0] == 'e' || t2[0] == 'E') {
        if is_digit(t2[1]) {
            t2.drop_first().skip(digits_len(t2.drop_first()))
        } else if t2.len() >= 3 && (t2[1] == '+' || t2[1] == '-') && is_digit(t2[2]) {
            t2.skip(2).skip(digits_len(t2.skip(2)))
        } else {
            t2
        }
    } else {
        t2
    };
    proof {
        assert(t2 =~= v@.skip(j as int));
        if t2.len() >= 1 {
            assert(t2[0] == v@[j as int]);
        }
        if t2.len() >= 2 {
            assert(t2[1] == v@[j + 1]);
        }
        if t2.len() >= 3 {
            assert(t2[2] == v@[j + 2]);
        }
    }
    if n - j > 1 && (v[j] == 'e' || v[j] == 'E') {
        let c1 = v[j + 1];
        let u1: u32 = c1 as u32;
        if 48 <= u1 && u1 <= 57 {
            proof {
                assert(t2.drop_first() =~= v@.skip(j + 1));
            }
            let d3 = digits_from(v, j + 1);
            j = j + 1 + d3;
            proof {
                assert(t3 =~= v@.skip(j as int));
            }
        } else if n - j > 2 && (c1 == '+' || c1 == '-') && is_digit_c(v[j + 2]) {
            proof {
                assert(t2.skip(2) =~= v@.skip(j + 2));
            }
            let d3 = digits_from(v, j + 2);
            j = j + 2 + d3;
            proof {
                assert(t3 =~= v@.skip(j as int));
            }
        } else {
            proof {
                assert(t3 == t2);
            }
            return false;
        }
    } else {
        proof {
            assert(t3 == t2);
        }
    }
    proof {
        assert(t3 =~= v@.skip(j as int));
        assert((t3.len() == 0) == (j == n));
    }
    j == n
}

/// Parse one JSON value starting at `pos`, whitespace allowed before it.
#[verifier::rlimit(100)]
#[verifier::spinoff_prover]
pub fn p_value(s: &Vec<char>, pos: usize) -> (r: Option<(JsonValue, usize)>)
    requires
        pos <= s@.len(),
    ensures
        match r {
            Some(p) => pos < p.1 <= s@.len() && parse_value(s@.skip(pos as int)) == Some(
                (p.0@, s@.skip(p.1 as int)),
            ),
            None => parse_value(s@.skip(pos as int)) is None,
        },
    decreases s@.len() - pos, 2int,
{
    let ghost sv = s@.skip(pos as int);
    let t0 = p_skip_ws(s, pos);
    let ghost t = skip_ws(sv);
    proof {
        assert(s@.skip(t0 as int) == t);
        assert(t.len() == s@.len() - t0);
    }
    if t0 >= s.len() {
        return None;
    }
    proof {
        assert(t[0] == s@[t0 as int]);
    }
    let c = s[t0];
    if c == 'n' {
        if s.len() - t0 < 4 {
            return None;
        }
        proof {
            assert(t[1] == s@[t0 + 1] && t[2] == s@[t0 + 2] && t[3] == s@[t0 + 3]);
        }
        if s[t0 + 1] == 'u' && s[t0 + 2] == 'l' && s[t0 + 3] == 'l' {
            proof {
                assert(t.take(4) =~= seq!['n', 'u', 'l', 'l']);
                assert(t.skip(4) =~= s@.skip(t0 + 4));
            }
            Some((JsonValue::Null, t0 + 4))
        } else {
            proof {
                assert(t.take(4)[1] == t[1] && t.take(4)[2] == t[2] && t.take(4)[3] == t[3]);
            }
            None
        }
    } else if c == 't' {
        if s.len() - t0 < 4 {
            return None;
        }
        proof {
            assert(t[1] == s@[t0 + 1] && t[2] == s@[t0 + 2] && t[3] == s@[t0 + 3]);
        }
        if s[t0 + 1] == 'r' && s[t0 + 2] == 'u' && s[t0 + 3] == 'e' {
            proof {
                assert(t.take(4) =~= seq!['t', 'r', 'u', 'e']);
                assert(t.skip(4) =~= s@.skip(t0 + 4));
            }
            Some((JsonValue::Bool(true), t0 + 4))
        } else {
            proof {
                assert(t.take(4)[1] == t[1] && t.take(4)[2] == t[2] && t.take(4)[3] == t[3]);
            }
            None
        }
    } else if c == 'f' {
        if s.len() - t0 < 5 {
            return None;
        }
        proof {
            assert(t[1] == s@[t0 + 1] && t[2] == s@[t0 + 2] && t[3] == s@[t0 + 3]);
            assert(t[4] == s@[t0 + 4]);
        }
        if s[t0 + 1] == 'a' && s[t0 + 2] == 'l' && s[t0 + 3] == 's' && s[t0 + 4] == 'e' {
            proof {
                assert(t.take(5) =~= seq!['f', 'a', 'l', 's', 'e']);
                assert(t.skip(5) =~= s@.skip(t0 + 5));
            }
            Some((JsonValue::Bool(false), t0 + 5))
        } else {
            proof {
                assert(t.take(5)[1] == t[1] && t.take(5)[2] == t[2] && t.take(5)[3] == t[3]
                    && t.take(5)[4] == t[4]);
            }
            None
        }
    } else if c == '"' {
        proof {
            assert(t.drop_first() =~= s@.skip(t0 + 1));
        }
        match p_string_body(s, t0 + 1) {
            Some(p) => {
                Some((JsonValue::Str(p.0), p.1))
            },
            None => None,
        }
    } else if c == '[' {
        let u_pos = t0 + 1;
        proof {
            assert(t.drop_first() =~= s@.skip(u_pos as int));
        }
        let w_pos = p_skip_ws(s, u_pos);
        let ghost w = skip_ws(t.drop_first());
        proof {
            assert(s@.skip(w_pos as int) == w);
            assert(w.len() == s@.len() - w_pos);
        }
        if w_pos < s.len() && s[w_pos] == ']' {
            proof {
                assert(w[0] == s@[w_pos as int]);
                assert(w.drop_first() =~= s@.skip(w_pos + 1));
                assert(jv_seq_of(Seq::<JsonValue>::empty()) =~= Seq::<Jv>::empty());
            }
            let out: Vec<JsonValue> = Vec::new();
            proof {
                assert(out@ =~= Seq::<JsonValue>::empty());
            }
            return Some((JsonValue::Arr(out), w_pos + 1));
        }
        proof {
            if w.len() > 0 {
                assert(w[0] == s@[w_pos as int]);
            }
        }
        match p_elems(s, u_pos) {
            Some(p) => Some((JsonValue::Arr(p.0), p.1)),
            None => None,
        }
    } else if c == '{' {
        let u_pos = t0 + 1;
        proof {
            assert(t.drop_first() =~= s@.skip(u_pos as int));
        }
        let w_pos = p_skip_ws(s, u_pos);
        let ghost w = skip_ws(t.drop_first());
        proof {
            assert(s@.skip(w_pos as int) == w);
            assert(w.len() == s@.len() - w_pos);
        }
        if w_pos < s.len() && s[w_pos] == '}' {
            proof {
                assert(w[0] == s@[w_pos as int]);
                assert(w.drop_first() =~= s@.skip(w_pos + 1));
                assert(jv_fields_of(Seq::<(String, JsonValue)>::empty()) =~= Seq::<
                    (Seq<char>, Jv),
                >::empty());
            }
            let out: Vec<(String, JsonValue)> = Vec::new();
            proof {
                assert(out@ =~= Seq::<(String, JsonValue)>::empty());
            }
            return Some((JsonValue::Obj(out), w_pos + 1));
        }
        proof {
            if w.len() > 0 {
                assert(w[0] == s@[w_pos as int]);
            }
        }
        match p_members(s, u_pos) {
            Some(p) => Some((JsonValue::Obj(p.0), p.1)),
            None => None,
        }
    } else {
        let u: u32 = c as u32;
        let numeric = (48 <= u && u <= 57) || c == '-' || c == '+' || c == '.' || c == 'e' || c
            == 'E';
        if !numeric {
            return None;
        }
        let mut e: usize = t0;
        while e < s.len() && is_num_char_c(s[e])
            invariant
                t0 <= e <= s@.len(),
                t == s@.skip(t0 as int),
                num_len(t) == (e - t0) + num_len(s@.skip(e as int)),
            decreases s@.len() - e,
        {
            e = e + 1;
            proof {
                assert(s@.skip(e - 1)[0] == s@[e - 1]);
                assert(s@.skip(e - 1).drop_first() =~= s@.skip(e as int));
            }
        }
        proof {
            if e < s@.len() {
                assert(s@.skip(e as int)[0] == s@[e as int]);
            }
            assert(num_len(s@.skip(e as int)) == 0);
            assert(num_len(t) == e - t0);
        }
        let mut lex: Vec<char> = Vec::new();
        let mut i: usize = t0;
        while i < e
            invariant
                t0 <= i <= e <= s@.len(),
                lex@ == s@.subrange(t0 as int, i as int),
            decreases e - i,
        {
            lex.push(s[i]);
            i = i + 1;
            proof {
                assert(lex@ =~= s@.subrange(t0 as int, i as int));
            }
        }
        proof {
            assert(lex@ =~= t.take(num_len(t)));
        }
        if is_num_lexeme_c(&lex) {
            proof {
                assert(t.skip(num_len(t)) =~= s@.skip(e as int));
            }
            Some((JsonValue::Num(chars_to_string(&lex)), e))
        } else {
            None
        }
    }
}

/// Parse the elements of a non-empty array and its closing bracket.
fn p_elems(s: &Vec<char>, pos: usize) -> (r: Option<(Vec<JsonValue>, usize)>)
    requires
        pos <= s@.len(),
    ensures
        match r {
            Some(p) => pos < p.1 <= s@.len() && parse_elems(s@.skip(pos as int)) == Some(
                (jv_seq_of(p.0@), s@.skip(p.1 as int)),
            ),
            None => parse_elems(s@.skip(pos as int)) is None,
        },
    decreases s@.len() - pos, 3int,
{
    let mut acc: Vec<JsonValue> = Vec::new();
    let mut cur: usize = pos;
    proof {
        assert(jv_seq_of(acc@) =~= Seq::<Jv>::empty());
    }
    loop
        invariant
            pos <= cur <= s@.len(),
            forall|items: Seq<Jv>, rr: Seq<char>|
                parse_elems(s@.skip(cur as int)) == Some::<(Seq<Jv>, Seq<char>)>((items, rr))
                    ==> parse_elems(s@.skip(pos as int)) == Some::<(Seq<Jv>, Seq<char>)>(
                    (jv_seq_of(acc@) + items, rr),
                ),
            parse_elems(s@.skip(cur as int)) is None ==> parse_elems(s@.skip(pos as int)) is None,
        decreases s@.len() - cur, 1int,
    {
        let ghost sc = s@.skip(cur as int);
        match p_value(s, cur) {
            None => {
                return None;
            },
            Some(pv) => {
                let v = pv.0;
                let np = pv.1;
                let w_pos = p_skip_ws(s, np);
                let ghost w = skip_ws(s@.skip(np as int));
                proof {
                    assert(s@.skip(w_pos as int) == w);
                    assert(w.len() == s@.len() - w_pos);
                    if w.len() > 0 {
                        assert(w[0] == s@[w_pos as int]);
                    }
                }
                if w_pos < s.len() && s[w_pos] == ',' {
                    proof {
                        assert(w.drop_first() =~= s@.skip(w_pos + 1));
                        lemma_jv_seq_of_push(acc@, v);
                        assert forall|items: Seq<Jv>, rr: Seq<char>|
                            parse_elems(s@.skip(w_pos + 1)) == Some::<(Seq<Jv>, Seq<char>)>(
                                (items, rr),
                            ) implies parse_elems(s@.skip(pos as int)) == Some::<
                            (Seq<Jv>, Seq<char>),
                        >((jv_seq_of(acc@.push(v)) + items, rr)) by {
                            assert(parse_elems(sc) == Some::<(Seq<Jv>, Seq<char>)>(
                                (seq![v@] + items, rr),
                            ));
                            assert(jv_seq_of(acc@) + (seq![v@] + items) =~= jv_seq_of(
                                acc@.push(v),
                            ) + items);
                        }
                        if parse_elems(s@.skip(w_pos + 1)) is None {
                            assert(parse_elems(sc) is None);
                        }
                    }
                    acc.push(v);
                    cur = w_pos + 1;
                } else if w_pos < s.len() && s[w_pos] == ']' {
                    proof {
                        assert(w.drop_first() =~= s@.skip(w_pos + 1));
                        assert(parse_elems(sc) == Some::<(Seq<Jv>, Seq<char>)>(
                            (seq![v@], s@.skip(w_pos + 1)),
                        ));
                        lemma_jv_seq_of_push(acc@, v);
                        assert(jv_seq_of(acc@) + seq![v@] =~= jv_seq_of(acc@.push(v)));
                    }
                    acc.push(v);
                    return Some((acc, w_pos + 1));
                } else {
                    proof {
                        assert(parse_elems(sc) is None);
                    }
                    return None;
                }
            },
        }
    }
}

/// Parse the members of a non-empty object and its closing brace.
fn p_members(s: &Vec<char>, pos: usize) -> (r: Option<(Vec<(String, JsonValue)>, usize)>)
    requires
        pos <= s@.len(),
    ensures
        match r {
            Some(p) => pos < p.1 <= s@.len() && parse_members(s@.skip(pos as int)) == Some(
                (jv_fields_of(p.0@), s@.skip(p.1 as int)),
            ),
            None => parse_members(s@.skip(pos as int)) is None,
        },
    decreases s@.len() - pos, 3int,
{
    let mut acc: Vec<(String, JsonValue)> = Vec::new();
    let mut cur: usize = pos;
    proof {
        assert(jv_fields_of(acc@) =~= Seq::<(Seq<char>, Jv)>::empty());
    }
    loop
        invariant
            pos <= cur <= s@.len(),
            forall|fs: Seq<(Seq<char>, Jv)>, rr: Seq<char>|
                parse_members(s@.skip(cur as int)) == Some::<(Seq<(Seq<char>, Jv)>, Seq<char>)>(
                    (fs, rr),
                ) ==> parse_members(s@.skip(pos as int)) == Some::<
                    (Seq<(Seq<char>, Jv)>, Seq<char>),
                >((jv_fields_of(acc@) + fs, rr)),
            parse_members(s@.skip(cur as int)) is None ==> parse_members(
                s@.skip(pos as int),
            ) is None,
        decreases s@.len() - cur, 1int,
    {
        let ghost sc = s@.skip(cur as int);
        let t0 = p_skip_ws(s, cur);
        let ghost t = skip_ws(sc);
        proof {
            assert(s@.skip(t0 as int) == t);
            assert(t.len() == s@.len() - t0);
            if t.len() > 0 {
                assert(t[0] == s@[t0 as int]);
            }
        }
        if t0 >= s.len() || !(s[t0] == '"') {
            return None;
        }
        proof {
            assert(t.drop_first() =~= s@.skip(t0 + 1));
        }
        match p_string_body(s, t0 + 1) {
            None => {
                return None;
            },
            Some(pk) => {
                let k = pk.0;
                let kp = pk.1;
                let w1 = p_skip_ws(s, kp);
                let ghost w1s = skip_ws(s@.skip(kp as int));
                proof {
                    assert(s@.skip(w1 as int) == w1s);
                    assert(w1s.len() == s@.len() - w1);
                    if w1s.len() > 0 {
                        assert(w1s[0] == s@[w1 as int]);
                    }
                }
                if w1 >= s.len() || !(s[w1] == ':') {
                    return None;
                }
                proof {
                    assert(w1s.drop_first() =~= s@.skip(w1 + 1));
                }
                match p_value(s, w1 + 1) {
                    None => {
                        return None;
                    },
                    Some(pv) => {
                        let v = pv.0;
                        let np = pv.1;
                        let w2 = p_skip_ws(s, np);
                        let ghost w2s = skip_ws(s@.skip(np as int));
                        proof {
                            assert(s@.skip(w2 as int) == w2s);
                            assert(w2s.len() == s@.len() - w2);
                            if w2s.len() > 0 {
                                assert(w2s[0] == s@[w2 as int]);
                            }
                        }
                        if w2 < s.len() && s[w2] == ',' {
                            proof {
                                assert(w2s.drop_first() =~= s@.skip(w2 + 1));
                                lemma_jv_fields_of_push(acc@, k, v);
                                assert forall|fs: Seq<(Seq<char>, Jv)>, rr: Seq<char>|
                                    parse_members(s@.skip(w2 + 1)) == Some::<
                                        (Seq<(Seq<char>, Jv)>, Seq<char>),
                                    >((fs, rr)) implies parse_members(s@.skip(pos as int))
                                    == Some::<(Seq<(Seq<char>, Jv)>, Seq<char>)>(
                                    (jv_fields_of(acc@.push((k, v))) + fs, rr),
                                ) by {
                                    assert(parse_members(sc) == Some::<
                                        (Seq<(Seq<char>, Jv)>, Seq<char>),
                                    >((seq![(k@, v@)] + fs, rr)));
                                    assert(jv_fields_of(acc@) + (seq![(k@, v@)] + fs)
                                        =~= jv_fields_of(acc@.push((k, v))) + fs);
                                }
                                if parse_members(s@.skip(w2 + 1)) is None {
                                    assert(parse_members(sc) is None);
                                }
                            }
                            acc.push((k, v));
                            cur = w2 + 1;
                        } else if w2 < s.len() && s[w2] == '}' {
                            proof {
                                assert(w2s.drop_first() =~= s@.skip(w2 + 1));
                                assert(parse_members(sc) == Some::<
                                    (Seq<(Seq<char>, Jv)>, Seq<char>),
                                >((seq![(k@, v@)], s@.skip(w2 + 1))));
                                lemma_jv_fields_of_push(acc@, k, v);
                                assert(jv_fields_of(acc@) + seq![(k@, v@)] =~= jv_fields_of(
                                    acc@.push((k, v)),
                                ));
                            }
                            acc.push((k, v));
                            return Some((acc, w2 + 1));
                        } else {
                            proof {
                                assert(parse_members(sc) is None);
                            }
                            return None;
                        }
                    },
                }
            },
        }
    }
}

/// The error a malformed document is reported with.
#[derive(Debug, PartialEq, Eq)]
pub struct ParseError;

/// Parse a whole document: `Ok` exactly when the text holds one well-formed
/// JSON value surrounded by nothing but whitespace, and then that value.
pub fn parse_json(text: &str) -> (r: Result<JsonValue, ParseError>)
    ensures
        match r {
            Ok(v) => parse_doc(text@) == Some(v@),
            Err(_) => parse_doc(text@) is None,
        },
{
    let chars = crate::pretty::str_to_chars(text);
    proof {
        assert(chars@.skip(0) =~= text@);
    }
    match p_value(&chars, 0) {
        Some(pv) => {
            let w = p_skip_ws(&chars, pv.1);
            proof {
                assert(skip_ws(chars@.skip(pv.1 as int)) == chars@.skip(w as int));
            }
            if w == chars.len() {
                Ok(pv.0)
            } else {
                Err(ParseError)
            }
        },
        None => Err(ParseError),
    }
}

/// The meaning of a whole document: a single value with only whitespace
/// around it.
pub open spec fn parse_doc(s: Seq<char>) -> Option<Jv> {
    match parse_value(s) {
        Some((v, r)) => if skip_ws(r).len() == 0 {
            Some(v)
        } else {
            None
        },
        None => None,
    }
}

} // verus!
