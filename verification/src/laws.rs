//! Laws of the parser, proved over the grammar specification.
//!
//! The central statement is [`lemma_whitespace_framing`]: surrounding
//! a valid JSON document with arbitrary whitespace does not change the
//! parsed result.  It rests on a shift property: a successful parse
//! reads nothing outside the characters it consumes, except to stop at
//! a following character that no grammar rule continues with — and
//! whitespace never continues any rule.

use vstd::prelude::*;

use crate::chars::{is_digit, is_ws};
use crate::error::ErrorKind;
use crate::grammar::{
    digits_end, hex4, lemma_digits_end, lemma_fuel_irrelevant, lemma_parse_advances,
    lemma_number_end, lemma_string_body_advances, lemma_value_at_same_ws, lemma_ws_end, number_end, parse_fuel,
    parse_result, string_body, value_at, elems_at, members_at, value_spec, ws_end,
};
use crate::value::SpecValue;

verus! {

broadcast use vstd::seq::group_seq_axioms;

/// `t` holds the characters of `s` shifted right by `d`, with only
/// whitespace after them.
spec fn extends_shifted(s: Seq<char>, t: Seq<char>, d: int) -> bool {
    &&& 0 <= d
    &&& s.len() + d <= t.len()
    &&& (forall|j: int| d <= j < s.len() + d ==> #[trigger] t[j] == s[j - d])
    &&& (forall|j: int| s.len() + d <= j < t.len() ==> is_ws(#[trigger] t[j]))
}

/// Whitespace skipping stops exactly at the first non-whitespace
/// position.
proof fn lemma_ws_end_eq(t: Seq<char>, pos: int, q: int)
    requires
        0 <= pos <= q <= t.len(),
        forall|i: int| pos <= i < q ==> is_ws(#[trigger] t[i]),
        q == t.len() || !is_ws(t[q]),
    ensures
        ws_end(t, pos) == q,
    decreases q - pos,
{
    if pos < q {
        lemma_ws_end_eq(t, pos + 1, q);
    }
}

/// Skipping whitespace from anywhere inside a whitespace run gives
/// the same stopping position.
proof fn lemma_ws_skip(t: Seq<char>, a: int, b: int)
    requires
        0 <= a <= b <= t.len(),
        forall|i: int| a <= i < b ==> is_ws(#[trigger] t[i]),
    ensures
        ws_end(t, a) == ws_end(t, b),
    decreases b - a,
{
    if a < b {
        lemma_ws_skip(t, a + 1, b);
    }
}

/// Digit scanning stops exactly at the first non-digit position.
proof fn lemma_digits_end_eq(t: Seq<char>, pos: int, q: int)
    requires
        0 <= pos <= q <= t.len(),
        forall|i: int| pos <= i < q ==> is_digit(#[trigger] t[i]),
        q == t.len() || !is_digit(t[q]),
    ensures
        digits_end(t, pos) == q,
    decreases q - pos,
{
    if pos < q {
        lemma_digits_end_eq(t, pos + 1, q);
    }
}

/// Whitespace skipping shifts: inside the embedded text it stops at
/// the same character; at its end it runs through the added trailing
/// whitespace.
proof fn lemma_ws_end_shift(s: Seq<char>, t: Seq<char>, d: int, pos: int)
    requires
        extends_shifted(s, t, d),
        0 <= pos <= s.len(),
    ensures
        ws_end(s, pos) < s.len() ==> ws_end(t, pos + d) == ws_end(s, pos) + d,
        ws_end(s, pos) == s.len() ==> ws_end(t, pos + d) == t.len(),
{
    lemma_ws_end(s, pos);
    let e = ws_end(s, pos);
    if e < s.len() {
        lemma_ws_end_eq(t, pos + d, e + d);
    } else {
        lemma_ws_end_eq(t, pos + d, t.len() as int);
    }
}

/// Digit scanning shifts: nothing after the embedded text is a digit.
proof fn lemma_digits_end_shift(s: Seq<char>, t: Seq<char>, d: int, pos: int)
    requires
        extends_shifted(s, t, d),
        0 <= pos <= s.len(),
    ensures
        digits_end(t, pos + d) == digits_end(s, pos) + d,
{
    lemma_digits_end(s, pos);
    let e = digits_end(s, pos);
    if e < s.len() {
        lemma_digits_end_eq(t, pos + d, e + d);
    } else {
        lemma_digits_end_eq(t, pos + d, e + d);
    }
}

/// A successful number parse shifts along with its text.
proof fn lemma_number_end_shift(s: Seq<char>, t: Seq<char>, d: int, pos: int)
    requires
        extends_shifted(s, t, d),
        0 <= pos <= s.len(),
    ensures
        number_end(s, pos) matches Ok(e) ==> number_end(t, pos + d) == Ok::<int, ErrorKind>(e + d),
{
    if number_end(s, pos) is Ok {
        let p1 = if pos < s.len() && s[pos] == '-' {
            pos + 1
        } else {
            pos
        };
        lemma_digits_end(s, pos);
        lemma_digits_end_shift(s, t, d, p1);
        lemma_digits_end(s, p1);
        let p2 = digits_end(s, p1);
        if p2 < s.len() && s[p2] == '.' {
            lemma_digits_end_shift(s, t, d, p2 + 1);
            lemma_digits_end(s, p2 + 1);
        }
        let p3 = if p2 < s.len() && s[p2] == '.' {
            digits_end(s, p2 + 1)
        } else {
            p2
        };
        if p3 < s.len() && (s[p3] == 'e' || s[p3] == 'E') {
            let p4 = if p3 + 1 < s.len() && (s[p3 + 1] == '+' || s[p3 + 1] == '-') {
                p3 + 2
            } else {
                p3 + 1
            };
            lemma_digits_end_shift(s, t, d, p4);
            lemma_digits_end(s, p4);
        }
    }
}

/// A successful string parse shifts along with its text: every
/// character it reads lies before the closing quote.
proof fn lemma_string_body_shift(s: Seq<char>, t: Seq<char>, d: int, pos: int)
    requires
        extends_shifted(s, t, d),
        0 <= pos <= s.len(),
    ensures
        string_body(s, pos) matches Ok((c, q)) ==> string_body(t, pos + d) == Ok::<
            (Seq<char>, int),
            ErrorKind,
        >((c, q + d)),
    decreases s.len() - pos,
{
    if string_body(s, pos) is Ok {
        if s[pos] == '"' {
        } else if s[pos] == '\\' {
            let e = s[pos + 1];
            if crate::grammar::is_simple_escape(e) {
                lemma_string_body_shift(s, t, d, pos + 2);
            } else {
                lemma_string_body_shift(s, t, d, pos + 6);
            }
        } else {
            lemma_string_body_shift(s, t, d, pos + 1);
        }
    }
}

/// A successful parse of a value, of array elements or of object
/// members shifts along with its text.
#[verifier::rlimit(100)]
#[verifier::spinoff_prover]
proof fn lemma_parse_shift(s: Seq<char>, t: Seq<char>, d: int, pos: int, fuel: nat)
    requires
        extends_shifted(s, t, d),
        0 <= pos <= s.len(),
    ensures
        value_at(s, pos, fuel) matches Ok((v, p)) ==> value_at(t, pos + d, fuel) == Ok::<
            (SpecValue, int),
            ErrorKind,
        >((v, p + d)),
        elems_at(s, pos, fuel) matches Ok((vs, p)) ==> elems_at(t, pos + d, fuel) == Ok::<
            (Seq<SpecValue>, int),
            ErrorKind,
        >((vs, p + d)),
        members_at(s, pos, fuel) matches Ok((ms, p)) ==> members_at(t, pos + d, fuel) == Ok::<
            (Seq<(Seq<char>, SpecValue)>, int),
            ErrorKind,
        >((ms, p + d)),
    decreases fuel,
{
    if fuel == 0 {
        return;
    }
    let sub = (fuel - 1) as nat;
    // The value statement.
    if value_at(s, pos, fuel) is Ok {
        let p = ws_end(s, pos);
        lemma_ws_end(s, pos);
        lemma_ws_end_shift(s, t, d, pos);
        let c = s[p];
        if c == 'n' || c == 't' || c == 'f' {
        } else if c == '"' {
            lemma_string_body_shift(s, t, d, p + 1);
            lemma_string_body_advances(s, p + 1);
        } else if c == '[' || c == '{' {
            let p1 = ws_end(s, p + 1);
            lemma_ws_end(s, p + 1);
            lemma_ws_end_shift(s, t, d, p + 1);
            if p1 < s.len() && (s[p1] == ']' || s[p1] == '}') {
            } else {
                if p1 == s.len() {
                    assert(value_at(s, p1, (sub - 1) as nat) is Err);
                    assert(elems_at(s, p1, sub) is Err);
                    assert(members_at(s, p1, sub) is Err);
                }
                lemma_parse_shift(s, t, d, p1, sub);
            }
        } else if c == '-' || is_digit(c) {
            lemma_number_end_shift(s, t, d, p);
            lemma_number_end(s, p);
            match number_end(s, p) {
                Ok(e) => {
                    assert(s.subrange(p, e) =~= t.subrange(p + d, e + d));
                },
                Err(_) => {},
            }
        }
    }
    // The element and member statements.
    match value_at(s, pos, sub) {
        Ok((v, p2)) => {
            lemma_parse_advances(s, pos, sub);
            lemma_parse_shift(s, t, d, pos, sub);
            let p3 = ws_end(s, p2);
            lemma_ws_end(s, p2);
            lemma_ws_end_shift(s, t, d, p2);
            if p3 < s.len() && s[p3] == ',' {
                lemma_parse_shift(s, t, d, p3 + 1, sub);
            }
            if matches!(v, SpecValue::Str(_)) && p3 < s.len() && s[p3] == ':' {
                match value_at(s, p3 + 1, sub) {
                    Ok((w, p4)) => {
                        lemma_parse_advances(s, p3 + 1, sub);
                        lemma_parse_shift(s, t, d, p3 + 1, sub);
                        let p5 = ws_end(s, p4);
                        lemma_ws_end(s, p4);
                        lemma_ws_end_shift(s, t, d, p4);
                        if p5 < s.len() && s[p5] == ',' {
                            lemma_parse_shift(s, t, d, p5 + 1, sub);
                        }
                    },
                    Err(_) => {},
                }
            }
        },
        Err(_) => {},
    }
}

/// A hexadecimal digit character, upper case.
pub open spec fn hex_digit_char(d: int) -> char {
    if d < 10 {
        ((0x30 + d) as u8) as char
    } else {
        ((0x41 + d - 10) as u8) as char
    }
}

/// The serialized form of one character of string content: the quote,
/// the backslash and the named control characters take their
/// two-character escapes, other control characters a unicode escape,
/// and every remaining character stands for itself.
pub open spec fn ser_char(c: char) -> Seq<char> {
    if c == '"' {
        seq!['\\', '"']
    } else if c == '\\' {
        seq!['\\', '\\']
    } else if c == '\n' {
        seq!['\\', 'n']
    } else if c == '\r' {
        seq!['\\', 'r']
    } else if c == '\t' {
        seq!['\\', 't']
    } else if c == '\u{0008}' {
        seq!['\\', 'b']
    } else if c == '\u{000C}' {
        seq!['\\', 'f']
    } else if (c as u32) < 0x20 {
        seq!['\\', 'u', '0', '0', hex_digit_char(c as u32 as int / 16), hex_digit_char(c as u32 as int % 16)]
    } else {
        seq![c]
    }
}

/// The serialized form of a string's content, character by character.
pub open spec fn ser_content(content: Seq<char>) -> Seq<char>
    decreases content.len(),
{
    if content.len() == 0 {
        Seq::empty()
    } else {
        ser_char(content[0]) + ser_content(content.drop_first())
    }
}

/// The serialized text of a value tree: the canonical JSON form
/// without any whitespace.
pub open spec fn json_text(v: SpecValue) -> Seq<char>
    decreases v, 0int, 0int,
{
    match v {
        SpecValue::Null => seq!['n', 'u', 'l', 'l'],
        SpecValue::Bool(b) => if b {
            seq!['t', 'r', 'u', 'e']
        } else {
            seq!['f', 'a', 'l', 's', 'e']
        },
        SpecValue::Num(t) => t,
        SpecValue::Str(c) => seq!['"'] + ser_content(c) + seq!['"'],
        SpecValue::Arr(vs) => seq!['['] + elems_text(vs, 0) + seq![']'],
        SpecValue::Obj(ms) => seq!['{'] + members_text(ms, 0) + seq!['}'],
    }
}

/// The serialized elements of an array, from index `i` on, separated
/// by commas.
pub open spec fn elems_text(vs: Seq<SpecValue>, i: int) -> Seq<char>
    decreases vs, vs.len() - i, 1int,
{
    if 0 <= i < vs.len() {
        if i + 1 < vs.len() {
            json_text(vs[i]) + seq![','] + elems_text(vs, i + 1)
        } else {
            json_text(vs[i])
        }
    } else {
        Seq::empty()
    }
}

/// The serialized members of an object, from index `i` on, separated
/// by commas.
pub open spec fn members_text(ms: Seq<(Seq<char>, SpecValue)>, i: int) -> Seq<char>
    decreases ms, ms.len() - i, 1int,
{
    if 0 <= i < ms.len() {
        let one = seq!['"'] + ser_content(ms[i].0) + seq!['"', ':'] + json_text(ms[i].1);
        if i + 1 < ms.len() {
            one + seq![','] + members_text(ms, i + 1)
        } else {
            one
        }
    } else {
        Seq::empty()
    }
}

/// The characters of `u` stand in `t` from position `pos` on.
spec fn text_at(t: Seq<char>, pos: int, u: Seq<char>) -> bool {
    &&& 0 <= pos
    &&& pos + u.len() <= t.len()
    &&& (forall|k: int| 0 <= k < u.len() ==> #[trigger] t[pos + k] == u[k])
}

/// A character that may directly follow a serialized value: a
/// separator or a closing bracket or brace.
spec fn closes_value(c: char) -> bool {
    c == ',' || c == ']' || c == '}'
}

/// Well-formed value trees: a number's text is exactly one number
/// literal, and an object's keys are distinct — as in every value the
/// parser produces.
pub open spec fn wf_value(v: SpecValue) -> bool
    decreases v, 0int, 0int,
{
    match v {
        SpecValue::Null => true,
        SpecValue::Bool(_) => true,
        SpecValue::Num(tx) => number_end(tx, 0) == Ok::<int, ErrorKind>(tx.len() as int),
        SpecValue::Str(_) => true,
        SpecValue::Arr(vs) => wf_elems(vs, 0),
        SpecValue::Obj(ms) => wf_members(ms, 0) && (forall|i: int, j: int|
            0 <= i < j < ms.len() ==> (#[trigger] ms[i].0) != (#[trigger] ms[j].0)),
    }
}

/// Every element from index `i` on is well-formed.
pub open spec fn wf_elems(vs: Seq<SpecValue>, i: int) -> bool
    decreases vs, vs.len() - i, 1int,
{
    if 0 <= i < vs.len() {
        wf_value(vs[i]) && wf_elems(vs, i + 1)
    } else {
        true
    }
}

/// Every member value from index `i` on is well-formed.
pub open spec fn wf_members(ms: Seq<(Seq<char>, SpecValue)>, i: int) -> bool
    decreases ms, ms.len() - i, 1int,
{
    if 0 <= i < ms.len() {
        wf_value(ms[i].1) && wf_members(ms, i + 1)
    } else {
        true
    }
}

/// The serialized text of a well-formed value is non-empty and starts
/// with a character that is neither whitespace nor a closing token.
proof fn lemma_json_text_head(v: SpecValue)
    requires
        wf_value(v),
    ensures
        json_text(v).len() > 0,
        !is_ws(json_text(v)[0]),
        !closes_value(json_text(v)[0]),
        json_text(v)[0] != ':',
{
    match v {
        SpecValue::Num(tx) => {
            lemma_number_end(tx, 0);
            let p1 = if 0 < tx.len() && tx[0] == '-' {
                1int
            } else {
                0int
            };
            lemma_digits_end(tx, p1);
            assert(tx[0] == '-' || is_digit(tx[0]));
        },
        _ => {},
    }
}

/// Serialized string content re-parses to the content it came from:
/// the text from `pos` on holds the serialized content followed by
/// the closing quote.
proof fn lemma_ser_content_parses(content: Seq<char>, t: Seq<char>, pos: int)
    requires
        text_at(t, pos, ser_content(content).push('"')),
    ensures
        string_body(t, pos) == Ok::<(Seq<char>, int), ErrorKind>(
            (content, pos + ser_content(content).len() + 1),
        ),
    decreases content.len(),
{
    let u = ser_content(content).push('"');
    if content.len() == 0 {
        assert(t[pos + 0] == u[0]);
        assert(t[pos] == '"');
        assert(content =~= Seq::<char>::empty());
    } else {
        let c = content[0];
        let e = ser_char(c);
        let rest = content.drop_first();
        assert(ser_content(content) == e + ser_content(rest));
        assert(u =~= e + ser_content(rest).push('"'));
        let u2 = ser_content(rest).push('"');
        assert forall|k: int| 0 <= k < u2.len() implies #[trigger] t[(pos + e.len()) + k]
            == u2[k] by {
            assert(t[pos + (e.len() + k)] == u[e.len() + k]);
            assert(u[e.len() + k] == u2[k]);
        }
        lemma_ser_content_parses(rest, t, pos + e.len());
        assert forall|k: int| 0 <= k < e.len() implies #[trigger] t[pos + k] == e[k] by {
            assert(t[pos + k] == u[k]);
        }
        assert(seq![c] + rest =~= content);
        if c == '"' || c == '\\' || c == '\n' || c == '\r' || c == '\t' || c == '\u{0008}' || c
            == '\u{000C}' {
            assert(t[pos + 0] == e[0] && t[pos + 1] == e[1]);
            assert(t[pos] == '\\');
            assert(crate::grammar::is_simple_escape(t[pos + 1]));
            assert(crate::grammar::simple_escape_char(t[pos + 1]) == c);
        } else if (c as u32) < 0x20 {
            assert(t[pos + 0] == e[0] && t[pos + 1] == e[1] && t[pos + 2] == e[2] && t[pos + 3]
                == e[3] && t[pos + 4] == e[4] && t[pos + 5] == e[5]);
            assert(t[pos] == '\\' && t[pos + 1] == 'u');
            let code = c as u32;
            assert(hex4(t, pos + 2) == Ok::<int, ErrorKind>(code as int)) by {
                assert(t[pos + 2] == '0' && t[pos + 3] == '0');
                assert(t[pos + 4] == hex_digit_char(code as int / 16));
                assert(t[pos + 5] == hex_digit_char(code as int % 16));
            }
            vstd::utf8::char_u32_cast(c, code);
            assert((code as int as u32) as char == c);
        } else {
            assert(t[pos + 0] == e[0]);
            assert(t[pos] == c);
            assert(c != '"' && c != '\\');
        }
    }
}

/// An embedded number literal re-parses to its own end: nothing that
/// may follow a value continues a number.
proof fn lemma_number_embed(tx: Seq<char>, t: Seq<char>, pos: int)
    requires
        number_end(tx, 0) == Ok::<int, ErrorKind>(tx.len() as int),
        text_at(t, pos, tx),
        pos + tx.len() == t.len() || closes_value(t[pos + tx.len()]),
    ensures
        number_end(t, pos) == Ok::<int, ErrorKind>(pos + tx.len()),
{
    let n = tx.len() as int;
    lemma_number_end(tx, 0);
    assert forall|j: int| pos <= j < pos + n implies #[trigger] t[j] == tx[j - pos] by {
        assert(t[pos + (j - pos)] == tx[j - pos]);
    }
    let p1 = if 0 < n && tx[0] == '-' {
        1int
    } else {
        0int
    };
    assert(0 < n);
    assert(t[pos + 0] == tx[0]);
    lemma_digits_end(tx, p1);
    let p2 = digits_end(tx, p1);
    assert(digits_end(t, pos + p1) == pos + p2) by {
        if p2 < n {
            lemma_digits_end_eq(t, pos + p1, pos + p2);
        } else {
            lemma_digits_end_eq(t, pos + p1, pos + p2);
        }
    }
    if p2 < n && tx[p2] == '.' {
        lemma_digits_end(tx, p2 + 1);
        let q = digits_end(tx, p2 + 1);
        assert(digits_end(t, pos + p2 + 1) == pos + q) by {
            lemma_digits_end_eq(t, pos + p2 + 1, pos + q);
        }
    }
    let p3 = if p2 < n && tx[p2] == '.' {
        digits_end(tx, p2 + 1)
    } else {
        p2
    };
    if p3 < n && (tx[p3] == 'e' || tx[p3] == 'E') {
        let p4 = if p3 + 1 < n && (tx[p3 + 1] == '+' || tx[p3 + 1] == '-') {
            p3 + 2
        } else {
            p3 + 1
        };
        lemma_digits_end(tx, p4);
        let q = digits_end(tx, p4);
        assert(digits_end(t, pos + p4) == pos + q) by {
            lemma_digits_end_eq(t, pos + p4, pos + q);
        }
    }
}

/// The serialized text of a well-formed value, embedded in a larger
/// text and followed by a separator, a closing token or the end,
/// re-parses to the value.
#[verifier::rlimit(100)]
#[verifier::spinoff_prover]
proof fn lemma_text_parses(v: SpecValue, t: Seq<char>, pos: int)
    requires
        wf_value(v),
        text_at(t, pos, json_text(v)),
        pos + json_text(v).len() == t.len() || closes_value(t[pos + json_text(v).len()]),
    ensures
        value_spec(t, pos) == Ok::<(SpecValue, int), ErrorKind>(
            (v, pos + json_text(v).len()),
        ),
    decreases v, 0int, 0int,
{
    let u = json_text(v);
    lemma_json_text_head(v);
    assert forall|j: int| pos <= j < pos + u.len() implies #[trigger] t[j] == u[j - pos] by {
        assert(t[pos + (j - pos)] == u[j - pos]);
    }
    assert(t[pos + 0] == u[0]);
    assert(ws_end(t, pos) == pos);
    match v {
        SpecValue::Null => {
            assert(t[pos + 1] == u[1] && t[pos + 2] == u[2] && t[pos + 3] == u[3]);
            assert(crate::grammar::has_null_at(t, pos));
        },
        SpecValue::Bool(b) => {
            if b {
                assert(t[pos + 1] == u[1] && t[pos + 2] == u[2] && t[pos + 3] == u[3]);
                assert(crate::grammar::has_true_at(t, pos));
            } else {
                assert(t[pos + 1] == u[1] && t[pos + 2] == u[2] && t[pos + 3] == u[3] && t[pos
                    + 4] == u[4]);
                assert(!crate::grammar::has_true_at(t, pos));
                assert(crate::grammar::has_false_at(t, pos));
            }
        },
        SpecValue::Num(tx) => {
            lemma_number_embed(tx, t, pos);
            assert(t.subrange(pos, pos + tx.len() as int) =~= tx);
        },
        SpecValue::Str(content) => {
            assert(t[pos] == '"');
            assert forall|k: int| 0 <= k < ser_content(content).push('"').len() implies
                #[trigger] t[(pos + 1) + k] == ser_content(content).push('"')[k] by {
                assert(u =~= seq!['"'] + ser_content(content).push('"'));
                assert(t[pos + (1 + k)] == u[1 + k]);
            }
            lemma_ser_content_parses(content, t, pos + 1);
        },
        SpecValue::Arr(vs) => {
            assert(t[pos] == '[');
            if vs.len() == 0 {
                assert(u =~= seq!['[', ']']);
                assert(t[pos + 1] == u[1]);
                assert(ws_end(t, pos + 1) == pos + 1);
                assert(vs =~= Seq::<SpecValue>::empty());
            } else {
                assert(u =~= seq!['['] + elems_text(vs, 0) + seq![']']);
                assert forall|k: int| 0 <= k < elems_text(vs, 0).len() implies #[trigger] t[(pos
                    + 1) + k] == elems_text(vs, 0)[k] by {
                    assert(t[pos + (1 + k)] == u[1 + k]);
                }
                assert(t[pos + 1 + elems_text(vs, 0).len() as int] == ']') by {
                    assert(t[pos + (1 + elems_text(vs, 0).len() as int)] == u[1
                        + elems_text(vs, 0).len() as int]);
                }
                lemma_elems_text_parses(vs, 0, t, pos + 1);
                lemma_json_text_head(vs[0]);
                assert(elems_text(vs, 0)[0] == json_text(vs[0])[0]) by {
                    assert(elems_text(vs, 0) == if 1 < vs.len() {
                        json_text(vs[0]) + seq![','] + elems_text(vs, 1)
                    } else {
                        json_text(vs[0])
                    });
                }
                assert(t[pos + 1] == elems_text(vs, 0)[0]);
                assert(ws_end(t, pos + 1) == pos + 1);
                crate::grammar::lemma_budget_step(t, pos + 1);
                assert(vs.subrange(0, vs.len() as int) =~= vs);
            }
        },
        SpecValue::Obj(ms) => {
            assert(t[pos] == '{');
            if ms.len() == 0 {
                assert(u =~= seq!['{', '}']);
                assert(t[pos + 1] == u[1]);
                assert(ws_end(t, pos + 1) == pos + 1);
                assert(crate::value::obj_from_pairs(Seq::<(Seq<char>, SpecValue)>::empty())
                    =~= Seq::<(Seq<char>, SpecValue)>::empty());
                assert(ms =~= Seq::<(Seq<char>, SpecValue)>::empty());
            } else {
                assert(u =~= seq!['{'] + members_text(ms, 0) + seq!['}']);
                assert forall|k: int| 0 <= k < members_text(ms, 0).len() implies #[trigger] t[(pos
                    + 1) + k] == members_text(ms, 0)[k] by {
                    assert(t[pos + (1 + k)] == u[1 + k]);
                }
                assert(t[pos + 1 + members_text(ms, 0).len() as int] == '}') by {
                    assert(t[pos + (1 + members_text(ms, 0).len() as int)] == u[1
                        + members_text(ms, 0).len() as int]);
                }
                lemma_members_text_parses(ms, 0, t, pos + 1);
                assert(ms.subrange(0, ms.len() as int) =~= ms);
                assert(members_text(ms, 0)[0] == '"') by {
                    let one = seq!['"'] + ser_content(ms[0].0) + seq!['"', ':'] + json_text(
                        ms[0].1,
                    );
                    assert(one[0] == '"');
                }
                assert(t[pos + 1] == members_text(ms, 0)[0]);
                assert(ws_end(t, pos + 1) == pos + 1);
                crate::grammar::lemma_budget_step(t, pos + 1);
                lemma_obj_from_pairs_unique(ms);
            }
        },
    }
}

/// The serialized elements of an array, embedded before a closing
/// bracket, re-parse to the elements.
#[verifier::rlimit(100)]
#[verifier::spinoff_prover]
proof fn lemma_elems_text_parses(vs: Seq<SpecValue>, i: int, t: Seq<char>, pos: int)
    requires
        0 <= i < vs.len(),
        wf_elems(vs, i),
        text_at(t, pos, elems_text(vs, i)),
        pos + elems_text(vs, i).len() < t.len(),
        t[pos + elems_text(vs, i).len()] == ']',
    ensures
        crate::grammar::elems_spec(t, pos) == Ok::<(Seq<SpecValue>, int), ErrorKind>(
            (vs.subrange(i, vs.len() as int), pos + elems_text(vs, i).len() + 1),
        ),
    decreases vs, vs.len() - i, 1int,
{
    let w = elems_text(vs, i);
    let u = json_text(vs[i]);
    assert forall|k: int| 0 <= k < u.len() implies #[trigger] t[pos + k] == u[k] by {
        assert(w == if i + 1 < vs.len() {
            u + seq![','] + elems_text(vs, i + 1)
        } else {
            u
        });
        assert(t[pos + k] == w[k]);
    }
    if i + 1 < vs.len() {
        assert(w == u + seq![','] + elems_text(vs, i + 1));
        assert(t[pos + u.len()] == ',') by {
            assert(t[pos + (u.len() as int)] == w[u.len() as int]);
        }
        lemma_text_parses(vs[i], t, pos);
        crate::grammar::lemma_budget_step(t, pos);
        assert(!is_ws(','));
        assert(ws_end(t, pos + u.len()) == pos + u.len());
        let pos2 = pos + u.len() + 1;
        assert forall|k: int| 0 <= k < elems_text(vs, i + 1).len() implies #[trigger] t[pos2 + k]
            == elems_text(vs, i + 1)[k] by {
            assert(t[pos + (u.len() + 1 + k)] == w[u.len() + 1 + k]);
        }
        assert(pos2 + elems_text(vs, i + 1).len() < t.len());
        assert(t[pos2 + elems_text(vs, i + 1).len()] == ']') by {
            assert(pos + w.len() == pos2 + elems_text(vs, i + 1).len());
        }
        lemma_elems_text_parses(vs, i + 1, t, pos2);
        crate::grammar::lemma_budget_step(t, pos2);
        assert(seq![vs[i]] + vs.subrange(i + 1, vs.len() as int) =~= vs.subrange(
            i,
            vs.len() as int,
        ));
    } else {
        assert(w == u);
        lemma_text_parses(vs[i], t, pos);
        crate::grammar::lemma_budget_step(t, pos);
        assert(!is_ws(']'));
        assert(ws_end(t, pos + u.len()) == pos + u.len());
        assert(seq![vs[i]] =~= vs.subrange(i, vs.len() as int));
    }
}

/// The serialized members of an object, embedded before a closing
/// brace, re-parse to the members in order.
#[verifier::rlimit(100)]
#[verifier::spinoff_prover]
proof fn lemma_members_text_parses(ms: Seq<(Seq<char>, SpecValue)>, i: int, t: Seq<char>, pos: int)
    requires
        0 <= i < ms.len(),
        wf_members(ms, i),
        text_at(t, pos, members_text(ms, i)),
        pos + members_text(ms, i).len() < t.len(),
        t[pos + members_text(ms, i).len()] == '}',
    ensures
        crate::grammar::members_spec(t, pos) == Ok::<(Seq<(Seq<char>, SpecValue)>, int), ErrorKind>(
            (ms.subrange(i, ms.len() as int), pos + members_text(ms, i).len() + 1),
        ),
    decreases ms, ms.len() - i, 1int,
{
    let w = members_text(ms, i);
    let key = ms[i].0;
    let kv = ms[i].1;
    let kt = seq!['"'] + ser_content(key).push('"');
    let one = seq!['"'] + ser_content(key) + seq!['"', ':'] + json_text(kv);
    assert(one =~= kt + seq![':'] + json_text(kv));
    assert(w == if i + 1 < ms.len() {
        one + seq![','] + members_text(ms, i + 1)
    } else {
        one
    });
    assert forall|k: int| 0 <= k < one.len() implies #[trigger] t[pos + k] == one[k] by {
        assert(t[pos + k] == w[k]);
    }
    // The key string.
    assert(t[pos + 0] == '"');
    assert forall|k: int| 0 <= k < ser_content(key).push('"').len() implies #[trigger] t[(pos + 1)
        + k] == ser_content(key).push('"')[k] by {
        assert(t[pos + (1 + k)] == one[1 + k]);
        assert(one[1 + k] == kt[1 + k]);
    }
    lemma_ser_content_parses(key, t, pos + 1);
    let pk = pos + kt.len();
    assert(ws_end(t, pos) == pos);
    crate::grammar::lemma_budget_step(t, pos);
    assert(value_spec(t, pos) == Ok::<(SpecValue, int), ErrorKind>((SpecValue::Str(key), pk)));
    // The colon.
    assert(t[pos + (kt.len() as int)] == one[kt.len() as int]);
    assert(t[pk] == ':');
    assert(!is_ws(':'));
    assert(ws_end(t, pk) == pk);
    // The member value.
    let pv = pk + 1;
    assert forall|k: int| 0 <= k < json_text(kv).len() implies #[trigger] t[pv + k] == json_text(
        kv,
    )[k] by {
        assert(t[pos + (kt.len() + 1 + k)] == one[kt.len() + 1 + k]);
    }
    let pe = pv + json_text(kv).len();
    assert(pe == pos + one.len());
    if i + 1 < ms.len() {
        assert(t[pos + (one.len() as int)] == w[one.len() as int]);
        assert(t[pe] == ',');
        lemma_text_parses(kv, t, pv);
        crate::grammar::lemma_budget_step(t, pv);
        assert(!is_ws(','));
        assert(ws_end(t, pe) == pe);
        let pos2 = pe + 1;
        assert forall|k: int| 0 <= k < members_text(ms, i + 1).len() implies #[trigger] t[pos2
            + k] == members_text(ms, i + 1)[k] by {
            assert(t[pos + (one.len() + 1 + k)] == w[one.len() + 1 + k]);
        }
        assert(pos2 + members_text(ms, i + 1).len() < t.len());
        assert(t[pos2 + members_text(ms, i + 1).len()] == '}') by {
            assert(pos + w.len() == pos2 + members_text(ms, i + 1).len());
        }
        lemma_members_text_parses(ms, i + 1, t, pos2);
        crate::grammar::lemma_budget_step(t, pos2);
        assert(seq![(key, kv)] + ms.subrange(i + 1, ms.len() as int) =~= ms.subrange(
            i,
            ms.len() as int,
        ));
    } else {
        assert(t[pe] == '}');
        lemma_text_parses(kv, t, pv);
        crate::grammar::lemma_budget_step(t, pv);
        assert(!is_ws('}'));
        assert(ws_end(t, pe) == pe);
        assert(seq![(key, kv)] =~= ms.subrange(i, ms.len() as int));
    }
}

/// A key that occurs in none of the pairs is not found.
proof fn lemma_key_absent(m: Seq<(Seq<char>, SpecValue)>, k: Seq<char>, i: int)
    requires
        0 <= i <= m.len(),
        forall|j: int| i <= j < m.len() ==> (#[trigger] m[j].0) != k,
    ensures
        crate::value::key_index_from(m, k, i) == -1,
    decreases m.len() - i,
{
    if i < m.len() {
        lemma_key_absent(m, k, i + 1);
    }
}

/// Folding pairs with distinct keys reproduces the pair sequence.
proof fn lemma_obj_from_pairs_unique(ms: Seq<(Seq<char>, SpecValue)>)
    requires
        forall|i: int, j: int| 0 <= i < j < ms.len() ==> (#[trigger] ms[i].0) != (
        #[trigger] ms[j].0),
    ensures
        crate::value::obj_from_pairs(ms) == ms,
    decreases ms.len(),
{
    if ms.len() > 0 {
        let prefix = ms.drop_last();
        lemma_obj_from_pairs_unique(prefix);
        lemma_key_absent(prefix, ms.last().0, 0);
        assert(crate::value::obj_from_pairs(ms) =~= ms);
    }
}

/// A found key stands among the pairs scanned.
proof fn lemma_key_found(m: Seq<(Seq<char>, SpecValue)>, k: Seq<char>, i: int)
    requires
        0 <= i <= m.len(),
    ensures
        crate::value::key_index_from(m, k, i) == -1 ==> forall|j: int|
            i <= j < m.len() ==> (#[trigger] m[j].0) != k,
    decreases m.len() - i,
{
    if i < m.len() {
        lemma_key_found(m, k, i + 1);
    }
}

/// Well-formedness of member values, stated element by element.
proof fn lemma_wf_members_index(ms: Seq<(Seq<char>, SpecValue)>, i: int)
    requires
        0 <= i <= ms.len(),
    ensures
        wf_members(ms, i) <==> (forall|j: int| i <= j < ms.len() ==> wf_value(
            #[trigger] ms[j].1,
        )),
    decreases ms.len() - i,
{
    if i < ms.len() {
        lemma_wf_members_index(ms, i + 1);
    }
}

/// Folding pairs into an object keeps every value well-formed and
/// every key distinct.
proof fn lemma_obj_from_pairs_wf(ps: Seq<(Seq<char>, SpecValue)>)
    requires
        forall|j: int| 0 <= j < ps.len() ==> wf_value(#[trigger] ps[j].1),
    ensures
        forall|j: int| 0 <= j < crate::value::obj_from_pairs(ps).len() ==> wf_value(
            #[trigger] crate::value::obj_from_pairs(ps)[j].1,
        ),
        forall|i: int, j: int| 0 <= i < j < crate::value::obj_from_pairs(ps).len() ==> (
        #[trigger] crate::value::obj_from_pairs(ps)[i].0) != (
        #[trigger] crate::value::obj_from_pairs(ps)[j].0),
    decreases ps.len(),
{
    if ps.len() > 0 {
        let prefix = ps.drop_last();
        let k = ps.last().0;
        let v = ps.last().1;
        lemma_obj_from_pairs_wf(prefix);
        let m = crate::value::obj_from_pairs(prefix);
        let idx = crate::value::key_index_from(m, k, 0);
        lemma_key_found(m, k, 0);
        crate::value::lemma_key_index_from(m, k, 0);
    }
}

/// A number literal cut out of a larger text is itself exactly one
/// number literal.
proof fn lemma_number_extract(s: Seq<char>, p: int, e: int)
    requires
        0 <= p <= s.len(),
        number_end(s, p) == Ok::<int, ErrorKind>(e),
    ensures
        number_end(s.subrange(p, e), 0) == Ok::<int, ErrorKind>(e - p),
{
    lemma_number_end(s, p);
    let tx = s.subrange(p, e);
    let p1 = if p < s.len() && s[p] == '-' {
        p + 1
    } else {
        p
    };
    lemma_digits_end(s, p1);
    let p2 = digits_end(s, p1);
    if p2 < s.len() && s[p2] == '.' {
        lemma_digits_end(s, p2 + 1);
    }
    let p3 = if p2 < s.len() && s[p2] == '.' {
        digits_end(s, p2 + 1)
    } else {
        p2
    };
    let p4 = if p3 + 1 < s.len() && (s[p3 + 1] == '+' || s[p3 + 1] == '-') {
        p3 + 2
    } else {
        p3 + 1
    };
    if p3 < s.len() && (s[p3] == 'e' || s[p3] == 'E') {
        lemma_digits_end(s, p4);
    }
    assert(p2 <= e <= s.len());
    lemma_digits_end_eq(tx, p1 - p, p2 - p);
    if p2 < s.len() && s[p2] == '.' {
        lemma_digits_end_eq(tx, p2 + 1 - p, digits_end(s, p2 + 1) - p);
    }
    if p3 < s.len() && (s[p3] == 'e' || s[p3] == 'E') {
        lemma_digits_end_eq(tx, p4 - p, digits_end(s, p4) - p);
    }
}

/// Every value the parser produces is well-formed: its number texts
/// are single number literals and its object keys are distinct.
#[verifier::rlimit(100)]
#[verifier::spinoff_prover]
proof fn lemma_parse_wf(s: Seq<char>, pos: int, fuel: nat)
    requires
        0 <= pos <= s.len(),
    ensures
        value_at(s, pos, fuel) matches Ok((v, p)) ==> wf_value(v),
        elems_at(s, pos, fuel) matches Ok((vs, p)) ==> (forall|j: int|
            0 <= j < vs.len() ==> wf_value(#[trigger] vs[j])),
        members_at(s, pos, fuel) matches Ok((ms, p)) ==> (forall|j: int|
            0 <= j < ms.len() ==> wf_value(#[trigger] ms[j].1)),
    decreases fuel, 1int,
{
    if fuel == 0 {
        return;
    }
    let sub = (fuel - 1) as nat;
    if value_at(s, pos, fuel) is Ok {
        let p = ws_end(s, pos);
        lemma_ws_end(s, pos);
        if p < s.len() {
            let c = s[p];
            if c == '[' {
                let p1 = ws_end(s, p + 1);
                lemma_ws_end(s, p + 1);
                if !(p1 < s.len() && s[p1] == ']') {
                    lemma_parse_wf(s, p1, sub);
                    match elems_at(s, p1, sub) {
                        Ok((vs, q)) => {
                            lemma_wf_elems_index(vs, 0);
                        },
                        Err(_) => {},
                    }
                }
            } else if c == '{' {
                let p1 = ws_end(s, p + 1);
                lemma_ws_end(s, p + 1);
                if !(p1 < s.len() && s[p1] == '}') {
                    lemma_parse_wf(s, p1, sub);
                    match members_at(s, p1, sub) {
                        Ok((ms, q)) => {
                            lemma_obj_from_pairs_wf(ms);
                            lemma_wf_members_index(crate::value::obj_from_pairs(ms), 0);
                        },
                        Err(_) => {},
                    }
                }
            } else if c == '-' || is_digit(c) {
                match number_end(s, p) {
                    Ok(e) => {
                        lemma_number_end(s, p);
                        lemma_number_extract(s, p, e);
                        assert(s.subrange(p, e).len() == e - p);
                    },
                    Err(_) => {},
                }
            }
        }
    }
    match value_at(s, pos, sub) {
        Ok((v, p2)) => {
            lemma_parse_advances(s, pos, sub);
            lemma_parse_wf(s, pos, sub);
            let p3 = ws_end(s, p2);
            lemma_ws_end(s, p2);
            if p3 < s.len() && s[p3] == ',' {
                lemma_parse_wf(s, p3 + 1, sub);
            }
            if matches!(v, SpecValue::Str(_)) && p3 < s.len() && s[p3] == ':' {
                match value_at(s, p3 + 1, sub) {
                    Ok((w, p4)) => {
                        lemma_parse_advances(s, p3 + 1, sub);
                        lemma_parse_wf(s, p3 + 1, sub);
                        let p5 = ws_end(s, p4);
                        lemma_ws_end(s, p4);
                        if p5 < s.len() && s[p5] == ',' {
                            lemma_parse_wf(s, p5 + 1, sub);
                        }
                    },
                    Err(_) => {},
                }
            }
        },
        Err(_) => {},
    }
}

/// Well-formedness of elements, stated element by element.
proof fn lemma_wf_elems_index(vs: Seq<SpecValue>, i: int)
    requires
        0 <= i <= vs.len(),
    ensures
        wf_elems(vs, i) <==> (forall|j: int| i <= j < vs.len() ==> wf_value(#[trigger] vs[j])),
    decreases vs.len() - i,
{
    if i < vs.len() {
        lemma_wf_elems_index(vs, i + 1);
    }
}

/// Law (round trip): re-parsing the serialized text of a well-formed
/// value tree yields an equal tree.  Well-formed means what the
/// parser guarantees of its own output: number texts are exactly one
/// number literal each, and object keys are distinct.
pub proof fn lemma_round_trip(v: SpecValue)
    requires
        wf_value(v),
    ensures
        parse_result(json_text(v)) == Ok::<SpecValue, ErrorKind>(v),
{
    let t = json_text(v);
    lemma_json_text_head(v);
    assert(text_at(t, 0, t));
    lemma_text_parses(v, t, 0);
    assert(ws_end(t, t.len() as int) == t.len());
}

/// Law (round trip, from the parser): a value tree produced by the
/// parser, serialized back to JSON text, re-parses to an equal tree.
pub proof fn lemma_parse_round_trip(s: Seq<char>)
    requires
        parse_result(s) is Ok,
    ensures
        parse_result(json_text(parse_result(s)->Ok_0)) == parse_result(s),
{
    let v = parse_result(s)->Ok_0;
    lemma_parse_wf(s, 0, parse_fuel(s));
    lemma_round_trip(v);
}

/// Law: surrounding a valid JSON document with arbitrary whitespace
/// does not change the parsed result.
pub proof fn lemma_whitespace_framing(s: Seq<char>, w1: Seq<char>, w2: Seq<char>)
    requires
        parse_result(s) is Ok,
        forall|i: int| 0 <= i < w1.len() ==> is_ws(#[trigger] w1[i]),
        forall|i: int| 0 <= i < w2.len() ==> is_ws(#[trigger] w2[i]),
    ensures
        parse_result(w1 + s + w2) == parse_result(s),
{
    let t = w1 + s + w2;
    let d = w1.len() as int;
    assert(extends_shifted(s, t, d));
    let big = parse_fuel(t);
    lemma_fuel_irrelevant(s, 0, parse_fuel(s), big);
    let (v, p) = value_spec(s, 0)->Ok_0;
    lemma_parse_advances(s, 0, parse_fuel(s));
    lemma_parse_shift(s, t, d, 0, big);
    assert(value_at(t, d, big) == Ok::<(SpecValue, int), ErrorKind>((v, p + d)));
    lemma_ws_skip(t, 0, d);
    lemma_value_at_same_ws(t, 0, d, big);
    assert(value_spec(t, 0) == Ok::<(SpecValue, int), ErrorKind>((v, p + d)));
    lemma_ws_end(s, p);
    lemma_ws_end_eq(t, p + d, t.len() as int);
    assert(ws_end(t, p + d) == t.len());
}

} // verus!
