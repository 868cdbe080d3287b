//! The mathematical description of the JSON grammar and of the
//! parser's behaviour on it.
//!
//! The functions here compute, for an input character sequence and a
//! start position, exactly what a single left-to-right fail-fast pass
//! produces: the parsed value and the position after it, or the first
//! failure condition encountered.  The executable parser is proved to
//! return precisely these results.
//!
//! The mutually recursive family ([`value_at`], [`elems_at`],
//! [`members_at`]) carries an explicit recursion budget so that each
//! call terminates by construction; [`lemma_fuel_irrelevant`] shows
//! that any budget at least twice the remaining input length gives the
//! same answer, and [`value_spec`], [`elems_spec`] and [`members_spec`]
//! fix one such budget.

use vstd::prelude::*;

use crate::chars::{hex_value, is_digit, is_hex_digit, is_ws};
use crate::error::ErrorKind;
use crate::value::{obj_from_pairs, SpecValue};

verus! {

/// The first position at or after `pos` holding no whitespace.
pub open spec fn ws_end(s: Seq<char>, pos: int) -> int
    decreases s.len() - pos,
{
    if 0 <= pos < s.len() && is_ws(s[pos]) {
        ws_end(s, pos + 1)
    } else {
        pos
    }
}

/// The first position at or after `pos` holding no decimal digit.
pub open spec fn digits_end(s: Seq<char>, pos: int) -> int
    decreases s.len() - pos,
{
    if 0 <= pos < s.len() && is_digit(s[pos]) {
        digits_end(s, pos + 1)
    } else {
        pos
    }
}

/// The position after the number literal that starts at `pos`, or the
/// failure: an optional minus sign, one or more digits, an optional
/// fraction (`.` and one or more digits), an optional exponent (`e` or
/// `E`, an optional sign, one or more digits).
pub open spec fn number_end(s: Seq<char>, pos: int) -> Result<int, ErrorKind> {
    let p1 = if pos < s.len() && s[pos] == '-' {
        pos + 1
    } else {
        pos
    };
    let p2 = digits_end(s, p1);
    if p2 == p1 {
        Err(ErrorKind::MissingDigits)
    } else {
        let frac = if p2 < s.len() && s[p2] == '.' {
            let q = digits_end(s, p2 + 1);
            if q == p2 + 1 {
                Err(ErrorKind::MissingFractionDigits)
            } else {
                Ok(q)
            }
        } else {
            Ok(p2)
        };
        match frac {
            Err(k) => Err(k),
            Ok(p3) => if p3 < s.len() && (s[p3] == 'e' || s[p3] == 'E') {
                let p4 = if p3 + 1 < s.len() && (s[p3 + 1] == '+' || s[p3 + 1] == '-') {
                    p3 + 2
                } else {
                    p3 + 1
                };
                let q = digits_end(s, p4);
                if q == p4 {
                    Err(ErrorKind::MissingExponentDigits)
                } else {
                    Ok(q)
                }
            } else {
                Ok(p3)
            },
        }
    }
}

/// The value of the four hexadecimal digits starting at `pos`, read
/// one at a time, or the first failure: a missing character ends the
/// escape early, a non-hex character invalidates it.
pub open spec fn hex4(s: Seq<char>, pos: int) -> Result<int, ErrorKind> {
    if pos >= s.len() {
        Err(ErrorKind::IncompleteUnicodeEscape)
    } else if !is_hex_digit(s[pos]) {
        Err(ErrorKind::InvalidUnicodeEscape)
    } else if pos + 1 >= s.len() {
        Err(ErrorKind::IncompleteUnicodeEscape)
    } else if !is_hex_digit(s[pos + 1]) {
        Err(ErrorKind::InvalidUnicodeEscape)
    } else if pos + 2 >= s.len() {
        Err(ErrorKind::IncompleteUnicodeEscape)
    } else if !is_hex_digit(s[pos + 2]) {
        Err(ErrorKind::InvalidUnicodeEscape)
    } else if pos + 3 >= s.len() {
        Err(ErrorKind::IncompleteUnicodeEscape)
    } else if !is_hex_digit(s[pos + 3]) {
        Err(ErrorKind::InvalidUnicodeEscape)
    } else {
        Ok(
            hex_value(s[pos]) * 0x1000 + hex_value(s[pos + 1]) * 0x100 + hex_value(s[pos + 2])
                * 0x10 + hex_value(s[pos + 3]),
        )
    }
}

/// Whether a character names a single-character escape.
pub open spec fn is_simple_escape(c: char) -> bool {
    c == '"' || c == '\\' || c == '/' || c == 'b' || c == 'f' || c == 'n' || c == 'r' || c == 't'
}

/// The character that a single-character escape stands for.
pub open spec fn simple_escape_char(c: char) -> char {
    if c == 'b' {
        '\u{0008}'
    } else if c == 'f' {
        '\u{000C}'
    } else if c == 'n' {
        '\n'
    } else if c == 'r' {
        '\r'
    } else if c == 't' {
        '\t'
    } else {
        c
    }
}

/// The decoded content of the string whose opening quote stands just
/// before `pos`, together with the position after the closing quote,
/// or the first failure.
pub open spec fn string_body(s: Seq<char>, pos: int) -> Result<(Seq<char>, int), ErrorKind>
    decreases s.len() - pos,
{
    if !(0 <= pos < s.len()) {
        Err(ErrorKind::UnterminatedString)
    } else if s[pos] == '"' {
        Ok((Seq::empty(), pos + 1))
    } else if s[pos] == '\\' {
        if !(pos + 1 < s.len()) {
            Err(ErrorKind::UnterminatedEscape)
        } else {
            let e = s[pos + 1];
            if is_simple_escape(e) {
                match string_body(s, pos + 2) {
                    Ok((t, q)) => Ok((seq![simple_escape_char(e)] + t, q)),
                    Err(k) => Err(k),
                }
            } else if e == 'u' {
                match hex4(s, pos + 2) {
                    Err(k) => Err(k),
                    Ok(code) => if 0xD800 <= code < 0xE000 {
                        Err(ErrorKind::InvalidCodePoint(code as u16))
                    } else {
                        match string_body(s, pos + 6) {
                            Ok((t, q)) => Ok((seq![(code as u32) as char] + t, q)),
                            Err(k) => Err(k),
                        }
                    },
                }
            } else {
                Err(ErrorKind::InvalidEscape(e))
            }
        }
    } else {
        match string_body(s, pos + 1) {
            Ok((t, q)) => Ok((seq![s[pos]] + t, q)),
            Err(k) => Err(k),
        }
    }
}

/// Whether the four characters of `null` stand at `pos`.
pub open spec fn has_null_at(s: Seq<char>, pos: int) -> bool {
    pos + 4 <= s.len() && s[pos] == 'n' && s[pos + 1] == 'u' && s[pos + 2] == 'l' && s[pos + 3]
        == 'l'
}

/// Whether the four characters of `true` stand at `pos`.
pub open spec fn has_true_at(s: Seq<char>, pos: int) -> bool {
    pos + 4 <= s.len() && s[pos] == 't' && s[pos + 1] == 'r' && s[pos + 2] == 'u' && s[pos + 3]
        == 'e'
}

/// Whether the five characters of `false` stand at `pos`.
pub open spec fn has_false_at(s: Seq<char>, pos: int) -> bool {
    pos + 5 <= s.len() && s[pos] == 'f' && s[pos + 1] == 'a' && s[pos + 2] == 'l' && s[pos + 3]
        == 's' && s[pos + 4] == 'e'
}

/// The value whose first character stands at or after `pos` (leading
/// whitespace is skipped), with the position after it, or the first
/// failure; `fuel` bounds the recursion depth.
pub open spec fn value_at(s: Seq<char>, pos: int, fuel: nat) -> Result<
    (SpecValue, int),
    ErrorKind,
>
    decreases fuel,
{
    if fuel == 0 {
        Err(ErrorKind::UnexpectedEndOfInput)
    } else {
        let p = ws_end(s, pos);
        if p >= s.len() {
            Err(ErrorKind::UnexpectedEndOfInput)
        } else {
            let c = s[p];
            if c == 'n' {
                if has_null_at(s, p) {
                    Ok((SpecValue::Null, p + 4))
                } else {
                    Err(ErrorKind::InvalidNullLiteral)
                }
            } else if c == 't' || c == 'f' {
                if has_true_at(s, p) {
                    Ok((SpecValue::Bool(true), p + 4))
                } else if has_false_at(s, p) {
                    Ok((SpecValue::Bool(false), p + 5))
                } else {
                    Err(ErrorKind::InvalidBooleanLiteral)
                }
            } else if c == '"' {
                match string_body(s, p + 1) {
                    Ok((t, q)) => Ok((SpecValue::Str(t), q)),
                    Err(k) => Err(k),
                }
            } else if c == '[' {
                let p1 = ws_end(s, p + 1);
                if p1 < s.len() && s[p1] == ']' {
                    Ok((SpecValue::Arr(Seq::empty()), p1 + 1))
                } else {
                    match elems_at(s, p1, (fuel - 1) as nat) {
                        Ok((vs, q)) => Ok((SpecValue::Arr(vs), q)),
                        Err(k) => Err(k),
                    }
                }
            } else if c == '{' {
                let p1 = ws_end(s, p + 1);
                if p1 < s.len() && s[p1] == '}' {
                    Ok((SpecValue::Obj(Seq::empty()), p1 + 1))
                } else {
                    match members_at(s, p1, (fuel - 1) as nat) {
                        Ok((ms, q)) => Ok((SpecValue::Obj(obj_from_pairs(ms)), q)),
                        Err(k) => Err(k),
                    }
                }
            } else if c == '-' || is_digit(c) {
                match number_end(s, p) {
                    Ok(e) => Ok((SpecValue::Num(s.subrange(p, e)), e)),
                    Err(k) => Err(k),
                }
            } else {
                Err(ErrorKind::UnexpectedCharacter)
            }
        }
    }
}

/// The elements of the array whose first element starts at or after
/// `pos`, with the position after the closing bracket, or the first
/// failure.
pub open spec fn elems_at(s: Seq<char>, pos: int, fuel: nat) -> Result<
    (Seq<SpecValue>, int),
    ErrorKind,
>
    decreases fuel,
{
    if fuel == 0 {
        Err(ErrorKind::UnexpectedEndOfInput)
    } else {
        match value_at(s, pos, (fuel - 1) as nat) {
            Err(k) => Err(k),
            Ok((v, p2)) => {
                let p3 = ws_end(s, p2);
                if p3 >= s.len() {
                    Err(ErrorKind::UnterminatedArray)
                } else if s[p3] == ']' {
                    Ok((seq![v], p3 + 1))
                } else if s[p3] == ',' {
                    match elems_at(s, p3 + 1, (fuel - 1) as nat) {
                        Ok((vs, q)) => Ok((seq![v] + vs, q)),
                        Err(k) => Err(k),
                    }
                } else {
                    Err(ErrorKind::ExpectedCommaOrBracket(s[p3]))
                }
            },
        }
    }
}

/// The key-value pairs of the object whose first member starts at or
/// after `pos`, in textual order and with duplicates kept, with the
/// position after the closing brace, or the first failure.
pub open spec fn members_at(s: Seq<char>, pos: int, fuel: nat) -> Result<
    (Seq<(Seq<char>, SpecValue)>, int),
    ErrorKind,
>
    decreases fuel,
{
    if fuel == 0 {
        Err(ErrorKind::UnexpectedEndOfInput)
    } else {
        match value_at(s, pos, (fuel - 1) as nat) {
            Err(k) => Err(k),
            Ok((kv, p2)) => match kv {
                SpecValue::Str(key) => {
                    let p3 = ws_end(s, p2);
                    if !(p3 < s.len() && s[p3] == ':') {
                        Err(ErrorKind::ExpectedColon)
                    } else {
                        match value_at(s, p3 + 1, (fuel - 1) as nat) {
                            Err(k) => Err(k),
                            Ok((v, p4)) => {
                                let p5 = ws_end(s, p4);
                                if p5 >= s.len() {
                                    Err(ErrorKind::UnterminatedObject)
                                } else if s[p5] == '}' {
                                    Ok((seq![(key, v)], p5 + 1))
                                } else if s[p5] == ',' {
                                    match members_at(s, p5 + 1, (fuel - 1) as nat) {
                                        Ok((ms, q)) => Ok((seq![(key, v)] + ms, q)),
                                        Err(k) => Err(k),
                                    }
                                } else {
                                    Err(ErrorKind::ExpectedCommaOrBrace(s[p5]))
                                }
                            },
                        }
                    }
                },
                _ => Err(ErrorKind::ObjectKeyNotString),
            },
        }
    }
}

/// A recursion budget that is enough for every position of the input.
pub open spec fn parse_fuel(s: Seq<char>) -> nat {
    (2 * s.len() + 4) as nat
}

/// The value parse at `pos`, with the canonical budget.
pub open spec fn value_spec(s: Seq<char>, pos: int) -> Result<(SpecValue, int), ErrorKind> {
    value_at(s, pos, parse_fuel(s))
}

/// The array-element parse at `pos`, with the canonical budget.
pub open spec fn elems_spec(s: Seq<char>, pos: int) -> Result<(Seq<SpecValue>, int), ErrorKind> {
    elems_at(s, pos, parse_fuel(s))
}

/// The object-member parse at `pos`, with the canonical budget.
pub open spec fn members_spec(s: Seq<char>, pos: int) -> Result<
    (Seq<(Seq<char>, SpecValue)>, int),
    ErrorKind,
> {
    members_at(s, pos, parse_fuel(s))
}

/// Position bounds for whitespace skipping: the result lies between
/// `pos` and the input length, everything skipped is whitespace, and
/// the stopping character is none.
pub proof fn lemma_ws_end(s: Seq<char>, pos: int)
    ensures
        pos <= ws_end(s, pos),
        pos <= s.len() ==> ws_end(s, pos) <= s.len(),
        forall|i: int| pos <= i < ws_end(s, pos) ==> is_ws(s[i]),
        0 <= ws_end(s, pos) < s.len() ==> !is_ws(s[ws_end(s, pos)]),
    decreases s.len() - pos,
{
    if 0 <= pos < s.len() && is_ws(s[pos]) {
        lemma_ws_end(s, pos + 1);
    }
}

/// Position bounds for digit scanning, in the same shape as
/// [`lemma_ws_end`].
pub proof fn lemma_digits_end(s: Seq<char>, pos: int)
    ensures
        pos <= digits_end(s, pos),
        pos <= s.len() ==> digits_end(s, pos) <= s.len(),
        forall|i: int| pos <= i < digits_end(s, pos) ==> is_digit(s[i]),
        0 <= digits_end(s, pos) < s.len() ==> !is_digit(s[digits_end(s, pos)]),
    decreases s.len() - pos,
{
    if 0 <= pos < s.len() && is_digit(s[pos]) {
        lemma_digits_end(s, pos + 1);
    }
}

/// A successful number parse consumes at least one character and
/// stays within the input.
pub proof fn lemma_number_end(s: Seq<char>, pos: int)
    requires
        0 <= pos <= s.len(),
    ensures
        number_end(s, pos) matches Ok(e) ==> pos < e <= s.len(),
{
    let p1 = if pos < s.len() && s[pos] == '-' {
        pos + 1
    } else {
        pos
    };
    lemma_digits_end(s, p1);
    let p2 = digits_end(s, p1);
    if p2 != p1 {
        if p2 < s.len() && s[p2] == '.' {
            lemma_digits_end(s, p2 + 1);
        }
        let frac = if p2 < s.len() && s[p2] == '.' {
            digits_end(s, p2 + 1)
        } else {
            p2
        };
        if frac < s.len() && (s[frac] == 'e' || s[frac] == 'E') {
            let p4 = if frac + 1 < s.len() && (s[frac + 1] == '+' || s[frac + 1] == '-') {
                frac + 2
            } else {
                frac + 1
            };
            lemma_digits_end(s, p4);
        }
    }
}

/// A successful string parse ends after its opening position and
/// stays within the input.
pub proof fn lemma_string_body_advances(s: Seq<char>, pos: int)
    ensures
        string_body(s, pos) matches Ok((t, q)) ==> pos < q <= s.len(),
    decreases s.len() - pos,
{
    if 0 <= pos < s.len() {
        if s[pos] == '"' {
        } else if s[pos] == '\\' {
            if pos + 1 < s.len() {
                if is_simple_escape(s[pos + 1]) {
                    lemma_string_body_advances(s, pos + 2);
                } else if s[pos + 1] == 'u' {
                    if hex4(s, pos + 2) is Ok {
                        lemma_string_body_advances(s, pos + 6);
                    }
                }
            }
        } else {
            lemma_string_body_advances(s, pos + 1);
        }
    }
}

/// A successful parse of a value, of array elements or of object
/// members consumes at least one character and stays within the
/// input.
pub proof fn lemma_parse_advances(s: Seq<char>, pos: int, fuel: nat)
    requires
        0 <= pos <= s.len(),
    ensures
        value_at(s, pos, fuel) matches Ok((v, p)) ==> pos < p <= s.len(),
        elems_at(s, pos, fuel) matches Ok((vs, p)) ==> pos < p <= s.len(),
        members_at(s, pos, fuel) matches Ok((ms, p)) ==> pos < p <= s.len(),
    decreases fuel,
{
    if fuel > 0 {
        let p = ws_end(s, pos);
        lemma_ws_end(s, pos);
        if p < s.len() {
            let c = s[p];
            if c == '"' {
                lemma_string_body_advances(s, p + 1);
            } else if c == '[' || c == '{' {
                let p1 = ws_end(s, p + 1);
                lemma_ws_end(s, p + 1);
                lemma_parse_advances(s, p1, (fuel - 1) as nat);
            } else if c == '-' || is_digit(c) {
                lemma_number_end(s, p);
            }
        }
        match value_at(s, pos, (fuel - 1) as nat) {
            Ok((v, p2)) => {
                lemma_parse_advances(s, pos, (fuel - 1) as nat);
                let p3 = ws_end(s, p2);
                lemma_ws_end(s, p2);
                if p3 < s.len() && s[p3] == ',' {
                    lemma_parse_advances(s, p3 + 1, (fuel - 1) as nat);
                }
                if matches!(v, SpecValue::Str(_)) && p3 < s.len() && s[p3] == ':' {
                    match value_at(s, p3 + 1, (fuel - 1) as nat) {
                        Ok((w, p4)) => {
                            lemma_parse_advances(s, p3 + 1, (fuel - 1) as nat);
                            let p5 = ws_end(s, p4);
                            lemma_ws_end(s, p4);
                            if p5 < s.len() && s[p5] == ',' {
                                lemma_parse_advances(s, p5 + 1, (fuel - 1) as nat);
                            }
                        },
                        Err(_) => {},
                    }
                }
            },
            Err(_) => {},
        }
    }
}

/// The parse result does not depend on the recursion budget, once the
/// budget covers the remaining input.
pub proof fn lemma_fuel_irrelevant(s: Seq<char>, pos: int, f1: nat, f2: nat)
    requires
        0 <= pos <= s.len(),
    ensures
        f1 >= 2 * (s.len() - pos) + 1 && f2 >= 2 * (s.len() - pos) + 1 ==> value_at(s, pos, f1)
            == value_at(s, pos, f2),
        f1 >= 2 * (s.len() - pos) + 2 && f2 >= 2 * (s.len() - pos) + 2 ==> elems_at(s, pos, f1)
            == elems_at(s, pos, f2) && members_at(s, pos, f1) == members_at(s, pos, f2),
    decreases f1 + f2,
{
    let len = s.len() as int;
    if f1 >= 2 * (len - pos) + 1 && f2 >= 2 * (len - pos) + 1 {
        let p = ws_end(s, pos);
        lemma_ws_end(s, pos);
        if p < len {
            let c = s[p];
            if c == '[' || c == '{' {
                let p1 = ws_end(s, p + 1);
                lemma_ws_end(s, p + 1);
                lemma_fuel_irrelevant(s, p1, (f1 - 1) as nat, (f2 - 1) as nat);
            }
        }
    }
    if f1 >= 2 * (len - pos) + 2 && f2 >= 2 * (len - pos) + 2 {
        lemma_fuel_irrelevant(s, pos, (f1 - 1) as nat, (f2 - 1) as nat);
        match value_at(s, pos, (f1 - 1) as nat) {
            Ok((v, p2)) => {
                lemma_parse_advances(s, pos, (f1 - 1) as nat);
                let p3 = ws_end(s, p2);
                lemma_ws_end(s, p2);
                if p3 < len && s[p3] == ',' {
                    lemma_fuel_irrelevant(s, p3 + 1, (f1 - 1) as nat, (f2 - 1) as nat);
                }
                if matches!(v, SpecValue::Str(_)) && p3 < len && s[p3] == ':' {
                    lemma_fuel_irrelevant(s, p3 + 1, (f1 - 1) as nat, (f2 - 1) as nat);
                    match value_at(s, p3 + 1, (f1 - 1) as nat) {
                        Ok((w, p4)) => {
                            lemma_parse_advances(s, p3 + 1, (f1 - 1) as nat);
                            let p5 = ws_end(s, p4);
                            lemma_ws_end(s, p4);
                            if p5 < len && s[p5] == ',' {
                                lemma_fuel_irrelevant(s, p5 + 1, (f1 - 1) as nat, (f2 - 1) as nat);
                            }
                        },
                        Err(_) => {},
                    }
                }
            },
            Err(_) => {},
        }
    }
}

/// Two start positions with the same whitespace end give the same
/// value parse: a value parse begins by skipping whitespace.
pub proof fn lemma_value_at_same_ws(s: Seq<char>, a: int, b: int, fuel: nat)
    requires
        ws_end(s, a) == ws_end(s, b),
    ensures
        value_at(s, a, fuel) == value_at(s, b, fuel),
{
}

/// One budget step below the canonical budget still gives the
/// canonical results: the bridge used when a definition is unfolded
/// once.
pub proof fn lemma_budget_step(s: Seq<char>, pos: int)
    requires
        0 <= pos <= s.len(),
    ensures
        value_at(s, pos, (parse_fuel(s) - 1) as nat) == value_spec(s, pos),
        elems_at(s, pos, (parse_fuel(s) - 1) as nat) == elems_spec(s, pos),
        members_at(s, pos, (parse_fuel(s) - 1) as nat) == members_spec(s, pos),
{
    lemma_fuel_irrelevant(s, pos, (parse_fuel(s) - 1) as nat, parse_fuel(s));
}

/// The result of a full parse from `pos`: the value, its trailing
/// whitespace skipped, and nothing after it.
pub open spec fn parse_from(s: Seq<char>, pos: int) -> Result<SpecValue, ErrorKind> {
    match value_spec(s, pos) {
        Err(k) => Err(k),
        Ok((v, p)) => if ws_end(s, p) == s.len() {
            Ok(v)
        } else {
            Err(ErrorKind::TrailingContent)
        },
    }
}

/// The result of parsing a whole input: one JSON value, surrounded by
/// optional whitespace.
pub open spec fn parse_result(s: Seq<char>) -> Result<SpecValue, ErrorKind> {
    parse_from(s, 0)
}

} // verus!
