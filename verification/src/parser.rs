//! The recursive-descent parsing engine: a cursor over the input
//! text, scanning primitives, and one routine per JSON value shape.
//!
//! Every routine is proved to return exactly what the corresponding
//! specification function in [`crate::grammar`] computes: the parsed
//! value and cursor position on success, and the message of the first
//! failure condition otherwise.

use vstd::prelude::*;
use vstd::string::StrSliceExecFns;

use crate::chars::{is_digit_char, is_ws, is_ws_char};
use crate::error::ParseError;
use crate::grammar::{
    digits_end, elems_spec, has_false_at, has_null_at, has_true_at, hex4, lemma_budget_step,
    lemma_digits_end, lemma_parse_advances, lemma_value_at_same_ws, lemma_ws_end, members_spec,
    number_end, parse_from, parse_fuel, string_body, value_spec, ws_end,
};
use crate::error::{error_message, error_with_char, invalid_code_point_error, ErrorKind};
use crate::text::{char_from_u32, push_char};
use crate::value::{obj_from_pairs, JsonValue, SpecValue};

verus! {

/// A subrange grows by one character at its right end.
proof fn lemma_subrange_push(s: Seq<char>, a: int, b: int)
    requires
        0 <= a <= b < s.len(),
    ensures
        s.subrange(a, b + 1) == s.subrange(a, b).push(s[b]),
{
    assert(s.subrange(a, b + 1) =~= s.subrange(a, b).push(s[b]));
}

/// Adjacent subranges concatenate.
proof fn lemma_subrange_concat(s: Seq<char>, a: int, b: int, c: int)
    requires
        0 <= a <= b <= c <= s.len(),
    ensures
        s.subrange(a, c) == s.subrange(a, b) + s.subrange(b, c),
{
    assert(s.subrange(a, c) =~= s.subrange(a, b) + s.subrange(b, c));
}

/// JSON parser: the borrowed input text and a cursor over its
/// characters.
pub struct JsonParser<'a> {
    input: &'a str,
    position: usize,
    length: usize,
}

impl<'a> JsonParser<'a> {
    /// The input text as a character sequence.
    pub closed spec fn text(&self) -> Seq<char> {
        self.input@
    }

    /// The cursor: the position of the first unconsumed character.
    pub closed spec fn pos(&self) -> int {
        self.position as int
    }

    /// The cursor lies within the input and the cached length is the
    /// input's character count.
    pub closed spec fn wf(&self) -> bool {
        self.length == self.input@.len() && self.position <= self.length
    }

    /// Creates a new parser instance for the given JSON string.
    pub fn new(input: &'a str) -> (p: Self)
        ensures
            p.wf(),
            p.text() == input@,
            p.pos() == 0,
    {
        JsonParser { input, position: 0, length: input.unicode_len() }
    }

    /// Advances the parser to the next character and returns it;
    /// `None` at the end of the input.
    fn next_char(&mut self) -> (c: Option<char>)
        requires
            old(self).wf(),
        ensures
            final(self).wf(),
            final(self).text() == old(self).text(),
            old(self).pos() < old(self).text().len() ==> c == Some(
                old(self).text()[old(self).pos()],
            ) && final(self).pos() == old(self).pos() + 1,
            old(self).pos() >= old(self).text().len() ==> c is None && final(self).pos() == old(
                self,
            ).pos(),
    {
        if self.position < self.length {
            let ch = self.input.get_char(self.position);
            self.position = self.position + 1;
            Some(ch)
        } else {
            None
        }
    }

    /// Skips whitespace characters.
    fn skip_whitespace(&mut self)
        requires
            old(self).wf(),
        ensures
            final(self).wf(),
            final(self).text() == old(self).text(),
            final(self).pos() == ws_end(old(self).text(), old(self).pos()),
            old(self).pos() <= final(self).pos(),
    {
        proof {
            lemma_ws_end(self.input@, self.position as int);
        }
        while self.position < self.length && is_ws_char(self.input.get_char(self.position))
            invariant
                self.wf(),
                self.text() == old(self).text(),
                old(self).pos() <= self.pos(),
                ws_end(self.text(), old(self).pos()) == ws_end(self.text(), self.pos()),
            decreases self.length - self.position,
        {
            let _c = self.next_char();
        }
    }

    /// Scans a run of decimal digits, appending them to `num`;
    /// reports whether at least one digit was read.
    fn scan_digits(&mut self, num: &mut String) -> (saw: bool)
        requires
            old(self).wf(),
        ensures
            final(self).wf(),
            final(self).text() == old(self).text(),
            final(self).pos() == digits_end(old(self).text(), old(self).pos()),
            final(num)@ == old(num)@ + old(self).text().subrange(
                old(self).pos(),
                final(self).pos(),
            ),
            saw == (final(self).pos() > old(self).pos()),
    {
        proof {
            lemma_digits_end(self.input@, self.position as int);
            assert(old(num)@ + self.text().subrange(self.pos(), self.pos()) =~= old(num)@);
        }
        let start = self.position;
        while self.position < self.length && is_digit_char(self.input.get_char(self.position))
            invariant
                self.wf(),
                self.text() == old(self).text(),
                start == old(self).position,
                old(self).pos() <= self.pos() <= self.text().len(),
                digits_end(self.text(), old(self).pos()) == digits_end(self.text(), self.pos()),
                num@ == old(num)@ + self.text().subrange(old(self).pos(), self.pos()),
            decreases self.length - self.position,
        {
            let c = self.input.get_char(self.position);
            push_char(num, c);
            self.position = self.position + 1;
            proof {
                lemma_subrange_push(self.text(), old(self).pos(), self.pos() - 1);
            }
        }
        self.position > start
    }

    /// Reads the four hexadecimal digits of a unicode escape, one at
    /// a time, and combines them big-endian into a code unit.
    fn read_hex4(&mut self) -> (r: Result<u32, ParseError>)
        requires
            old(self).wf(),
        ensures
            final(self).wf(),
            final(self).text() == old(self).text(),
            (match hex4(old(self).text(), old(self).pos()) {
                Ok(code) => r matches Ok(u) && u == code && 0 <= code < 0x10000
                    && final(self).pos() == old(self).pos() + 4,
                Err(k) => r matches Err(e) && e@ == error_message(k),
            }),
    {
        if self.position >= self.length {
            return Err(ParseError::new("Incomplete unicode escape sequence"));
        }
        let c0 = self.input.get_char(self.position);
        let v0 = match crate::chars::hex_digit_value(c0) {
            Some(v) => v,
            None => {
                return Err(ParseError::new("Invalid unicode escape sequence"));
            },
        };
        self.position = self.position + 1;
        if self.position >= self.length {
            return Err(ParseError::new("Incomplete unicode escape sequence"));
        }
        let c1 = self.input.get_char(self.position);
        let v1 = match crate::chars::hex_digit_value(c1) {
            Some(v) => v,
            None => {
                return Err(ParseError::new("Invalid unicode escape sequence"));
            },
        };
        self.position = self.position + 1;
        if self.position >= self.length {
            return Err(ParseError::new("Incomplete unicode escape sequence"));
        }
        let c2 = self.input.get_char(self.position);
        let v2 = match crate::chars::hex_digit_value(c2) {
            Some(v) => v,
            None => {
                return Err(ParseError::new("Invalid unicode escape sequence"));
            },
        };
        self.position = self.position + 1;
        if self.position >= self.length {
            return Err(ParseError::new("Incomplete unicode escape sequence"));
        }
        let c3 = self.input.get_char(self.position);
        let v3 = match crate::chars::hex_digit_value(c3) {
            Some(v) => v,
            None => {
                return Err(ParseError::new("Invalid unicode escape sequence"));
            },
        };
        self.position = self.position + 1;
        Ok(((v0 * 16 + v1) * 16 + v2) * 16 + v3)
    }

    /// Parses a JSON string: the cursor stands on the opening quote;
    /// ordinary characters are taken verbatim and escape sequences are
    /// decoded.
    pub fn parse_string(&mut self) -> (r: Result<JsonValue, ParseError>)
        requires
            old(self).wf(),
            old(self).pos() < old(self).text().len(),
            old(self).text()[old(self).pos()] == '"',
        ensures
            final(self).wf(),
            final(self).text() == old(self).text(),
            (match string_body(old(self).text(), old(self).pos() + 1) {
                Ok((t, q)) => r matches Ok(jv) && jv@ == SpecValue::Str(t) && final(self).pos()
                    == q,
                Err(k) => r matches Err(e) && e@ == error_message(k),
            }),
    {
        let ghost s = self.input@;
        let ghost pos1 = self.position as int + 1;
        self.position = self.position + 1;
        let mut out = String::new();
        proof {
            assert(out@ + Seq::<char>::empty() =~= out@);
        }
        loop
            invariant
                self.wf(),
                self.text() == s,
                s == old(self).text(),
                pos1 == old(self).pos() + 1,
                pos1 <= self.pos() <= s.len(),
                (match string_body(s, self.pos()) {
                    Ok((t, q)) => string_body(s, pos1) matches Ok((t0, q0)) && t0 == out@ + t && q0
                        == q,
                    Err(k) => string_body(s, pos1) == Err::<(Seq<char>, int), ErrorKind>(k),
                }),
            decreases s.len() - self.pos(),
        {
            let ghost it0 = self.pos();
            if self.position >= self.length {
                return Err(ParseError::new("Unterminated string"));
            }
            let c = self.input.get_char(self.position);
            if c == '"' {
                self.position = self.position + 1;
                proof {
                    assert(out@ + Seq::<char>::empty() =~= out@);
                }
                return Ok(JsonValue::String(out));
            } else if c == '\\' {
                self.position = self.position + 1;
                if self.position >= self.length {
                    return Err(ParseError::new("Unterminated string after escape"));
                }
                let e = self.input.get_char(self.position);
                self.position = self.position + 1;
                if e == '"' || e == '\\' || e == '/' || e == 'b' || e == 'f' || e == 'n' || e == 'r'
                    || e == 't' {
                    let decoded: char = if e == 'b' {
                        '\u{0008}'
                    } else if e == 'f' {
                        '\u{000C}'
                    } else if e == 'n' {
                        '\n'
                    } else if e == 'r' {
                        '\r'
                    } else if e == 't' {
                        '\t'
                    } else {
                        e
                    };
                    let ghost out0 = out@;
                    push_char(&mut out, decoded);
                    proof {
                        assert(decoded == crate::grammar::simple_escape_char(e));
                        match string_body(s, it0 + 2) {
                            Ok((t2, q2)) => {
                                assert(out0 + (seq![decoded] + t2) =~= out0.push(decoded) + t2);
                            },
                            Err(_) => {},
                        }
                    }
                } else if e == 'u' {
                    let code = match self.read_hex4() {
                        Ok(u) => u,
                        Err(err) => {
                            return Err(err);
                        },
                    };
                    if 0xD800 <= code && code < 0xE000 {
                        return Err(invalid_code_point_error(code as u16));
                    }
                    let decoded = char_from_u32(code);
                    let ghost out0 = out@;
                    push_char(&mut out, decoded);
                    proof {
                        match string_body(s, it0 + 6) {
                            Ok((t2, q2)) => {
                                assert(out0 + (seq![decoded] + t2) =~= out0.push(decoded) + t2);
                            },
                            Err(_) => {},
                        }
                    }
                } else {
                    return Err(error_with_char("Invalid escape sequence: \\", e));
                }
            } else {
                self.position = self.position + 1;
                let ghost out0 = out@;
                push_char(&mut out, c);
                proof {
                    match string_body(s, it0 + 1) {
                        Ok((t2, q2)) => {
                            assert(out0 + (seq![c] + t2) =~= out0.push(c) + t2);
                        },
                        Err(_) => {},
                    }
                }
            }
        }
    }

    /// Parses a JSON number: an optional minus sign, digits, an
    /// optional fraction and an optional exponent, kept as the literal
    /// text.
    pub fn parse_number(&mut self) -> (r: Result<JsonValue, ParseError>)
        requires
            old(self).wf(),
        ensures
            final(self).wf(),
            final(self).text() == old(self).text(),
            (match number_end(old(self).text(), old(self).pos()) {
                Ok(e) => r matches Ok(jv) && jv@ == SpecValue::Num(
                    old(self).text().subrange(old(self).pos(), e),
                ) && final(self).pos() == e,
                Err(k) => r matches Err(err) && err@ == error_message(k),
            }),
    {
        let ghost s = self.input@;
        let ghost pos0 = self.position as int;
        let mut num = String::new();
        if self.position < self.length && self.input.get_char(self.position) == '-' {
            push_char(&mut num, '-');
            self.position = self.position + 1;
            proof {
                lemma_subrange_push(s, pos0, pos0);
                assert(num@ =~= s.subrange(pos0, pos0 + 1));
            }
        } else {
            proof {
                assert(num@ =~= s.subrange(pos0, pos0));
            }
        }
        let ghost p1 = self.pos();
        let saw = self.scan_digits(&mut num);
        let ghost p2 = self.pos();
        proof {
            lemma_digits_end(s, p1);
            lemma_subrange_concat(s, pos0, p1, p2);
        }
        if !saw {
            return Err(ParseError::new("Number must contain at least one digit"));
        }
        if self.position < self.length && self.input.get_char(self.position) == '.' {
            push_char(&mut num, '.');
            self.position = self.position + 1;
            proof {
                lemma_subrange_push(s, pos0, p2);
            }
            let saw2 = self.scan_digits(&mut num);
            proof {
                lemma_digits_end(s, p2 + 1);
                lemma_subrange_concat(s, pos0, p2 + 1, self.pos());
            }
            if !saw2 {
                return Err(ParseError::new("Decimal point must be followed by at least one digit"));
            }
        }
        let ghost p3 = self.pos();
        if self.position < self.length && (self.input.get_char(self.position) == 'e'
            || self.input.get_char(self.position) == 'E') {
            let ec = self.input.get_char(self.position);
            push_char(&mut num, ec);
            self.position = self.position + 1;
            proof {
                lemma_subrange_push(s, pos0, p3);
            }
            if self.position < self.length && (self.input.get_char(self.position) == '+'
                || self.input.get_char(self.position) == '-') {
                let sc = self.input.get_char(self.position);
                push_char(&mut num, sc);
                self.position = self.position + 1;
                proof {
                    lemma_subrange_push(s, pos0, p3 + 1);
                }
            }
            let ghost p4 = self.pos();
            let saw3 = self.scan_digits(&mut num);
            proof {
                lemma_digits_end(s, p4);
                lemma_subrange_concat(s, pos0, p4, self.pos());
            }
            if !saw3 {
                return Err(ParseError::new("Exponent must be followed by at least one digit"));
            }
        }
        Ok(JsonValue::Number(num))
    }

    /// Parses the JSON null value: the literal `null` at the cursor.
    pub fn parse_null(&mut self) -> (r: Result<JsonValue, ParseError>)
        requires
            old(self).wf(),
        ensures
            final(self).wf(),
            final(self).text() == old(self).text(),
            has_null_at(old(self).text(), old(self).pos()) ==> (r matches Ok(jv) && jv@
                == SpecValue::Null && final(self).pos() == old(self).pos() + 4),
            !has_null_at(old(self).text(), old(self).pos()) ==> (r matches Err(e) && e@
                == crate::error::error_message(crate::error::ErrorKind::InvalidNullLiteral)
                && final(self).pos() == old(self).pos()),
    {
        if self.length - self.position >= 4 && self.input.get_char(self.position) == 'n'
            && self.input.get_char(self.position + 1) == 'u' && self.input.get_char(
            self.position + 2,
        ) == 'l' && self.input.get_char(self.position + 3) == 'l' {
            self.position = self.position + 4;
            Ok(JsonValue::Null)
        } else {
            Err(ParseError::new("Invalid null value"))
        }
    }

    /// Parses a JSON boolean value: the literal `true` or `false` at
    /// the cursor.
    pub fn parse_boolean(&mut self) -> (r: Result<JsonValue, ParseError>)
        requires
            old(self).wf(),
        ensures
            final(self).wf(),
            final(self).text() == old(self).text(),
            has_true_at(old(self).text(), old(self).pos()) ==> (r matches Ok(jv) && jv@
                == SpecValue::Bool(true) && final(self).pos() == old(self).pos() + 4),
            !has_true_at(old(self).text(), old(self).pos()) && has_false_at(
                old(self).text(),
                old(self).pos(),
            ) ==> (r matches Ok(jv) && jv@ == SpecValue::Bool(false) && final(self).pos() == old(
                self,
            ).pos() + 5),
            !has_true_at(old(self).text(), old(self).pos()) && !has_false_at(
                old(self).text(),
                old(self).pos(),
            ) ==> (r matches Err(e) && e@ == crate::error::error_message(
                crate::error::ErrorKind::InvalidBooleanLiteral,
            ) && final(self).pos() == old(self).pos()),
    {
        if self.length - self.position >= 4 && self.input.get_char(self.position) == 't'
            && self.input.get_char(self.position + 1) == 'r' && self.input.get_char(
            self.position + 2,
        ) == 'u' && self.input.get_char(self.position + 3) == 'e' {
            self.position = self.position + 4;
            Ok(JsonValue::Boolean(true))
        } else if self.length - self.position >= 5 && self.input.get_char(self.position) == 'f'
            && self.input.get_char(self.position + 1) == 'a' && self.input.get_char(
            self.position + 2,
        ) == 'l' && self.input.get_char(self.position + 3) == 's' && self.input.get_char(
            self.position + 4,
        ) == 'e' {
            self.position = self.position + 5;
            Ok(JsonValue::Boolean(false))
        } else {
            Err(ParseError::new("Invalid boolean value"))
        }
    }
    /// Parses any JSON value: skips leading whitespace and routes to
    /// the per-type routine by the first character.
    fn parse_value(&mut self) -> (r: Result<JsonValue, ParseError>)
        requires
            old(self).wf(),
        ensures
            final(self).wf(),
            final(self).text() == old(self).text(),
            (match value_spec(old(self).text(), old(self).pos()) {
                Ok((v, q)) => r matches Ok(jv) && jv@ == v && final(self).pos() == q,
                Err(k) => r matches Err(e) && e@ == error_message(k),
            }),
            r is Ok ==> old(self).pos() < final(self).pos() <= old(self).text().len(),
        decreases self.text().len() - self.pos(), 1int,
    {
        let ghost s = self.input@;
        let ghost pos0 = self.position as int;
        self.skip_whitespace();
        let ghost p = self.pos();
        proof {
            lemma_ws_end(s, pos0);
            assert(ws_end(s, p) == p);
            lemma_value_at_same_ws(s, pos0, p, parse_fuel(s));
            lemma_parse_advances(s, p, parse_fuel(s));
        }
        if self.position >= self.length {
            return Err(ParseError::new("Unexpected end of input"));
        }
        let c = self.input.get_char(self.position);
        if c == 'n' {
            self.parse_null()
        } else if c == 't' || c == 'f' {
            self.parse_boolean()
        } else if c == '"' {
            self.parse_string()
        } else if c == '[' {
            self.parse_array()
        } else if c == '{' {
            self.parse_object()
        } else if c == '-' || is_digit_char(c) {
            self.parse_number()
        } else {
            Err(ParseError::new("Unexpected character"))
        }
    }

    /// Parses a JSON array: the cursor stands on the opening bracket.
    pub fn parse_array(&mut self) -> (r: Result<JsonValue, ParseError>)
        requires
            old(self).wf(),
            old(self).pos() < old(self).text().len(),
            old(self).text()[old(self).pos()] == '[',
        ensures
            final(self).wf(),
            final(self).text() == old(self).text(),
            (match value_spec(old(self).text(), old(self).pos()) {
                Ok((v, q)) => r matches Ok(jv) && jv@ == v && final(self).pos() == q,
                Err(k) => r matches Err(e) && e@ == error_message(k),
            }),
            r is Ok ==> old(self).pos() < final(self).pos() <= old(self).text().len(),
        decreases self.text().len() - self.pos(), 0int,
    {
        let ghost s = self.input@;
        let ghost pos0 = self.position as int;
        proof {
            assert(!is_ws('['));
            assert(ws_end(s, pos0) == pos0);
        }
        self.position = self.position + 1;
        self.skip_whitespace();
        let ghost p1 = self.pos();
        proof {
            lemma_ws_end(s, pos0 + 1);
            lemma_budget_step(s, p1);
        }
        if self.position < self.length && self.input.get_char(self.position) == ']' {
            self.position = self.position + 1;
            let empty: Vec<JsonValue> = Vec::new();
            proof {
                crate::value::lemma_array_model(empty@, 0);
                assert(crate::value::array_model(empty@, 0) =~= Seq::<SpecValue>::empty());
            }
            return Ok(JsonValue::Array(empty));
        }
        let mut values: Vec<JsonValue> = Vec::new();
        proof {
            crate::value::lemma_array_model(values@, 0);
            assert(crate::value::array_model(values@, 0) =~= Seq::<SpecValue>::empty());
        }
        loop
            invariant
                self.wf(),
                self.text() == s,
                s == old(self).text(),
                pos0 == old(self).pos(),
                0 <= pos0 < self.pos() <= s.len(),
                pos0 + 1 <= p1 <= s.len(),
                (match elems_spec(s, p1) {
                    Ok((vs0, q0)) => value_spec(s, pos0) == Ok::<(SpecValue, int), ErrorKind>(
                        (SpecValue::Arr(vs0), q0),
                    ),
                    Err(k0) => value_spec(s, pos0) == Err::<(SpecValue, int), ErrorKind>(k0),
                }),
                (match elems_spec(s, self.pos()) {
                    Ok((vs, q)) => elems_spec(s, p1) matches Ok((vs0, q0)) && vs0
                        == crate::value::array_model(values@, 0) + vs && q0 == q,
                    Err(k) => elems_spec(s, p1) == Err::<(Seq<SpecValue>, int), ErrorKind>(k),
                }),
            decreases s.len() - self.pos(),
        {
            let ghost it0 = self.pos();
            proof {
                lemma_budget_step(s, it0);
            }
            let v = match self.parse_value() {
                Ok(v) => v,
                Err(e) => {
                    return Err(e);
                },
            };
            let ghost vm0 = crate::value::array_model(values@, 0);
            let ghost vv0 = values@;
            let ghost p2 = self.pos();
            values.push(v);
            proof {
                crate::value::lemma_array_model(vv0, 0);
                crate::value::lemma_array_model(values@, 0);
                assert(values@ =~= vv0.push(v));
                assert(crate::value::array_model(values@, 0) =~= vm0 + seq![v@]);
            }
            self.skip_whitespace();
            let ghost p3 = self.pos();
            proof {
                lemma_ws_end(s, p2);
            }
            if self.position >= self.length {
                return Err(ParseError::new("Unterminated array"));
            }
            let c = self.input.get_char(self.position);
            if c == ']' {
                self.position = self.position + 1;
                proof {
                    assert(vm0 + (seq![v@] + Seq::<SpecValue>::empty()) =~= vm0 + seq![v@]);
                    assert(vm0 + seq![v@] =~= crate::value::array_model(values@, 0));
                }
                return Ok(JsonValue::Array(values));
            } else if c == ',' {
                self.position = self.position + 1;
                proof {
                    lemma_budget_step(s, p3 + 1);
                    match elems_spec(s, p3 + 1) {
                        Ok((vs, q)) => {
                            assert(vm0 + (seq![v@] + vs) =~= (vm0 + seq![v@]) + vs);
                        },
                        Err(_) => {},
                    }
                }
            } else {
                return Err(crate::error::error_got_char(
                    "Expected comma or closing bracket, got '",
                    c,
                ));
            }
        }
    }

    /// Parses a JSON object: the cursor stands on the opening brace.
    /// Keys are parsed with the string routine; a repeated key keeps
    /// its place and takes the later value.
    pub fn parse_object(&mut self) -> (r: Result<JsonValue, ParseError>)
        requires
            old(self).wf(),
            old(self).pos() < old(self).text().len(),
            old(self).text()[old(self).pos()] == '{',
        ensures
            final(self).wf(),
            final(self).text() == old(self).text(),
            (match value_spec(old(self).text(), old(self).pos()) {
                Ok((v, q)) => r matches Ok(jv) && jv@ == v && final(self).pos() == q,
                Err(k) => r matches Err(e) && e@ == error_message(k),
            }),
            r is Ok ==> old(self).pos() < final(self).pos() <= old(self).text().len(),
        decreases self.text().len() - self.pos(), 0int,
    {
        let ghost s = self.input@;
        let ghost pos0 = self.position as int;
        proof {
            assert(!is_ws('{'));
            assert(ws_end(s, pos0) == pos0);
        }
        self.position = self.position + 1;
        self.skip_whitespace();
        let ghost p1 = self.pos();
        proof {
            lemma_ws_end(s, pos0 + 1);
            lemma_budget_step(s, p1);
        }
        if self.position < self.length && self.input.get_char(self.position) == '}' {
            self.position = self.position + 1;
            let empty: Vec<(String, JsonValue)> = Vec::new();
            proof {
                crate::value::lemma_pairs_model(empty@, 0);
                assert(crate::value::pairs_model(empty@, 0) =~= Seq::<
                    (Seq<char>, SpecValue),
                >::empty());
            }
            return Ok(JsonValue::Object(empty));
        }
        let mut map: Vec<(String, JsonValue)> = Vec::new();
        let ghost mut raw: Seq<(Seq<char>, SpecValue)> = Seq::empty();
        proof {
            crate::value::lemma_pairs_model(map@, 0);
            assert(crate::value::pairs_model(map@, 0) =~= obj_from_pairs(raw));
        }
        loop
            invariant
                self.wf(),
                self.text() == s,
                s == old(self).text(),
                pos0 == old(self).pos(),
                0 <= pos0 < self.pos() <= s.len(),
                pos0 + 1 <= p1 <= s.len(),
                crate::value::pairs_model(map@, 0) == obj_from_pairs(raw),
                (match members_spec(s, p1) {
                    Ok((ms0, q0)) => value_spec(s, pos0) == Ok::<(SpecValue, int), ErrorKind>(
                        (SpecValue::Obj(obj_from_pairs(ms0)), q0),
                    ),
                    Err(k0) => value_spec(s, pos0) == Err::<(SpecValue, int), ErrorKind>(k0),
                }),
                (match members_spec(s, self.pos()) {
                    Ok((ms, q)) => members_spec(s, p1) matches Ok((ms0, q0)) && ms0 == raw + ms
                        && q0 == q,
                    Err(k) => members_spec(s, p1) == Err::<
                        (Seq<(Seq<char>, SpecValue)>, int),
                        ErrorKind,
                    >(k),
                }),
            decreases s.len() - self.pos(),
        {
            let ghost it0 = self.pos();
            proof {
                lemma_budget_step(s, it0);
            }
            let key_val = match self.parse_value() {
                Ok(v) => v,
                Err(e) => {
                    return Err(e);
                },
            };
            let key = match key_val {
                JsonValue::String(ks) => ks,
                _ => {
                    return Err(ParseError::new("Object keys must be strings"));
                },
            };
            self.skip_whitespace();
            let ghost p3 = self.pos();
            proof {
                lemma_ws_end(s, p3);
            }
            if !(self.position < self.length && self.input.get_char(self.position) == ':') {
                return Err(ParseError::new("Expected colon after key in object"));
            }
            self.position = self.position + 1;
            proof {
                lemma_budget_step(s, p3 + 1);
            }
            let v = match self.parse_value() {
                Ok(v) => v,
                Err(e) => {
                    return Err(e);
                },
            };
            let ghost p4 = self.pos();
            let ghost key_s = key@;
            let ghost v_s = v@;
            let ghost raw0 = raw;
            crate::value::object_insert(&mut map, key, v);
            proof {
                crate::value::lemma_obj_from_pairs_snoc(raw0, key_s, v_s);
                raw = raw0.push((key_s, v_s));
                assert(crate::value::pairs_model(map@, 0) == obj_from_pairs(raw));
            }
            self.skip_whitespace();
            let ghost p5 = self.pos();
            proof {
                lemma_ws_end(s, p4);
            }
            if self.position >= self.length {
                return Err(ParseError::new("Unterminated object"));
            }
            let c = self.input.get_char(self.position);
            if c == '}' {
                self.position = self.position + 1;
                proof {
                    assert(raw0 + seq![(key_s, v_s)] =~= raw);
                    assert(raw0 + (seq![(key_s, v_s)] + Seq::<
                        (Seq<char>, SpecValue),
                    >::empty()) =~= raw);
                }
                return Ok(JsonValue::Object(map));
            } else if c == ',' {
                self.position = self.position + 1;
                proof {
                    lemma_budget_step(s, p5 + 1);
                    match members_spec(s, p5 + 1) {
                        Ok((ms, q)) => {
                            assert(raw0 + (seq![(key_s, v_s)] + ms) =~= raw + ms);
                        },
                        Err(_) => {},
                    }
                }
            } else {
                return Err(crate::error::error_got_char(
                    "Expected comma or closing brace, got '",
                    c,
                ));
            }
        }
    }

    /// Parses the input JSON string into a JsonValue: one value,
    /// surrounded by optional whitespace; anything further is
    /// rejected.
    pub fn parse(&mut self) -> (r: Result<JsonValue, ParseError>)
        requires
            old(self).wf(),
        ensures
            final(self).wf(),
            final(self).text() == old(self).text(),
            (match parse_from(old(self).text(), old(self).pos()) {
                Ok(v) => r matches Ok(jv) && jv@ == v,
                Err(k) => r matches Err(e) && e@ == error_message(k),
            }),
    {
        let ghost s = self.input@;
        let ghost pos0 = self.position as int;
        self.skip_whitespace();
        let ghost p = self.pos();
        proof {
            lemma_ws_end(s, pos0);
            assert(ws_end(s, p) == p);
            lemma_value_at_same_ws(s, pos0, p, parse_fuel(s));
        }
        let v = match self.parse_value() {
            Ok(v) => v,
            Err(e) => {
                return Err(e);
            },
        };
        self.skip_whitespace();
        if self.position < self.length {
            return Err(ParseError::new("Extra characters after JSON value"));
        }
        Ok(v)
    }
}

} // verus!
