//! The parse failure type and the closed taxonomy of failure
//! conditions, each with its human-readable message.

use vstd::prelude::*;

use crate::chars::decimal_digits;
use crate::text::push_char;

verus! {

/// Custom error type for JSON parsing failures.
#[derive(Debug)]
pub struct ParseError {
    message: String,
}

impl View for ParseError {
    type V = Seq<char>;

    closed spec fn view(&self) -> Seq<char> {
        self.message@
    }
}

impl ParseError {
    /// Creates a new ParseError with the given message.
    pub fn new(message: &str) -> (e: Self)
        ensures
            e@ == message@,
    {
        ParseError { message: message.to_owned() }
    }

    /// The message describing the failure.
    pub fn message(&self) -> (m: &str)
        ensures
            m@ == self@,
    {
        self.message.as_str()
    }
}

/// The closed set of conditions on which a parse fails.  Each variant
/// corresponds to one message; where the original message embeds the
/// offending character or code unit, the variant carries it.
pub enum ErrorKind {
    /// Non-whitespace input remains after the top-level value.
    TrailingContent,
    /// The value dispatcher saw a character that starts no JSON value.
    UnexpectedCharacter,
    /// The value dispatcher reached the end of the input.
    UnexpectedEndOfInput,
    /// Input starting with `n` did not spell `null`.
    InvalidNullLiteral,
    /// Input starting with `t` or `f` spelled neither `true` nor `false`.
    InvalidBooleanLiteral,
    /// The input ended before the closing quote of a string.
    UnterminatedString,
    /// The input ended directly after a backslash in a string.
    UnterminatedEscape,
    /// The input ended inside the four hex digits of a `\u` escape.
    IncompleteUnicodeEscape,
    /// A non-hex character stood inside the four digits of a `\u` escape.
    InvalidUnicodeEscape,
    /// A `\u` escape named a code unit that is no scalar value.
    InvalidCodePoint(u16),
    /// A backslash was followed by a character that names no escape.
    InvalidEscape(char),
    /// A number had no digits in its integer part.
    MissingDigits,
    /// A decimal point was not followed by a digit.
    MissingFractionDigits,
    /// An exponent marker was not followed by a digit.
    MissingExponentDigits,
    /// An array element was followed by neither `,` nor `]`.
    ExpectedCommaOrBracket(char),
    /// The input ended inside an array.
    UnterminatedArray,
    /// An object key was a value other than a string.
    ObjectKeyNotString,
    /// An object key was not followed by `:`.
    ExpectedColon,
    /// An object member was followed by neither `,` nor `}`.
    ExpectedCommaOrBrace(char),
    /// The input ended inside an object.
    UnterminatedObject,
}

/// The message carried by the error returned for each failure
/// condition.
pub open spec fn error_message(k: ErrorKind) -> Seq<char> {
    match k {
        ErrorKind::TrailingContent => "Extra characters after JSON value"@,
        ErrorKind::UnexpectedCharacter => "Unexpected character"@,
        ErrorKind::UnexpectedEndOfInput => "Unexpected end of input"@,
        ErrorKind::InvalidNullLiteral => "Invalid null value"@,
        ErrorKind::InvalidBooleanLiteral => "Invalid boolean value"@,
        ErrorKind::UnterminatedString => "Unterminated string"@,
        ErrorKind::UnterminatedEscape => "Unterminated string after escape"@,
        ErrorKind::IncompleteUnicodeEscape => "Incomplete unicode escape sequence"@,
        ErrorKind::InvalidUnicodeEscape => "Invalid unicode escape sequence"@,
        ErrorKind::InvalidCodePoint(code) => "Invalid unicode code point: "@ + decimal_digits(
            code as nat,
        ),
        ErrorKind::InvalidEscape(c) => "Invalid escape sequence: \\"@.push(c),
        ErrorKind::MissingDigits => "Number must contain at least one digit"@,
        ErrorKind::MissingFractionDigits => "Decimal point must be followed by at least one digit"@,
        ErrorKind::MissingExponentDigits => "Exponent must be followed by at least one digit"@,
        ErrorKind::ExpectedCommaOrBracket(c) => "Expected comma or closing bracket, got '"@.push(
            c,
        ).push('\''),
        ErrorKind::UnterminatedArray => "Unterminated array"@,
        ErrorKind::ObjectKeyNotString => "Object keys must be strings"@,
        ErrorKind::ExpectedColon => "Expected colon after key in object"@,
        ErrorKind::ExpectedCommaOrBrace(c) => "Expected comma or closing brace, got '"@.push(
            c,
        ).push('\''),
        ErrorKind::UnterminatedObject => "Unterminated object"@,
    }
}

/// Builds the error whose message is a prefix followed by one
/// character.
pub(crate) fn error_with_char(prefix: &str, c: char) -> (e: ParseError)
    ensures
        e@ == prefix@.push(c),
{
    let mut m = prefix.to_owned();
    push_char(&mut m, c);
    ParseError { message: m }
}

/// Builds the error whose message quotes one character: a prefix, the
/// character, and a closing quote.
pub(crate) fn error_got_char(prefix: &str, c: char) -> (e: ParseError)
    ensures
        e@ == prefix@.push(c).push('\''),
{
    let mut m = prefix.to_owned();
    push_char(&mut m, c);
    push_char(&mut m, '\'');
    ParseError { message: m }
}

/// Appends the decimal numeral of a value to a string.
fn push_decimal(s: &mut String, n: u16)
    ensures
        final(s)@ == old(s)@ + decimal_digits(n as nat),
    decreases n,
{
    if n >= 10 {
        push_decimal(s, n / 10);
    }
    let d: u8 = (n % 10) as u8 + 0x30;
    push_char(s, d as char);
    proof {
        if n < 10 {
            assert(old(s)@ + decimal_digits(n as nat) =~= old(s)@.push(d as char));
        } else {
            assert(old(s)@ + decimal_digits(n as nat) =~= (old(s)@ + decimal_digits(
                (n / 10) as nat,
            )).push(d as char));
        }
    }
}

/// Builds the error reporting an invalid code point, embedding the
/// code unit's decimal numeral.
pub(crate) fn invalid_code_point_error(code: u16) -> (e: ParseError)
    ensures
        e@ == error_message(ErrorKind::InvalidCodePoint(code)),
{
    let mut m = "Invalid unicode code point: ".to_owned();
    push_decimal(&mut m, code);
    ParseError { message: m }
}

} // verus!
