//! The executable grammar walker: a recursive-descent parser over a character
//! buffer and a cursor position. Every function is proved to return exactly
//! what the corresponding production of the mathematical grammar returns,
//! error cases and resting position included.
use vstd::prelude::*;

use crate::error::JsonError;
use crate::grammar::digit_val;
use crate::grammar::hex_val;
use crate::grammar::is_digit;
use crate::grammar::is_hex_digit;
use crate::grammar::is_json_ws;
use crate::grammar::skip_ws;
use crate::grammar::spec_hex4;
use crate::grammar::spec_parse_escape;
use crate::grammar::spec_parse_string;
use crate::grammar::spec_parse_unicode;
use crate::grammar::spec_parse_digits;
use crate::grammar::spec_parse_exponent;
use crate::grammar::spec_parse_number;
use crate::grammar::spec_parse_number_rest;
use crate::value::Array;
use crate::value::JsonNumber;
use crate::value::JsonObject;
use crate::value::Object;
use crate::value::ObjectImpl;
use crate::value::ValueModel;
use crate::value::entries_view;
use crate::value::lemma_entries_view_push;
use crate::value::lemma_values_view_push;
use crate::value::values_view;
use crate::error::result_view;
use crate::grammar::spec_parse_keyword;
use crate::grammar::spec_parse_value;
use crate::grammar::spec_parse_array_items;
use crate::grammar::spec_parse_object_items;
use crate::grammar::spec_parse_json;
use crate::roundtrip::lemma_parse_json_wf;
use crate::roundtrip::wf_value;
use vstd::string::StrSliceExecFns;

verus! {

/// Whether `c` is one of the whitespace characters skipped between tokens.
fn is_ws_char(c: char) -> (b: bool)
    ensures
        b == is_json_ws(c),
{
    matches!(c,
        '\u{9}'..='\u{d}' | ' ' | '\u{85}' | '\u{a0}' | '\u{1680}' | '\u{2000}'..='\u{200a}'
        | '\u{2028}' | '\u{2029}' | '\u{202f}' | '\u{205f}' | '\u{3000}')
}

/// Whether `c` is a decimal digit.
fn is_digit_char(c: char) -> (b: bool)
    ensures
        b == is_digit(c),
{
    matches!(c, '0'..='9')
}

/// The value of a decimal digit character.
fn digit_val_char(c: char) -> (v: u8)
    requires
        is_digit(c),
    ensures
        v == digit_val(c),
{
    (c as u32 - 48) as u8
}

/// Whether `c` is a hexadecimal digit.
fn is_hex_char(c: char) -> (b: bool)
    ensures
        b == is_hex_digit(c),
{
    matches!(c, '0'..='9' | 'a'..='f' | 'A'..='F')
}

/// The value of a hexadecimal digit character.
fn hex_val_char(c: char) -> (v: u32)
    requires
        is_hex_digit(c),
    ensures
        v == hex_val(c),
        v < 16,
{
    if c <= '9' {
        c as u32 - 48
    } else if c <= 'F' {
        c as u32 - 65 + 10
    } else {
        c as u32 - 97 + 10
    }
}

/// Advances the cursor past any whitespace.
fn skip_whitespace(s: &Vec<char>, pos: usize) -> (r: usize)
    requires
        pos <= s@.len(),
    ensures
        r as int == skip_ws(s@, pos as int),
        pos <= r <= s@.len(),
{
    let mut i = pos;
    while i < s.len() && is_ws_char(s[i])
        invariant
            pos <= i <= s@.len(),
            skip_ws(s@, pos as int) == skip_ws(s@, i as int),
        decreases s@.len() - i,
    {
        i = i + 1;
    }
    i
}

/// Relies on `char::from_u32`, which returns `Some` exactly for Unicode
/// scalar values: for an argument the precondition admits, the returned
/// character is the scalar value asked for.
#[verifier::external_body]
fn char_from_scalar(v: u32) -> (c: char)
    requires
        v < 0xD800 || (0xE000 <= v && v < 0x110000),
    ensures
        c == v as char,
{
    char::from_u32(v).unwrap()
}

/// Relies on `Iterator::collect` for `String`, which concatenates exactly the
/// characters the iterator yields, in order.
#[verifier::external_body]
fn chars_to_string(chars: &Vec<char>) -> (s: String)
    ensures
        s@ == chars@,
{
    chars.iter().collect()
}

/// Reads exactly four hexadecimal digits as one code unit.
fn parse_hex4(s: &Vec<char>, pos: usize) -> (r: (Result<u32, JsonError>, usize))
    requires
        pos <= s@.len(),
    ensures
        ({
            let (sr, sp) = spec_hex4(s@, pos as int);
            r.1 as int == sp && match (r.0, sr) {
                (Ok(v), Ok(sv)) => v as int == sv,
                (Err(e), Err(se)) => e@ == se,
                _ => false,
            }
        }),
        pos <= r.1 <= s@.len(),
        r.0 is Ok ==> r.1 == pos + 4 && (r.0 matches Ok(v) && v < 0x10000),
{
    let mut value: u32 = 0;
    let mut i = pos;
    if i >= s.len() {
        return (Err(JsonError::EarlyEndOfStream), i);
    }
    if !is_hex_char(s[i]) {
        return (Err(JsonError::InvalidUnicode), i + 1);
    }
    value = hex_val_char(s[i]) * 0x1000;
    i = i + 1;
    if i >= s.len() {
        return (Err(JsonError::EarlyEndOfStream), i);
    }
    if !is_hex_char(s[i]) {
        return (Err(JsonError::InvalidUnicode), i + 1);
    }
    value = value + hex_val_char(s[i]) * 0x100;
    i = i + 1;
    if i >= s.len() {
        return (Err(JsonError::EarlyEndOfStream), i);
    }
    if !is_hex_char(s[i]) {
        return (Err(JsonError::InvalidUnicode), i + 1);
    }
    value = value + hex_val_char(s[i]) * 0x10;
    i = i + 1;
    if i >= s.len() {
        return (Err(JsonError::EarlyEndOfStream), i);
    }
    if !is_hex_char(s[i]) {
        return (Err(JsonError::InvalidUnicode), i + 1);
    }
    value = value + hex_val_char(s[i]);
    (Ok(value), i + 1)
}

/// Decodes a `\uXXXX` escape, the cursor standing on the first hex digit.
fn parse_unicode_escape_impl(s: &Vec<char>, pos: usize) -> (r: (Result<char, JsonError>, usize))
    requires
        pos <= s@.len(),
    ensures
        ({
            let (sr, sp) = spec_parse_unicode(s@, pos as int);
            r.1 as int == sp && match (r.0, sr) {
                (Ok(c), Ok(sc)) => c == sc,
                (Err(e), Err(se)) => e@ == se,
                _ => false,
            }
        }),
        pos <= r.1 <= s@.len(),
{
    let (hr, mut i) = parse_hex4(s, pos);
    let cu = match hr {
        Ok(v) => v,
        Err(e) => { return (Err(e), i); },
    };
    if !(0xD800 <= cu && cu <= 0xDFFF) {
        return (Ok(char_from_scalar(cu)), i);
    }
    // a surrogate: it must be the high half of a pair, followed by a literal
    // `\u` and the low half
    if i >= s.len() {
        return (Err(JsonError::EarlyEndOfStream), i);
    }
    if s[i] != '\\' {
        return (Err(JsonError::InvalidUnicode), i + 1);
    }
    i = i + 1;
    if i >= s.len() {
        return (Err(JsonError::EarlyEndOfStream), i);
    }
    if s[i] != 'u' {
        return (Err(JsonError::InvalidUnicode), i + 1);
    }
    i = i + 1;
    let (hr2, k) = parse_hex4(s, i);
    let cu2 = match hr2 {
        Ok(v) => v,
        Err(e) => { return (Err(e), k); },
    };
    if 0xD800 <= cu && cu <= 0xDBFF && 0xDC00 <= cu2 && cu2 <= 0xDFFF {
        let scalar = 0x10000 + (cu - 0xD800) * 0x400 + (cu2 - 0xDC00);
        (Ok(char_from_scalar(scalar)), k)
    } else {
        (Err(JsonError::InvalidUnicode), k)
    }
}

/// Decodes one escape sequence, the cursor standing right after the
/// backslash.
pub fn parse_escape_character_impl(s: &Vec<char>, pos: usize) -> (r: (
    Result<char, JsonError>,
    usize,
))
    requires
        pos <= s@.len(),
    ensures
        ({
            let (sr, sp) = spec_parse_escape(s@, pos as int);
            r.1 as int == sp && match (r.0, sr) {
                (Ok(c), Ok(sc)) => c == sc,
                (Err(e), Err(se)) => e@ == se,
                _ => false,
            }
        }),
        pos <= r.1 <= s@.len(),
        r.0 is Ok ==> pos < r.1,
{
    if pos >= s.len() {
        return (Err(JsonError::EarlyEndOfStream), pos);
    }
    let c = s[pos];
    match c {
        '"' | '\\' | '/' => (Ok(c), pos + 1),
        'n' => (Ok('\n'), pos + 1),
        'r' => (Ok('\r'), pos + 1),
        't' => (Ok('\t'), pos + 1),
        'f' => (Ok('\u{c}'), pos + 1),
        'b' => (Ok('\u{8}'), pos + 1),
        'u' => parse_unicode_escape_impl(s, pos + 1),
        _ => (Err(JsonError::UnknownEscapeCharacter(c)), pos + 1),
    }
}

/// Decodes a string body, the cursor standing right after the opening quote:
/// characters accumulate until an unescaped closing quote.
pub fn parse_string_impl(s: &Vec<char>, pos: usize) -> (r: (Result<String, JsonError>, usize))
    requires
        pos <= s@.len(),
    ensures
        ({
            let (sr, sp) = spec_parse_string(s@, pos as int);
            r.1 as int == sp && match (r.0, sr) {
                (Ok(out), Ok(cs)) => out@ == cs,
                (Err(e), Err(se)) => e@ == se,
                _ => false,
            }
        }),
        pos <= r.1 <= s@.len(),
        r.0 is Ok ==> pos < r.1,
{
    let mut acc: Vec<char> = Vec::new();
    let mut i = pos;
    loop
        invariant
            pos <= i <= s@.len(),
            ({
                let (sr, sp) = spec_parse_string(s@, pos as int);
                let (sri, spi) = spec_parse_string(s@, i as int);
                sp == spi && match (sr, sri) {
                    (Ok(cs), Ok(csi)) => cs == acc@ + csi,
                    (Err(e), Err(ei)) => e == ei,
                    _ => false,
                }
            }),
        decreases s@.len() - i,
    {
        if i >= s.len() {
            return (Err(JsonError::EarlyEndOfStream), i);
        }
        let c = s[i];
        if c == '"' {
            proof {
                let (sri, spi) = spec_parse_string(s@, i as int);
                assert(acc@ + Seq::<char>::empty() =~= acc@);
            }
            return (Ok(chars_to_string(&acc)), i + 1);
        }
        if c == '\\' {
            let (er, j) = parse_escape_character_impl(s, i + 1);
            match er {
                Err(e) => { return (Err(e), j); },
                Ok(dec) => {
                    proof {
                        let (sri2, spi2) = spec_parse_string(s@, j as int);
                        if sri2 is Ok {
                            assert(acc@ + (seq![dec] + sri2->Ok_0) =~= (acc@.push(dec)) + sri2->Ok_0);
                        }
                    }
                    acc.push(dec);
                    i = j;
                },
            }
        } else {
            proof {
                let (sri2, spi2) = spec_parse_string(s@, i + 1);
                if sri2 is Ok {
                    assert(acc@ + (seq![c] + sri2->Ok_0) =~= (acc@.push(c)) + sri2->Ok_0);
                }
            }
            acc.push(c);
            i = i + 1;
        }
    }
}

/// Collects the run of decimal digits starting at the cursor.
fn parse_digits(s: &Vec<char>, pos: usize) -> (r: (Vec<u8>, usize))
    requires
        pos <= s@.len(),
    ensures
        ({
            let (ds, sp) = spec_parse_digits(s@, pos as int);
            r.0@ == ds && r.1 as int == sp
        }),
        pos <= r.1 <= s@.len(),
        r.1 == pos + r.0@.len(),
{
    let mut acc: Vec<u8> = Vec::new();
    let mut i = pos;
    loop
        invariant
            pos <= i <= s@.len(),
            i == pos + acc@.len(),
            ({
                let (ds, sp) = spec_parse_digits(s@, pos as int);
                let (dsi, spi) = spec_parse_digits(s@, i as int);
                sp == spi && ds == acc@ + dsi
            }),
        decreases s@.len() - i,
    {
        if i >= s.len() || !is_digit_char(s[i]) {
            proof {
                let (dsi, spi) = spec_parse_digits(s@, i as int);
                assert(acc@ + Seq::<u8>::empty() =~= acc@);
            }
            return (acc, i);
        }
        let d = digit_val_char(s[i]);
        proof {
            let (dsi2, spi2) = spec_parse_digits(s@, i + 1);
            assert(acc@ + (seq![d] + dsi2) =~= (acc@.push(d)) + dsi2);
        }
        acc.push(d);
        i = i + 1;
    }
}

/// Parses the exponent part, the cursor standing right after the `e`/`E`
/// marker: an optional sign, then one or more digits.
fn parse_exponent_impl(
    s: &Vec<char>,
    pos: usize,
    negative: bool,
    int_digits: Vec<u8>,
    frac_digits: Vec<u8>,
) -> (r: (Result<JsonNumber, JsonError>, usize))
    requires
        pos <= s@.len(),
    ensures
        ({
            let (sr, sp) = spec_parse_exponent(
                s@,
                pos as int,
                negative,
                int_digits@,
                frac_digits@,
            );
            r.1 as int == sp && match (r.0, sr) {
                (Ok(n), Ok(sn)) => n@ == sn,
                (Err(e), Err(se)) => e@ == se,
                _ => false,
            }
        }),
        pos <= r.1 <= s@.len(),
{
    if pos >= s.len() {
        return (Err(JsonError::EarlyEndOfStream), pos);
    }
    let exp_negative = s[pos] == '-';
    let i = if s[pos] == '+' || s[pos] == '-' {
        pos + 1
    } else {
        pos
    };
    if i >= s.len() {
        return (Err(JsonError::EarlyEndOfStream), i);
    }
    if !is_digit_char(s[i]) {
        return (Err(JsonError::UnexpectedChar(s[i])), i + 1);
    }
    let (exp_digits, k) = parse_digits(s, i);
    (
        Ok(JsonNumber { negative, int_digits, frac_digits, exp_negative, exp_digits }),
        k,
    )
}

/// Parses what may follow the integer part of a number: a fraction, an
/// exponent, or nothing. The first character that cannot extend the literal
/// is left in place for the enclosing production.
fn parse_number_rest(s: &Vec<char>, pos: usize, negative: bool, int_digits: Vec<u8>) -> (r: (
    Result<JsonNumber, JsonError>,
    usize,
))
    requires
        pos <= s@.len(),
    ensures
        ({
            let (sr, sp) = spec_parse_number_rest(s@, pos as int, negative, int_digits@);
            r.1 as int == sp && match (r.0, sr) {
                (Ok(n), Ok(sn)) => n@ == sn,
                (Err(e), Err(se)) => e@ == se,
                _ => false,
            }
        }),
        pos <= r.1 <= s@.len(),
{
    if pos < s.len() && s[pos] == '.' {
        let (frac_digits, j) = parse_digits(s, pos + 1);
        if j < s.len() && (s[j] == 'e' || s[j] == 'E') {
            parse_exponent_impl(s, j + 1, negative, int_digits, frac_digits)
        } else {
            (
                Ok(
                    JsonNumber {
                        negative,
                        int_digits,
                        frac_digits,
                        exp_negative: false,
                        exp_digits: Vec::new(),
                    },
                ),
                j,
            )
        }
    } else if pos < s.len() && (s[pos] == 'e' || s[pos] == 'E') {
        parse_exponent_impl(s, pos + 1, negative, int_digits, Vec::new())
    } else {
        (
            Ok(
                JsonNumber {
                    negative,
                    int_digits,
                    frac_digits: Vec::new(),
                    exp_negative: false,
                    exp_digits: Vec::new(),
                },
            ),
            pos,
        )
    }
}

/// Parses a number literal, the cursor standing on its first character. A
/// leading zero is only valid immediately before a fraction, an exponent
/// marker, or the end of the literal.
fn parse_number_impl(s: &Vec<char>, pos: usize) -> (r: (Result<JsonNumber, JsonError>, usize))
    requires
        pos <= s@.len(),
    ensures
        ({
            let (sr, sp) = spec_parse_number(s@, pos as int);
            r.1 as int == sp && match (r.0, sr) {
                (Ok(n), Ok(sn)) => n@ == sn,
                (Err(e), Err(se)) => e@ == se,
                _ => false,
            }
        }),
        pos <= r.1 <= s@.len(),
        r.0 is Ok ==> pos < r.1,
{
    if pos >= s.len() {
        return (Err(JsonError::EarlyEndOfStream), pos);
    }
    let negative = s[pos] == '-';
    let i = if negative {
        pos + 1
    } else {
        pos
    };
    if i >= s.len() {
        return (Err(JsonError::EarlyEndOfStream), i);
    }
    let c = s[i];
    if c == '0' {
        if i + 1 < s.len() && is_digit_char(s[i + 1]) {
            return (Err(JsonError::LeadingZero), i + 2);
        }
        let mut int_digits: Vec<u8> = Vec::new();
        int_digits.push(0);
        proof {
            assert(int_digits@ =~= seq![0u8]);
        }
        parse_number_rest(s, i + 1, negative, int_digits)
    } else if is_digit_char(c) {
        let (int_digits, k) = parse_digits(s, i);
        parse_number_rest(s, k, negative, int_digits)
    } else {
        (Err(JsonError::UnexpectedChar(c)), i + 1)
    }
}

/// Matches the `ull` of `null`, the leading `n` already consumed.
fn parse_null_impl(s: &Vec<char>, pos: usize) -> (r: (Result<JsonObject, JsonError>, usize))
    requires
        pos <= s@.len(),
    ensures
        ({
            let (sr, sp) = spec_parse_keyword(s@, pos as int, seq!['u', 'l', 'l']);
            r.1 as int == sp && match (r.0, sr) {
                (Ok(v), Ok(u)) => v@ == ValueModel::Null,
                (Err(e), Err(se)) => e@ == se,
                _ => false,
            }
        }),
        pos <= r.1 <= s@.len(),
{
    proof {
        reveal_with_fuel(spec_parse_keyword, 5);
    }
    if pos >= s.len() {
        return (Err(JsonError::UnexpectedKeyword), pos);
    }
    if s[pos] != 'u' {
        return (Err(JsonError::UnexpectedKeyword), pos + 1);
    }
    if pos + 1 >= s.len() {
        return (Err(JsonError::UnexpectedKeyword), pos + 1);
    }
    if s[pos + 1] != 'l' {
        return (Err(JsonError::UnexpectedKeyword), pos + 2);
    }
    if pos + 2 >= s.len() {
        return (Err(JsonError::UnexpectedKeyword), pos + 2);
    }
    if s[pos + 2] != 'l' {
        return (Err(JsonError::UnexpectedKeyword), pos + 3);
    }
    (Ok(JsonObject::Null), pos + 3)
}

/// Matches the `rue` of `true`, the leading `t` already consumed.
fn parse_true_impl(s: &Vec<char>, pos: usize) -> (r: (Result<JsonObject, JsonError>, usize))
    requires
        pos <= s@.len(),
    ensures
        ({
            let (sr, sp) = spec_parse_keyword(s@, pos as int, seq!['r', 'u', 'e']);
            r.1 as int == sp && match (r.0, sr) {
                (Ok(v), Ok(u)) => v@ == ValueModel::Boolean(true),
                (Err(e), Err(se)) => e@ == se,
                _ => false,
            }
        }),
        pos <= r.1 <= s@.len(),
{
    proof {
        reveal_with_fuel(spec_parse_keyword, 5);
    }
    if pos >= s.len() {
        return (Err(JsonError::UnexpectedKeyword), pos);
    }
    if s[pos] != 'r' {
        return (Err(JsonError::UnexpectedKeyword), pos + 1);
    }
    if pos + 1 >= s.len() {
        return (Err(JsonError::UnexpectedKeyword), pos + 1);
    }
    if s[pos + 1] != 'u' {
        return (Err(JsonError::UnexpectedKeyword), pos + 2);
    }
    if pos + 2 >= s.len() {
        return (Err(JsonError::UnexpectedKeyword), pos + 2);
    }
    if s[pos + 2] != 'e' {
        return (Err(JsonError::UnexpectedKeyword), pos + 3);
    }
    (Ok(JsonObject::Boolean(true)), pos + 3)
}

/// Matches the `alse` of `false`, the leading `f` already consumed.
fn parse_false_impl(s: &Vec<char>, pos: usize) -> (r: (Result<JsonObject, JsonError>, usize))
    requires
        pos <= s@.len(),
    ensures
        ({
            let (sr, sp) = spec_parse_keyword(s@, pos as int, seq!['a', 'l', 's', 'e']);
            r.1 as int == sp && match (r.0, sr) {
                (Ok(v), Ok(u)) => v@ == ValueModel::Boolean(false),
                (Err(e), Err(se)) => e@ == se,
                _ => false,
            }
        }),
        pos <= r.1 <= s@.len(),
{
    proof {
        reveal_with_fuel(spec_parse_keyword, 6);
    }
    if pos >= s.len() {
        return (Err(JsonError::UnexpectedKeyword), pos);
    }
    if s[pos] != 'a' {
        return (Err(JsonError::UnexpectedKeyword), pos + 1);
    }
    if pos + 1 >= s.len() {
        return (Err(JsonError::UnexpectedKeyword), pos + 1);
    }
    if s[pos + 1] != 'l' {
        return (Err(JsonError::UnexpectedKeyword), pos + 2);
    }
    if pos + 2 >= s.len() {
        return (Err(JsonError::UnexpectedKeyword), pos + 2);
    }
    if s[pos + 2] != 's' {
        return (Err(JsonError::UnexpectedKeyword), pos + 3);
    }
    if pos + 3 >= s.len() {
        return (Err(JsonError::UnexpectedKeyword), pos + 3);
    }
    if s[pos + 3] != 'e' {
        return (Err(JsonError::UnexpectedKeyword), pos + 4);
    }
    (Ok(JsonObject::Boolean(false)), pos + 4)
}

/// Parses one JSON value: leading whitespace, then dispatch on the first
/// character; a character opening no other production must open a number.
fn parse_json_impl(s: &Vec<char>, pos: usize) -> (r: (Result<JsonObject, JsonError>, usize))
    requires
        pos <= s@.len(),
    ensures
        ({
            let (sr, sp) = spec_parse_value(s@, pos as int);
            r.1 as int == sp && match (r.0, sr) {
                (Ok(v), Ok(sv)) => v@ == sv,
                (Err(e), Err(se)) => e@ == se,
                _ => false,
            }
        }),
        pos <= r.1 <= s@.len(),
        r.0 is Ok ==> pos < r.1,
    decreases s@.len() - pos, 0int,
{
    let j = skip_whitespace(s, pos);
    if j >= s.len() {
        return (Err(JsonError::EarlyEndOfStream), j);
    }
    let c = s[j];
    if c == 'n' {
        parse_null_impl(s, j + 1)
    } else if c == 't' {
        parse_true_impl(s, j + 1)
    } else if c == 'f' {
        parse_false_impl(s, j + 1)
    } else if c == '[' {
        let (ar, k) = parse_array_impl(s, j + 1);
        (
            match ar {
                Ok(a) => Ok(JsonObject::Array(a)),
                Err(e) => Err(e),
            },
            k,
        )
    } else if c == '"' {
        let (sr, k) = parse_string_impl(s, j + 1);
        (
            match sr {
                Ok(body) => Ok(JsonObject::String(body)),
                Err(e) => Err(e),
            },
            k,
        )
    } else if c == '{' {
        let (or, k) = parse_object_impl(s, j + 1);
        (
            match or {
                Ok(o) => Ok(JsonObject::Object(o)),
                Err(e) => Err(e),
            },
            k,
        )
    } else {
        let (nr, k) = parse_number_impl(s, j);
        (
            match nr {
                Ok(n) => Ok(JsonObject::Number(n)),
                Err(e) => Err(e),
            },
            k,
        )
    }
}

/// Parses the elements of an array, the cursor standing right after the `[`.
/// Only on the first element may the value parse fail with
/// `UnexpectedChar(']')`: that failure is the empty array.
fn parse_array_impl(s: &Vec<char>, pos: usize) -> (r: (Result<Array, JsonError>, usize))
    requires
        pos <= s@.len(),
    ensures
        ({
            let (sr, sp) = spec_parse_array_items(s@, pos as int, true);
            r.1 as int == sp && match (r.0, sr) {
                (Ok(a), Ok(vs)) => values_view(a@) == vs,
                (Err(e), Err(se)) => e@ == se,
                _ => false,
            }
        }),
        pos <= r.1 <= s@.len(),
    decreases s@.len() - pos, 1int,
{
    let mut vec: Array = Vec::new();
    let mut first = true;
    let mut i = pos;
    proof {
        let (sr, sp) = spec_parse_array_items(s@, pos as int, true);
        assert(values_view(vec@) =~= Seq::<ValueModel>::empty());
        if sr is Ok {
            assert(values_view(vec@) + sr->Ok_0 =~= sr->Ok_0);
        }
    }
    loop
        invariant
            pos <= i <= s@.len(),
            first ==> i == pos,
            ({
                let (sr, sp) = spec_parse_array_items(s@, pos as int, true);
                let (sri, spi) = spec_parse_array_items(s@, i as int, first);
                sp == spi && match (sr, sri) {
                    (Ok(vs), Ok(vsi)) => vs == values_view(vec@) + vsi,
                    (Err(e), Err(ei)) => e == ei,
                    _ => false,
                }
            }),
        decreases s@.len() - i,
    {
        let (vr, j) = parse_json_impl(s, i);
        match vr {
            Err(e) => {
                if first && matches!(e, JsonError::UnexpectedChar(']')) {
                    proof {
                        let (sri, spi) = spec_parse_array_items(s@, i as int, first);
                        assert(values_view(vec@) + Seq::<ValueModel>::empty() =~= values_view(
                            vec@,
                        ));
                    }
                    return (Ok(vec), j);
                }
                return (Err(e), j);
            },
            Ok(v) => {
                let k = skip_whitespace(s, j);
                if k >= s.len() {
                    return (Err(JsonError::EarlyEndOfStream), k);
                }
                let c = s[k];
                if c == ',' {
                    proof {
                        lemma_values_view_push(vec@, v);
                        let (sri2, spi2) = spec_parse_array_items(s@, k + 1, false);
                        if sri2 is Ok {
                            assert(values_view(vec@) + (seq![v@] + sri2->Ok_0) =~= values_view(
                                vec@.push(v),
                            ) + sri2->Ok_0);
                        }
                    }
                    vec.push(v);
                    i = k + 1;
                    first = false;
                } else if c == ']' {
                    proof {
                        lemma_values_view_push(vec@, v);
                        assert(values_view(vec@) + seq![v@] =~= values_view(vec@.push(v)));
                    }
                    vec.push(v);
                    return (Ok(vec), k + 1);
                } else {
                    return (Err(JsonError::UnexpectedChar(c)), k + 1);
                }
            },
        }
    }
}

/// Parses the entries of an object, the cursor standing right after the `{`:
/// a quoted key, a colon, a value, then a comma or the closing brace.
/// Duplicate keys are appended like any other entry.
fn parse_object_impl(s: &Vec<char>, pos: usize) -> (r: (Result<Object, JsonError>, usize))
    requires
        pos <= s@.len(),
    ensures
        ({
            let (sr, sp) = spec_parse_object_items(s@, pos as int, true);
            r.1 as int == sp && match (r.0, sr) {
                (Ok(o), Ok(es)) => o@ == es,
                (Err(e), Err(se)) => e@ == se,
                _ => false,
            }
        }),
        pos <= r.1 <= s@.len(),
    decreases s@.len() - pos, 1int,
{
    let mut entries: ObjectImpl = Vec::new();
    let mut first = true;
    let mut i = pos;
    proof {
        let (sr, sp) = spec_parse_object_items(s@, pos as int, true);
        assert(entries_view(entries@) =~= Seq::<(Seq<char>, ValueModel)>::empty());
        if sr is Ok {
            assert(entries_view(entries@) + sr->Ok_0 =~= sr->Ok_0);
        }
    }
    loop
        invariant
            pos <= i <= s@.len(),
            first ==> i == pos,
            ({
                let (sr, sp) = spec_parse_object_items(s@, pos as int, true);
                let (sri, spi) = spec_parse_object_items(s@, i as int, first);
                sp == spi && match (sr, sri) {
                    (Ok(es), Ok(esi)) => es == entries_view(entries@) + esi,
                    (Err(e), Err(ei)) => e == ei,
                    _ => false,
                }
            }),
        decreases s@.len() - i,
    {
        let j = skip_whitespace(s, i);
        if j >= s.len() {
            return (Err(JsonError::EarlyEndOfStream), j);
        }
        let c = s[j];
        if c == '"' {
            let (kr, p) = parse_string_impl(s, j + 1);
            let key = match kr {
                Ok(k) => k,
                Err(e) => { return (Err(e), p); },
            };
            let q = skip_whitespace(s, p);
            if q >= s.len() {
                return (Err(JsonError::EarlyEndOfStream), q);
            }
            if s[q] != ':' {
                return (Err(JsonError::UnexpectedChar(s[q])), q + 1);
            }
            let (vr, t) = parse_json_impl(s, q + 1);
            let v = match vr {
                Ok(v) => v,
                Err(e) => { return (Err(e), t); },
            };
            let u = skip_whitespace(s, t);
            if u >= s.len() {
                return (Err(JsonError::EarlyEndOfStream), u);
            }
            let c2 = s[u];
            if c2 == ',' {
                proof {
                    lemma_entries_view_push(entries@, (key, v));
                    let (sri2, spi2) = spec_parse_object_items(s@, u + 1, false);
                    if sri2 is Ok {
                        assert(entries_view(entries@) + (seq![(key@, v@)] + sri2->Ok_0)
                            =~= entries_view(entries@.push((key, v))) + sri2->Ok_0);
                    }
                }
                entries.push((key, v));
                i = u + 1;
                first = false;
            } else if c2 == '}' {
                proof {
                    lemma_entries_view_push(entries@, (key, v));
                    assert(entries_view(entries@) + seq![(key@, v@)] =~= entries_view(
                        entries@.push((key, v)),
                    ));
                }
                entries.push((key, v));
                return (Ok(Object::from_impl(entries)), u + 1);
            } else {
                return (Err(JsonError::UnexpectedChar(c2)), u + 1);
            }
        } else if first && c == '}' {
            proof {
                let (sri, spi) = spec_parse_object_items(s@, i as int, first);
                assert(entries_view(entries@) + Seq::<(Seq<char>, ValueModel)>::empty()
                    =~= entries_view(entries@));
            }
            return (Ok(Object::from_impl(entries)), j + 1);
        } else {
            return (Err(JsonError::UnexpectedChar(c)), j + 1);
        }
    }
}

/// Copies the characters of a string slice into a buffer, in order.
fn str_to_chars(s: &str) -> (v: Vec<char>)
    ensures
        v@ == s@,
{
    let n = s.unicode_len();
    let mut v: Vec<char> = Vec::new();
    let mut i: usize = 0;
    while i < n
        invariant
            i <= n,
            n == s@.len(),
            v@ == s@.subrange(0, i as int),
        decreases n - i,
    {
        let c = s.get_char(i);
        proof {
            assert(s@.subrange(0, i as int).push(s@[i as int]) =~= s@.subrange(0, i + 1));
        }
        v.push(c);
        i = i + 1;
    }
    proof {
        assert(s@.subrange(0, s@.len() as int) =~= s@);
    }
    v
}

/// Parses one complete JSON document from a character buffer: one value, then
/// nothing but trailing whitespace. Any stray character makes the whole
/// remainder the `ExtraChars` payload.
pub fn parse_json_from_iter(chars: &Vec<char>) -> (r: Result<JsonObject, JsonError>)
    ensures
        result_view(r) == spec_parse_json(chars@),
        r matches Ok(v) ==> wf_value(v@),
{
    proof {
        lemma_parse_json_wf(chars@);
    }
    let (vr, i) = parse_json_impl(chars, 0);
    let v = match vr {
        Ok(v) => v,
        Err(e) => { return Err(e); },
    };
    let j = skip_whitespace(chars, i);
    if j < chars.len() {
        let mut extra: Vec<char> = Vec::new();
        let mut k = j;
        proof {
            assert(extra@ =~= chars@.subrange(j as int, j as int));
        }
        while k < chars.len()
            invariant
                j <= k <= chars@.len(),
                extra@ == chars@.subrange(j as int, k as int),
            decreases chars@.len() - k,
        {
            proof {
                assert(chars@.subrange(j as int, k as int).push(chars@[k as int])
                    =~= chars@.subrange(j as int, k + 1));
            }
            extra.push(chars[k]);
            k = k + 1;
        }
        Err(JsonError::ExtraChars(extra))
    } else {
        Ok(v)
    }
}

/// Parses one complete JSON document from text.
pub fn parse_json_string(json_str: &str) -> (r: Result<JsonObject, JsonError>)
    ensures
        result_view(r) == spec_parse_json(json_str@),
        r matches Ok(v) ==> wf_value(v@),
{
    let chars = str_to_chars(json_str);
    parse_json_from_iter(&chars)
}

} // verus!
