//! The grammar, stated mathematically: a deterministic recursive descent over
//! a `Seq<char>`. Each function takes the input and a position, and returns
//! the parsed fragment (or the error) together with the position reached.
//! This is the specification the executable walker is proved against.
use vstd::prelude::*;

use crate::error::ErrorModel;
use crate::value::NumberModel;
use crate::value::ValueModel;

verus! {

/// The Unicode `White_Space` characters, the set skipped between tokens.
pub open spec fn is_json_ws(c: char) -> bool {
    ('\u{9}' <= c && c <= '\u{d}') || c == ' ' || c == '\u{85}' || c == '\u{a0}'
        || c == '\u{1680}' || ('\u{2000}' <= c && c <= '\u{200a}') || c == '\u{2028}'
        || c == '\u{2029}' || c == '\u{202f}' || c == '\u{205f}' || c == '\u{3000}'
}

pub open spec fn is_digit(c: char) -> bool {
    '0' <= c && c <= '9'
}

/// The numeric value of a decimal digit character.
pub open spec fn digit_val(c: char) -> u8 {
    (c as u32 - '0' as u32) as u8
}

pub open spec fn is_hex_digit(c: char) -> bool {
    is_digit(c) || ('a' <= c && c <= 'f') || ('A' <= c && c <= 'F')
}

/// The numeric value of a hexadecimal digit character.
pub open spec fn hex_val(c: char) -> int {
    if is_digit(c) {
        c as u32 - '0' as u32
    } else if 'a' <= c && c <= 'f' {
        c as u32 - 'a' as u32 + 10
    } else {
        c as u32 - 'A' as u32 + 10
    }
}

/// The first position at or after `i` holding no whitespace.
pub open spec fn skip_ws(s: Seq<char>, i: int) -> int
    decreases s.len() - i,
{
    if 0 <= i < s.len() && is_json_ws(s[i]) {
        skip_ws(s, i + 1)
    } else {
        i
    }
}

/// Matches the remaining characters of a literal keyword one by one, the way
/// a forward iterator compares them: it stops at the first mismatch and
/// consumes nothing further.
pub open spec fn spec_parse_keyword(s: Seq<char>, i: int, kw: Seq<char>) -> (Result<
    (),
    ErrorModel,
>, int)
    decreases kw.len(),
{
    if kw.len() == 0 {
        (Ok(()), i)
    } else if !(0 <= i < s.len()) {
        (Err(ErrorModel::UnexpectedKeyword), i)
    } else if s[i] == kw[0] {
        spec_parse_keyword(s, i + 1, kw.drop_first())
    } else {
        (Err(ErrorModel::UnexpectedKeyword), i + 1)
    }
}

/// The run of decimal digits starting at `i`: their values, and the position
/// of the first character that is no digit.
pub open spec fn spec_parse_digits(s: Seq<char>, i: int) -> (Seq<u8>, int)
    decreases s.len() - i,
{
    if 0 <= i < s.len() && is_digit(s[i]) {
        let (ds, j) = spec_parse_digits(s, i + 1);
        (seq![digit_val(s[i])] + ds, j)
    } else {
        (seq![], i)
    }
}

/// Exactly four hexadecimal digits starting at `i`, as one code unit.
pub open spec fn spec_hex4(s: Seq<char>, i: int) -> (Result<int, ErrorModel>, int) {
    if !(0 <= i < s.len()) {
        (Err(ErrorModel::EarlyEndOfStream), i)
    } else if !is_hex_digit(s[i]) {
        (Err(ErrorModel::InvalidUnicode), i + 1)
    } else if !(i + 1 < s.len()) {
        (Err(ErrorModel::EarlyEndOfStream), i + 1)
    } else if !is_hex_digit(s[i + 1]) {
        (Err(ErrorModel::InvalidUnicode), i + 2)
    } else if !(i + 2 < s.len()) {
        (Err(ErrorModel::EarlyEndOfStream), i + 2)
    } else if !is_hex_digit(s[i + 2]) {
        (Err(ErrorModel::InvalidUnicode), i + 3)
    } else if !(i + 3 < s.len()) {
        (Err(ErrorModel::EarlyEndOfStream), i + 3)
    } else if !is_hex_digit(s[i + 3]) {
        (Err(ErrorModel::InvalidUnicode), i + 4)
    } else {
        (
            Ok(
                hex_val(s[i]) * 0x1000 + hex_val(s[i + 1]) * 0x100 + hex_val(s[i + 2]) * 0x10
                    + hex_val(s[i + 3]),
            ),
            i + 4,
        )
    }
}

/// A `\uXXXX` escape, `i` standing on the first hex digit. A code unit in the
/// surrogate range must be the high half of a pair and be followed by a
/// literal `\u` and the low half; the pair decodes to one scalar value.
pub open spec fn spec_parse_unicode(s: Seq<char>, i: int) -> (Result<char, ErrorModel>, int) {
    let (r, j) = spec_hex4(s, i);
    match r {
        Err(e) => (Err(e), j),
        Ok(cu) => if !(0xD800 <= cu && cu <= 0xDFFF) {
            (Ok(cu as char), j)
        } else if !(j < s.len()) {
            (Err(ErrorModel::EarlyEndOfStream), j)
        } else if s[j] != '\\' {
            (Err(ErrorModel::InvalidUnicode), j + 1)
        } else if !(j + 1 < s.len()) {
            (Err(ErrorModel::EarlyEndOfStream), j + 1)
        } else if s[j + 1] != 'u' {
            (Err(ErrorModel::InvalidUnicode), j + 2)
        } else {
            let (r2, k) = spec_hex4(s, j + 2);
            match r2 {
                Err(e) => (Err(e), k),
                Ok(cu2) => if 0xD800 <= cu && cu <= 0xDBFF && 0xDC00 <= cu2 && cu2 <= 0xDFFF {
                    (Ok((0x10000 + (cu - 0xD800) * 0x400 + (cu2 - 0xDC00)) as char), k)
                } else {
                    (Err(ErrorModel::InvalidUnicode), k)
                },
            }
        },
    }
}

/// One escape sequence, `i` standing on the character after the backslash.
pub open spec fn spec_parse_escape(s: Seq<char>, i: int) -> (Result<char, ErrorModel>, int) {
    if !(0 <= i < s.len()) {
        (Err(ErrorModel::EarlyEndOfStream), i)
    } else if s[i] == '"' || s[i] == '\\' || s[i] == '/' {
        (Ok(s[i]), i + 1)
    } else if s[i] == 'n' {
        (Ok('\n'), i + 1)
    } else if s[i] == 'r' {
        (Ok('\r'), i + 1)
    } else if s[i] == 't' {
        (Ok('\t'), i + 1)
    } else if s[i] == 'f' {
        (Ok('\u{c}'), i + 1)
    } else if s[i] == 'b' {
        (Ok('\u{8}'), i + 1)
    } else if s[i] == 'u' {
        spec_parse_unicode(s, i + 1)
    } else {
        (Err(ErrorModel::UnknownEscapeCharacter(s[i])), i + 1)
    }
}

/// A string body, `i` standing right after the opening quote: characters
/// accumulate until an unescaped closing quote; a backslash defers to the
/// escape decoder.
pub open spec fn spec_parse_string(s: Seq<char>, i: int) -> (Result<Seq<char>, ErrorModel>, int)
    decreases s.len() - i,
{
    if !(0 <= i < s.len()) {
        (Err(ErrorModel::EarlyEndOfStream), i)
    } else if s[i] == '"' {
        (Ok(seq![]), i + 1)
    } else if s[i] == '\\' {
        let (r, j) = spec_parse_escape(s, i + 1);
        match r {
            Err(e) => (Err(e), j),
            Ok(c) => if i + 1 < j && j <= s.len() {
                let (r2, k) = spec_parse_string(s, j);
                (
                    match r2 {
                        Ok(cs) => Ok(seq![c] + cs),
                        Err(e) => Err(e),
                    },
                    k,
                )
            } else {
                // never reached: the escape decoder moves forward and stays
                // inside the input
                (Err(ErrorModel::EarlyEndOfStream), j)
            },
        }
    } else {
        let (r2, k) = spec_parse_string(s, i + 1);
        (
            match r2 {
                Ok(cs) => Ok(seq![s[i]] + cs),
                Err(e) => Err(e),
            },
            k,
        )
    }
}

/// The exponent part, `i` standing right after the `e`/`E` marker: an
/// optional sign, then one or more digits.
pub open spec fn spec_parse_exponent(
    s: Seq<char>,
    i: int,
    negative: bool,
    int_digits: Seq<u8>,
    frac_digits: Seq<u8>,
) -> (Result<NumberModel, ErrorModel>, int) {
    if !(0 <= i < s.len()) {
        (Err(ErrorModel::EarlyEndOfStream), i)
    } else {
        let exp_negative = s[i] == '-';
        let j = if s[i] == '+' || s[i] == '-' {
            i + 1
        } else {
            i
        };
        if !(j < s.len()) {
            (Err(ErrorModel::EarlyEndOfStream), j)
        } else if !is_digit(s[j]) {
            (Err(ErrorModel::UnexpectedChar(s[j])), j + 1)
        } else {
            let (es, k) = spec_parse_digits(s, j);
            (Ok(NumberModel { negative, int_digits, frac_digits, exp_negative, exp_digits: es }), k)
        }
    }
}

/// What may follow the integer part of a number: a fraction, an exponent, or
/// nothing. The first character that cannot extend the number is left in
/// place as the lookahead for the enclosing production.
pub open spec fn spec_parse_number_rest(
    s: Seq<char>,
    i: int,
    negative: bool,
    int_digits: Seq<u8>,
) -> (Result<NumberModel, ErrorModel>, int) {
    if 0 <= i < s.len() && s[i] == '.' {
        let (fs, j) = spec_parse_digits(s, i + 1);
        if 0 <= j < s.len() && (s[j] == 'e' || s[j] == 'E') {
            spec_parse_exponent(s, j + 1, negative, int_digits, fs)
        } else {
            (
                Ok(
                    NumberModel {
                        negative,
                        int_digits,
                        frac_digits: fs,
                        exp_negative: false,
                        exp_digits: seq![],
                    },
                ),
                j,
            )
        }
    } else if 0 <= i < s.len() && (s[i] == 'e' || s[i] == 'E') {
        spec_parse_exponent(s, i + 1, negative, int_digits, seq![])
    } else {
        (
            Ok(
                NumberModel {
                    negative,
                    int_digits,
                    frac_digits: seq![],
                    exp_negative: false,
                    exp_digits: seq![],
                },
            ),
            i,
        )
    }
}

/// A number literal, `i` standing on its first character (the sign, or the
/// first digit). A leading zero is only valid immediately before a fraction,
/// an exponent marker, or the end of the literal.
pub open spec fn spec_parse_number(s: Seq<char>, i: int) -> (Result<NumberModel, ErrorModel>, int) {
    if !(0 <= i < s.len()) {
        (Err(ErrorModel::EarlyEndOfStream), i)
    } else {
        let negative = s[i] == '-';
        let j = if negative {
            i + 1
        } else {
            i
        };
        if !(j < s.len()) {
            (Err(ErrorModel::EarlyEndOfStream), j)
        } else if s[j] == '0' {
            if j + 1 < s.len() && is_digit(s[j + 1]) {
                (Err(ErrorModel::LeadingZero), j + 2)
            } else {
                spec_parse_number_rest(s, j + 1, negative, seq![0u8])
            }
        } else if is_digit(s[j]) {
            let (ds, k) = spec_parse_digits(s, j);
            spec_parse_number_rest(s, k, negative, ds)
        } else {
            (Err(ErrorModel::UnexpectedChar(s[j])), j + 1)
        }
    }
}

/// One JSON value: leading whitespace, then dispatch on the first character.
pub open spec fn spec_parse_value(s: Seq<char>, i: int) -> (Result<ValueModel, ErrorModel>, int)
    decreases s.len() - i, 0int,
{
    let j = skip_ws(s, i);
    if !(0 <= j < s.len()) {
        (Err(ErrorModel::EarlyEndOfStream), j)
    } else if s[j] == 'n' {
        let (r, k) = spec_parse_keyword(s, j + 1, seq!['u', 'l', 'l']);
        (
            match r {
                Ok(u) => Ok(ValueModel::Null),
                Err(e) => Err(e),
            },
            k,
        )
    } else if s[j] == 't' {
        let (r, k) = spec_parse_keyword(s, j + 1, seq!['r', 'u', 'e']);
        (
            match r {
                Ok(u) => Ok(ValueModel::Boolean(true)),
                Err(e) => Err(e),
            },
            k,
        )
    } else if s[j] == 'f' {
        let (r, k) = spec_parse_keyword(s, j + 1, seq!['a', 'l', 's', 'e']);
        (
            match r {
                Ok(u) => Ok(ValueModel::Boolean(false)),
                Err(e) => Err(e),
            },
            k,
        )
    } else if s[j] == '[' {
        if i <= j {
            let (r, k) = spec_parse_array_items(s, j + 1, true);
            (
                match r {
                    Ok(vs) => Ok(ValueModel::Array(vs)),
                    Err(e) => Err(e),
                },
                k,
            )
        } else {
            // never reached: skipping whitespace cannot move backwards
            (Err(ErrorModel::EarlyEndOfStream), j)
        }
    } else if s[j] == '"' {
        let (r, k) = spec_parse_string(s, j + 1);
        (
            match r {
                Ok(cs) => Ok(ValueModel::String(cs)),
                Err(e) => Err(e),
            },
            k,
        )
    } else if s[j] == '{' {
        if i <= j {
            let (r, k) = spec_parse_object_items(s, j + 1, true);
            (
                match r {
                    Ok(es) => Ok(ValueModel::Object(es)),
                    Err(e) => Err(e),
                },
                k,
            )
        } else {
            // never reached: skipping whitespace cannot move backwards
            (Err(ErrorModel::EarlyEndOfStream), j)
        }
    } else {
        let (r, k) = spec_parse_number(s, j);
        (
            match r {
                Ok(n) => Ok(ValueModel::Number(n)),
                Err(e) => Err(e),
            },
            k,
        )
    }
}

/// The elements of an array, `i` standing right after the `[` or after a
/// comma. Only on the first element may the value parse fail with
/// `UnexpectedChar(']')`: that failure is the empty array.
pub open spec fn spec_parse_array_items(s: Seq<char>, i: int, first: bool) -> (Result<
    Seq<ValueModel>,
    ErrorModel,
>, int)
    decreases s.len() - i, 1int,
{
    let (r, j) = spec_parse_value(s, i);
    match r {
        Err(e) => if first && e == ErrorModel::UnexpectedChar(']') {
            (Ok(seq![]), j)
        } else {
            (Err(e), j)
        },
        Ok(v) => {
            let k = skip_ws(s, j);
            if !(0 <= k < s.len()) {
                (Err(ErrorModel::EarlyEndOfStream), k)
            } else if s[k] == ',' {
                if i <= k {
                    let (r2, m) = spec_parse_array_items(s, k + 1, false);
                    (
                        match r2 {
                            Ok(vs) => Ok(seq![v] + vs),
                            Err(e) => Err(e),
                        },
                        m,
                    )
                } else {
                    // never reached: an element parse never moves backwards
                    (Err(ErrorModel::EarlyEndOfStream), k)
                }
            } else if s[k] == ']' {
                (Ok(seq![v]), k + 1)
            } else {
                (Err(ErrorModel::UnexpectedChar(s[k])), k + 1)
            }
        },
    }
}

/// The entries of an object, `i` standing right after the `{` or after a
/// comma: a quoted key, a colon, a value, then a comma or the closing brace.
/// Duplicate keys are kept; only a first entry may be the closing brace.
pub open spec fn spec_parse_object_items(s: Seq<char>, i: int, first: bool) -> (Result<
    Seq<(Seq<char>, ValueModel)>,
    ErrorModel,
>, int)
    decreases s.len() - i, 1int,
{
    let j = skip_ws(s, i);
    if !(0 <= j < s.len()) {
        (Err(ErrorModel::EarlyEndOfStream), j)
    } else if s[j] == '"' {
        let (kr, p) = spec_parse_string(s, j + 1);
        match kr {
            Err(e) => (Err(e), p),
            Ok(key) => {
                let q = skip_ws(s, p);
                if !(0 <= q < s.len()) {
                    (Err(ErrorModel::EarlyEndOfStream), q)
                } else if s[q] != ':' {
                    (Err(ErrorModel::UnexpectedChar(s[q])), q + 1)
                } else if !(i <= q) {
                    // never reached: a key parse never moves backwards
                    (Err(ErrorModel::EarlyEndOfStream), q)
                } else {
                    let (vr, t) = spec_parse_value(s, q + 1);
                    match vr {
                        Err(e) => (Err(e), t),
                        Ok(v) => {
                            let u = skip_ws(s, t);
                            if !(0 <= u < s.len()) {
                                (Err(ErrorModel::EarlyEndOfStream), u)
                            } else if s[u] == ',' {
                                if i <= u {
                                    let (r2, m) = spec_parse_object_items(s, u + 1, false);
                                    (
                                        match r2 {
                                            Ok(es) => Ok(seq![(key, v)] + es),
                                            Err(e) => Err(e),
                                        },
                                        m,
                                    )
                                } else {
                                    // never reached: an entry parse never moves backwards
                                    (Err(ErrorModel::EarlyEndOfStream), u)
                                }
                            } else if s[u] == '}' {
                                (Ok(seq![(key, v)]), u + 1)
                            } else {
                                (Err(ErrorModel::UnexpectedChar(s[u])), u + 1)
                            }
                        },
                    }
                }
            },
        }
    } else if first && s[j] == '}' {
        (Ok(seq![]), j + 1)
    } else {
        (Err(ErrorModel::UnexpectedChar(s[j])), j + 1)
    }
}

/// A whole document: one value, then nothing but trailing whitespace. If any
/// non-whitespace character remains, everything from it to the end of the
/// input is the `ExtraChars` payload.
pub open spec fn spec_parse_json(s: Seq<char>) -> Result<ValueModel, ErrorModel> {
    let (r, i) = spec_parse_value(s, 0);
    match r {
        Err(e) => Err(e),
        Ok(v) => {
            let j = skip_ws(s, i);
            if j < s.len() {
                Err(ErrorModel::ExtraChars(s.subrange(j, s.len() as int)))
            } else {
                Ok(v)
            }
        },
    }
}

} // verus!
