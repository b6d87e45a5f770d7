//! Serializing a value and parsing the text back yields the value again.
//! The serializer here is a mathematical one (the system itself ships no
//! writer): it fixes one canonical text per value, and the lemmas prove that
//! the grammar maps that text back to the value — so any writer that emits
//! this form round-trips through the parser.
use vstd::prelude::*;

use crate::error::ErrorModel;
use crate::grammar::digit_val;
use crate::grammar::is_digit;
use crate::grammar::is_json_ws;
use crate::grammar::skip_ws;
use crate::grammar::spec_parse_digits;
use crate::grammar::spec_parse_escape;
use crate::grammar::spec_parse_array_items;
use crate::grammar::spec_parse_json;
use crate::grammar::spec_parse_object_items;
use crate::grammar::spec_parse_keyword;
use crate::grammar::spec_parse_number;
use crate::grammar::spec_parse_number_rest;
use crate::grammar::spec_parse_exponent;
use crate::grammar::spec_parse_string;
use crate::grammar::spec_parse_value;
use crate::value::NumberModel;
use crate::value::ValueModel;

verus! {

// ---------------------------------------------------------------------------
// Well-formed values
// ---------------------------------------------------------------------------

/// Digit values only.
pub open spec fn wf_digits(ds: Seq<u8>) -> bool {
    forall|i: int| 0 <= i < ds.len() ==> ds[i] <= 9
}

/// The shapes of number the grammar itself can produce: digit values
/// throughout, a nonempty integer part without a superfluous leading zero,
/// and no exponent sign without an exponent.
pub open spec fn wf_number(n: NumberModel) -> bool {
    &&& wf_digits(n.int_digits)
    &&& wf_digits(n.frac_digits)
    &&& wf_digits(n.exp_digits)
    &&& n.int_digits.len() >= 1
    &&& (n.int_digits.len() > 1 ==> n.int_digits[0] != 0)
    &&& (n.exp_digits.len() == 0 ==> !n.exp_negative)
}

/// Every number in the tree is well-formed.
pub open spec fn wf_value(v: ValueModel) -> bool
    decreases v,
{
    match v {
        ValueModel::Object(es) => wf_entries(es),
        ValueModel::Array(vs) => wf_values(vs),
        ValueModel::String(cs) => true,
        ValueModel::Boolean(b) => true,
        ValueModel::Number(n) => wf_number(n),
        ValueModel::Null => true,
    }
}

/// Every element of the sequence is well-formed.
pub open spec fn wf_values(vs: Seq<ValueModel>) -> bool
    decreases vs,
{
    if vs.len() == 0 {
        true
    } else {
        wf_value(vs.first()) && wf_values(vs.drop_first())
    }
}

/// Every entry value of the sequence is well-formed.
pub open spec fn wf_entries(es: Seq<(Seq<char>, ValueModel)>) -> bool
    decreases es,
{
    if es.len() == 0 {
        true
    } else {
        wf_value(es.first().1) && wf_entries(es.drop_first())
    }
}

// ---------------------------------------------------------------------------
// The canonical serialization
// ---------------------------------------------------------------------------

/// The character of a digit value.
pub open spec fn digit_char(d: u8) -> char {
    if d == 0 {
        '0'
    } else if d == 1 {
        '1'
    } else if d == 2 {
        '2'
    } else if d == 3 {
        '3'
    } else if d == 4 {
        '4'
    } else if d == 5 {
        '5'
    } else if d == 6 {
        '6'
    } else if d == 7 {
        '7'
    } else if d == 8 {
        '8'
    } else {
        '9'
    }
}

/// Digit values as digit characters.
pub open spec fn ser_digits(ds: Seq<u8>) -> Seq<char>
    decreases ds.len(),
{
    if ds.len() == 0 {
        seq![]
    } else {
        seq![digit_char(ds.first())] + ser_digits(ds.drop_first())
    }
}

/// A number literal: sign, integer part, fraction and exponent where present.
pub open spec fn ser_number(n: NumberModel) -> Seq<char> {
    let sign: Seq<char> = if n.negative {
        seq!['-']
    } else {
        seq![]
    };
    let frac: Seq<char> = if n.frac_digits.len() > 0 {
        seq!['.'] + ser_digits(n.frac_digits)
    } else {
        seq![]
    };
    let exp: Seq<char> = if n.exp_digits.len() > 0 {
        seq!['e'] + (if n.exp_negative {
            seq!['-']
        } else {
            seq![]
        }) + ser_digits(n.exp_digits)
    } else {
        seq![]
    };
    sign + ser_digits(n.int_digits) + frac + exp
}

/// A string body: quotes and backslashes escaped, everything else verbatim.
pub open spec fn ser_string_body(cs: Seq<char>) -> Seq<char>
    decreases cs.len(),
{
    if cs.len() == 0 {
        seq![]
    } else {
        let head: Seq<char> = if cs.first() == '"' || cs.first() == '\\' {
            seq!['\\', cs.first()]
        } else {
            seq![cs.first()]
        };
        head + ser_string_body(cs.drop_first())
    }
}

/// One value as text, with no whitespace anywhere.
pub open spec fn ser_value(v: ValueModel) -> Seq<char>
    decreases v,
{
    match v {
        ValueModel::Null => seq!['n', 'u', 'l', 'l'],
        ValueModel::Boolean(b) => if b {
            seq!['t', 'r', 'u', 'e']
        } else {
            seq!['f', 'a', 'l', 's', 'e']
        },
        ValueModel::Number(n) => ser_number(n),
        ValueModel::String(cs) => seq!['"'] + ser_string_body(cs) + seq!['"'],
        ValueModel::Array(vs) => if vs.len() == 0 {
            seq!['[', ']']
        } else {
            seq!['['] + ser_values(vs) + seq![']']
        },
        ValueModel::Object(es) => if es.len() == 0 {
            seq!['{', '}']
        } else {
            seq!['{'] + ser_entries(es) + seq!['}']
        },
    }
}

/// Comma-separated elements, at least one.
pub open spec fn ser_values(vs: Seq<ValueModel>) -> Seq<char>
    decreases vs,
{
    if vs.len() <= 1 {
        if vs.len() == 0 {
            seq![]
        } else {
            ser_value(vs.first())
        }
    } else {
        ser_value(vs.first()) + seq![','] + ser_values(vs.drop_first())
    }
}

/// Comma-separated `"key":value` entries, at least one.
pub open spec fn ser_entries(es: Seq<(Seq<char>, ValueModel)>) -> Seq<char>
    decreases es,
{
    if es.len() <= 1 {
        if es.len() == 0 {
            seq![]
        } else {
            ser_entry(es.first())
        }
    } else {
        ser_entry(es.first()) + seq![','] + ser_entries(es.drop_first())
    }
}

/// One `"key":value` entry.
pub open spec fn ser_entry(e: (Seq<char>, ValueModel)) -> Seq<char>
    decreases e,
{
    seq!['"'] + ser_string_body(e.0) + seq!['"', ':'] + ser_value(e.1)
}

// ---------------------------------------------------------------------------
// The parser inverts the serializer
// ---------------------------------------------------------------------------

/// `w` occupies `s` from `i` on.
pub open spec fn window_at(s: Seq<char>, i: int, w: Seq<char>) -> bool {
    0 <= i && i + w.len() <= s.len() && s.subrange(i, i + w.len()) == w
}

/// No character that could extend a number literal stands at `p`.
pub open spec fn number_boundary(s: Seq<char>, p: int) -> bool {
    p >= s.len() || !(is_digit(s[p]) || s[p] == '.' || s[p] == 'e' || s[p] == 'E')
}

/// A window maps each of its characters onto the input.
proof fn lemma_window_index(s: Seq<char>, i: int, w: Seq<char>)
    requires
        window_at(s, i, w),
    ensures
        forall|k: int| 0 <= k < w.len() ==> s[i + k] == w[k],
{
    assert forall|k: int| 0 <= k < w.len() implies s[i + k] == w[k] by {
        assert(s.subrange(i, i + w.len())[k] == s[i + k]);
    }
}

/// A window over a concatenation splits into two windows.
proof fn lemma_window_split(s: Seq<char>, i: int, w1: Seq<char>, w2: Seq<char>)
    requires
        window_at(s, i, w1 + w2),
    ensures
        window_at(s, i, w1),
        window_at(s, i + w1.len(), w2),
{
    let w = w1 + w2;
    assert forall|k: int| 0 <= k < w1.len() implies s.subrange(i, i + w1.len())[k] == w1[k] by {
        assert(s.subrange(i, i + w.len())[k] == w[k]);
    }
    assert(s.subrange(i, i + w1.len()) =~= w1);
    assert forall|k: int|
        0 <= k < w2.len() implies s.subrange(i + w1.len(), i + w1.len() + w2.len())[k] == w2[k] by {
        assert(s.subrange(i, i + w.len())[w1.len() + k] == w[w1.len() + k]);
    }
    assert(s.subrange(i + w1.len(), i + w1.len() + w2.len()) =~= w2);
}

/// The character of a digit value is a digit character of that value.
proof fn lemma_digit_char(d: u8)
    requires
        d <= 9,
    ensures
        is_digit(digit_char(d)),
        digit_val(digit_char(d)) == d,
        digit_char(d) == '0' <==> d == 0,
{
}

/// Serialized digits: one character per digit value.
proof fn lemma_ser_digits(ds: Seq<u8>)
    ensures
        ser_digits(ds).len() == ds.len(),
        forall|k: int| 0 <= k < ds.len() ==> ser_digits(ds)[k] == digit_char(ds[k]),
    decreases ds.len(),
{
    if ds.len() > 0 {
        lemma_ser_digits(ds.drop_first());
    }
}

/// Parsing a serialized digit run, with no digit following, yields exactly
/// those digit values.
proof fn lemma_parse_digits_exact(ds: Seq<u8>, s: Seq<char>, i: int)
    requires
        wf_digits(ds),
        window_at(s, i, ser_digits(ds)),
        i + ds.len() < s.len() ==> !is_digit(s[i + ds.len()]),
    ensures
        spec_parse_digits(s, i) == (ds, i + ds.len()),
    decreases ds.len(),
{
    lemma_ser_digits(ds);
    if ds.len() == 0 {
    } else {
        let d = ds.first();
        lemma_digit_char(d);
        lemma_window_index(s, i, ser_digits(ds));
        assert(s[i + 0] == ser_digits(ds)[0]);
        assert(s[i] == digit_char(d));
        assert(ser_digits(ds) =~= seq![digit_char(d)] + ser_digits(ds.drop_first()));
        lemma_window_split(s, i, seq![digit_char(d)], ser_digits(ds.drop_first()));
        assert(wf_digits(ds.drop_first()));
        lemma_parse_digits_exact(ds.drop_first(), s, i + 1);
        assert(seq![digit_val(s[i])] + ds.drop_first() =~= ds);
    }
}

/// Parsing at a window holding exactly the keyword succeeds and stops right
/// after it.
proof fn lemma_parse_keyword_exact(s: Seq<char>, i: int, kw: Seq<char>)
    requires
        window_at(s, i, kw),
    ensures
        spec_parse_keyword(s, i, kw) == (Result::<(), ErrorModel>::Ok(()), i + kw.len()),
    decreases kw.len(),
{
    if kw.len() > 0 {
        lemma_window_index(s, i, kw);
        assert(s[i + 0] == kw[0]);
        assert(s[i] == kw[0]);
        assert(kw =~= seq![kw[0]] + kw.drop_first());
        lemma_window_split(s, i, seq![kw[0]], kw.drop_first());
        lemma_parse_keyword_exact(s, i + 1, kw.drop_first());
    }
}

/// Parsing a serialized string body followed by the closing quote yields
/// exactly the original characters.
proof fn lemma_parse_string_exact(cs: Seq<char>, s: Seq<char>, i: int)
    requires
        window_at(s, i, ser_string_body(cs) + seq!['"']),
    ensures
        spec_parse_string(s, i) == (
            Result::<Seq<char>, ErrorModel>::Ok(cs),
            i + ser_string_body(cs).len() + 1,
        ),
    decreases cs.len(),
{
    lemma_window_index(s, i, ser_string_body(cs) + seq!['"']);
    assert(s[i + 0] == (ser_string_body(cs) + seq!['"'])[0]);
    if cs.len() == 0 {
        assert(s[i] == '"');
        assert(cs =~= seq![]);
    } else {
        let c = cs.first();
        if c == '"' || c == '\\' {
            assert(ser_string_body(cs) == seq!['\\', c] + ser_string_body(cs.drop_first()));
            assert(ser_string_body(cs) + seq!['"'] =~= seq!['\\', c] + (ser_string_body(
                cs.drop_first(),
            ) + seq!['"']));
            lemma_window_split(s, i, seq!['\\', c], ser_string_body(cs.drop_first()) + seq!['"']);
            lemma_window_index(s, i, seq!['\\', c]);
            assert(s[i + 0] == seq!['\\', c][0]);
            assert(s[i + 1] == seq!['\\', c][1]);
            assert(s[i] == '\\');
            assert(s[i + 1] == c);
            lemma_parse_string_exact(cs.drop_first(), s, i + 2);
            assert(seq![c] + cs.drop_first() =~= cs);
        } else {
            assert(ser_string_body(cs) == seq![c] + ser_string_body(cs.drop_first()));
            assert(ser_string_body(cs) + seq!['"'] =~= seq![c] + (ser_string_body(cs.drop_first())
                + seq!['"']));
            lemma_window_split(s, i, seq![c], ser_string_body(cs.drop_first()) + seq!['"']);
            assert(s[i] == c);
            lemma_parse_string_exact(cs.drop_first(), s, i + 1);
            assert(seq![c] + cs.drop_first() =~= cs);
        }
    }
}

/// Parsing a serialized number, with no extending character following,
/// yields exactly the original number.
#[verifier::rlimit(50)]
proof fn lemma_parse_number_exact(n: NumberModel, s: Seq<char>, i: int)
    requires
        wf_number(n),
        window_at(s, i, ser_number(n)),
        number_boundary(s, i + ser_number(n).len()),
    ensures
        spec_parse_number(s, i) == (
            Result::<NumberModel, ErrorModel>::Ok(n),
            i + ser_number(n).len(),
        ),
{
    lemma_ser_digits(n.int_digits);
    lemma_ser_digits(n.frac_digits);
    lemma_ser_digits(n.exp_digits);
    let sign: Seq<char> = if n.negative {
        seq!['-']
    } else {
        seq![]
    };
    let ints = ser_digits(n.int_digits);
    let frac: Seq<char> = if n.frac_digits.len() > 0 {
        seq!['.'] + ser_digits(n.frac_digits)
    } else {
        seq![]
    };
    let esign: Seq<char> = if n.exp_negative {
        seq!['-']
    } else {
        seq![]
    };
    let exp: Seq<char> = if n.exp_digits.len() > 0 {
        seq!['e'] + esign + ser_digits(n.exp_digits)
    } else {
        seq![]
    };
    let w = ser_number(n);
    assert(w == sign + ints + frac + exp);
    assert(w =~= sign + (ints + (frac + exp)));
    lemma_window_split(s, i, sign, ints + (frac + exp));
    let i1 = i + sign.len();
    lemma_window_split(s, i1, ints, frac + exp);
    let i2 = i1 + ints.len();
    lemma_window_split(s, i2, frac, exp);
    let i3 = i2 + frac.len();
    let end = i3 + exp.len();
    assert(end == i + w.len());
    lemma_window_index(s, i1, ints);
    assert(s[i1 + 0] == ints[0]);
    assert(s[i1] == digit_char(n.int_digits[0]));
    lemma_digit_char(n.int_digits[0]);
    if n.negative {
        lemma_window_index(s, i, sign);
        assert(s[i + 0] == sign[0]);
        assert(s[i] == '-');
    } else {
        assert(i1 == i);
    }
    // the character right after the integer digits, if any
    if n.frac_digits.len() > 0 {
        lemma_window_index(s, i2, frac);
        assert(s[i2 + 0] == frac[0]);
        assert(s[i2] == '.');
    } else if n.exp_digits.len() > 0 {
        assert(i2 == i3);
        lemma_window_index(s, i3, exp);
        assert(s[i3 + 0] == exp[0]);
        assert(s[i3] == 'e');
    } else {
        assert(i2 == end);
    }
    // the integer part
    if n.int_digits =~= seq![0u8] {
        // the bare-zero path: the next character is no digit
        assert(s[i1] == '0');
        assert(i2 == i1 + 1);
    } else {
        // a nonzero first digit starts plain accumulation
        assert(n.int_digits[0] != 0);
        assert(s[i1] != '0');
        lemma_parse_digits_exact(n.int_digits, s, i1);
    }
    // the fraction part
    if n.frac_digits.len() > 0 {
        assert(frac =~= seq!['.'] + ser_digits(n.frac_digits));
        lemma_window_split(s, i2, seq!['.'], ser_digits(n.frac_digits));
        if n.exp_digits.len() > 0 {
            lemma_window_index(s, i3, exp);
            assert(s[i3 + 0] == exp[0]);
            assert(s[i3] == 'e');
        } else {
            assert(i3 == end);
        }
        lemma_parse_digits_exact(n.frac_digits, s, i2 + 1);
    } else {
        assert(n.frac_digits =~= seq![]);
    }
    // the exponent part
    if n.exp_digits.len() > 0 {
        assert(exp =~= seq!['e'] + (esign + ser_digits(n.exp_digits)));
        lemma_window_split(s, i3, seq!['e'], esign + ser_digits(n.exp_digits));
        let i4 = i3 + 1;
        lemma_window_split(s, i4, esign, ser_digits(n.exp_digits));
        let i5 = i4 + esign.len();
        lemma_window_index(s, i5, ser_digits(n.exp_digits));
        assert(s[i5 + 0] == ser_digits(n.exp_digits)[0]);
        assert(s[i5] == digit_char(n.exp_digits[0]));
        lemma_digit_char(n.exp_digits[0]);
        if n.exp_negative {
            lemma_window_index(s, i4, esign);
            assert(s[i4 + 0] == esign[0]);
            assert(s[i4] == '-');
        } else {
            assert(i5 == i4);
        }
        lemma_parse_digits_exact(n.exp_digits, s, i5);
    } else {
        assert(n.exp_digits =~= seq![]);
    }
}

/// A serialized well-formed value is never empty.
proof fn lemma_ser_value_nonempty(v: ValueModel)
    requires
        wf_value(v),
    ensures
        ser_value(v).len() >= 1,
{
    match v {
        ValueModel::Number(n) => {
            lemma_ser_digits(n.int_digits);
        },
        _ => {},
    }
}

/// Parsing at a window holding a serialized well-formed value, with no
/// number-extending character following, yields exactly that value.
#[verifier::rlimit(100)]
#[verifier::spinoff_prover]
proof fn lemma_parse_value_exact(v: ValueModel, s: Seq<char>, i: int)
    requires
        wf_value(v),
        window_at(s, i, ser_value(v)),
        v is Number ==> number_boundary(s, i + ser_value(v).len()),
    ensures
        spec_parse_value(s, i) == (
            Result::<ValueModel, ErrorModel>::Ok(v),
            i + ser_value(v).len(),
        ),
    decreases v,
{
    let w = ser_value(v);
    lemma_window_index(s, i, w);
    assert(s[i + 0] == w[0]);
    match v {
        ValueModel::Null => {
            assert(w =~= seq!['n'] + seq!['u', 'l', 'l']);
            lemma_window_split(s, i, seq!['n'], seq!['u', 'l', 'l']);
            lemma_parse_keyword_exact(s, i + 1, seq!['u', 'l', 'l']);
            assert(spec_parse_value(s, i) == (Result::<ValueModel, ErrorModel>::Ok(v), i + w.len()));
        },
        ValueModel::Boolean(b) => {
            if b {
                assert(w =~= seq!['t'] + seq!['r', 'u', 'e']);
                lemma_window_split(s, i, seq!['t'], seq!['r', 'u', 'e']);
                lemma_parse_keyword_exact(s, i + 1, seq!['r', 'u', 'e']);
                assert(spec_parse_value(s, i) == (Result::<ValueModel, ErrorModel>::Ok(v), i + w.len()));
                } else {
                assert(w =~= seq!['f'] + seq!['a', 'l', 's', 'e']);
                lemma_window_split(s, i, seq!['f'], seq!['a', 'l', 's', 'e']);
                lemma_parse_keyword_exact(s, i + 1, seq!['a', 'l', 's', 'e']);
                assert(spec_parse_value(s, i) == (Result::<ValueModel, ErrorModel>::Ok(v), i + w.len()));
                }
        },
        ValueModel::Number(n) => {
            // the first character is a sign or a digit, so no other
            // production opens, and skipping whitespace stands still
            lemma_ser_digits(n.int_digits);
            if !n.negative {
                assert(w[0] == ser_digits(n.int_digits)[0]);
                assert(w[0] == digit_char(n.int_digits[0]));
                lemma_digit_char(n.int_digits[0]);
            }
            lemma_parse_number_exact(n, s, i);
            assert(spec_parse_value(s, i) == (Result::<ValueModel, ErrorModel>::Ok(v), i + w.len()));
        },
        ValueModel::String(cs) => {
            assert(w =~= seq!['"'] + (ser_string_body(cs) + seq!['"']));
            lemma_window_split(s, i, seq!['"'], ser_string_body(cs) + seq!['"']);
            lemma_parse_string_exact(cs, s, i + 1);
            assert(spec_parse_value(s, i) == (Result::<ValueModel, ErrorModel>::Ok(v), i + w.len()));
        },
        ValueModel::Array(vs) => {
            if vs.len() == 0 {
                reveal_with_fuel(spec_parse_value, 2);
                assert(vs =~= Seq::<ValueModel>::empty());
                assert(w =~= seq!['['] + seq![']']);
                lemma_window_index(s, i, w);
                assert(s[i + 1] == w[1]);
                assert(s[i + 1] == ']');
                assert(spec_parse_value(s, i) == (Result::<ValueModel, ErrorModel>::Ok(v), i + w.len()));
                } else {
                assert(w =~= seq!['['] + (ser_values(vs) + seq![']']));
                lemma_window_split(s, i, seq!['['], ser_values(vs) + seq![']']);
                lemma_parse_values_exact(vs, s, i + 1, true);
                assert(spec_parse_value(s, i) == (Result::<ValueModel, ErrorModel>::Ok(v), i + w.len()));
                }
        },
        ValueModel::Object(es) => {
            if es.len() == 0 {
                assert(es =~= Seq::<(Seq<char>, ValueModel)>::empty());
                assert(w =~= seq!['{'] + seq!['}']);
                lemma_window_index(s, i, w);
                assert(s[i + 1] == w[1]);
                assert(s[i + 1] == '}');
                assert(spec_parse_value(s, i) == (Result::<ValueModel, ErrorModel>::Ok(v), i + w.len()));
                } else {
                assert(w =~= seq!['{'] + (ser_entries(es) + seq!['}']));
                lemma_window_split(s, i, seq!['{'], ser_entries(es) + seq!['}']);
                lemma_parse_entries_exact(es, s, i + 1, true);
                assert(spec_parse_value(s, i) == (Result::<ValueModel, ErrorModel>::Ok(v), i + w.len()));
                }
        },
    }
}

/// Parsing at a window holding serialized array elements and the closing
/// bracket yields exactly those elements.
#[verifier::rlimit(50)]
proof fn lemma_parse_values_exact(vs: Seq<ValueModel>, s: Seq<char>, i: int, first: bool)
    requires
        wf_values(vs),
        vs.len() >= 1,
        window_at(s, i, ser_values(vs) + seq![']']),
    ensures
        spec_parse_array_items(s, i, first) == (
            Result::<Seq<ValueModel>, ErrorModel>::Ok(vs),
            i + ser_values(vs).len() + 1,
        ),
    decreases vs,
{
    let v0 = vs.first();
    let w0 = ser_value(v0);
    lemma_ser_value_nonempty(v0);
    if vs.len() == 1 {
        assert(ser_values(vs) == w0);
        assert(ser_values(vs) + seq![']'] =~= w0 + seq![']']);
        lemma_window_split(s, i, w0, seq![']']);
        let j = i + w0.len();
        lemma_window_index(s, j, seq![']']);
        assert(s[j + 0] == seq![']'][0]);
        assert(s[j] == ']');
        lemma_parse_value_exact(v0, s, i);
        assert(seq![v0] =~= vs);
    } else {
        let rest = ser_values(vs.drop_first()) + seq![']'];
        assert(ser_values(vs) == w0 + seq![','] + ser_values(vs.drop_first()));
        assert(ser_values(vs) + seq![']'] =~= w0 + (seq![','] + rest));
        lemma_window_split(s, i, w0, seq![','] + rest);
        let j = i + w0.len();
        lemma_window_split(s, j, seq![','], rest);
        lemma_window_index(s, j, seq![',']);
        assert(s[j + 0] == seq![','][0]);
        assert(s[j] == ',');
        lemma_parse_value_exact(v0, s, i);
        lemma_parse_values_exact(vs.drop_first(), s, j + 1, false);
        assert(seq![v0] + vs.drop_first() =~= vs);
    }
}

/// Parsing at a window holding serialized object entries and the closing
/// brace yields exactly those entries.
#[verifier::rlimit(80)]
proof fn lemma_parse_entries_exact(es: Seq<(Seq<char>, ValueModel)>, s: Seq<char>, i: int, first: bool)
    requires
        wf_entries(es),
        es.len() >= 1,
        window_at(s, i, ser_entries(es) + seq!['}']),
    ensures
        spec_parse_object_items(s, i, first) == (
            Result::<Seq<(Seq<char>, ValueModel)>, ErrorModel>::Ok(es),
            i + ser_entries(es).len() + 1,
        ),
    decreases es,
{
    let e0 = es.first();
    let kb = ser_string_body(e0.0);
    let w0 = ser_entry(e0);
    let vw = ser_value(e0.1);
    assert(w0 == seq!['"'] + kb + seq!['"', ':'] + vw);
    let closer: Seq<char> = if es.len() == 1 {
        seq!['}']
    } else {
        seq![','] + (ser_entries(es.drop_first()) + seq!['}'])
    };
    if es.len() == 1 {
        assert(ser_entries(es) == w0);
        assert(ser_entries(es) + seq!['}'] =~= w0 + closer);
    } else {
        assert(ser_entries(es) == w0 + seq![','] + ser_entries(es.drop_first()));
        assert(ser_entries(es) + seq!['}'] =~= w0 + closer);
    }
    // carve the entry into quote, key body with its quote, colon, value
    assert(w0 + closer =~= seq!['"'] + ((kb + seq!['"']) + (seq![':'] + (vw + closer))));
    lemma_window_split(s, i, seq!['"'], (kb + seq!['"']) + (seq![':'] + (vw + closer)));
    lemma_window_index(s, i, seq!['"']);
    assert(s[i + 0] == seq!['"'][0]);
    assert(s[i] == '"');
    lemma_window_split(s, i + 1, kb + seq!['"'], seq![':'] + (vw + closer));
    let p = i + 1 + (kb.len() + 1);
    lemma_window_split(s, p, seq![':'], vw + closer);
    lemma_window_index(s, p, seq![':']);
    assert(s[p + 0] == seq![':'][0]);
    assert(s[p] == ':');
    let q = p + 1;
    lemma_window_split(s, q, vw, closer);
    let t = q + vw.len();
    lemma_window_index(s, t, closer);
    assert(s[t + 0] == closer[0]);
    lemma_parse_string_exact(e0.0, s, i + 1);
    lemma_parse_value_exact(e0.1, s, q);
    if es.len() == 1 {
        assert(s[t] == '}');
        assert(seq![(e0.0, e0.1)] =~= es);
    } else {
        assert(s[t] == ',');
        assert(closer =~= seq![','] + (ser_entries(es.drop_first()) + seq!['}']));
        lemma_window_split(s, t, seq![','], ser_entries(es.drop_first()) + seq!['}']);
        lemma_parse_entries_exact(es.drop_first(), s, t + 1, false);
        assert(seq![(e0.0, e0.1)] + es.drop_first() =~= es);
    }
}

/// The digits a digit run yields are digit values.
proof fn lemma_parse_digits_wf(s: Seq<char>, i: int)
    ensures
        wf_digits(spec_parse_digits(s, i).0),
    decreases s.len() - i,
{
    if 0 <= i < s.len() && is_digit(s[i]) {
        lemma_parse_digits_wf(s, i + 1);
        let (ds, j) = spec_parse_digits(s, i + 1);
        assert forall|k: int| 0 <= k < (seq![digit_val(s[i])] + ds).len() implies (seq![
            digit_val(s[i]),
        ] + ds)[k] <= 9 by {
            if k > 0 {
                assert((seq![digit_val(s[i])] + ds)[k] == ds[k - 1]);
            }
        }
    }
}

/// A number the grammar accepts is well-formed.
#[verifier::rlimit(50)]
proof fn lemma_parse_number_wf(s: Seq<char>, i: int)
    ensures
        ({
            let (r, j) = spec_parse_number(s, i);
            r matches Ok(n) ==> wf_number(n)
        }),
{
    let (r, j) = spec_parse_number(s, i);
    if r is Ok && 0 <= i < s.len() {
        let negative = s[i] == '-';
        let p = if negative {
            i + 1
        } else {
            i
        };
        if p < s.len() {
            if s[p] == '0' {
                lemma_number_rest_wf(s, p + 1, negative, seq![0u8]);
            } else if is_digit(s[p]) {
                lemma_parse_digits_wf(s, p);
                lemma_number_rest_wf(s, spec_parse_digits(s, p).1, negative, spec_parse_digits(s, p).0);
            }
        }
    }
}

/// What follows the integer part keeps the number well-formed.
proof fn lemma_number_rest_wf(s: Seq<char>, i: int, negative: bool, int_digits: Seq<u8>)
    requires
        wf_digits(int_digits),
        int_digits.len() >= 1,
        int_digits.len() > 1 ==> int_digits[0] != 0,
    ensures
        ({
            let (r, j) = spec_parse_number_rest(s, i, negative, int_digits);
            r matches Ok(n) ==> wf_number(n)
        }),
{
    if 0 <= i < s.len() && s[i] == '.' {
        lemma_parse_digits_wf(s, i + 1);
        let (fs, j) = spec_parse_digits(s, i + 1);
        if 0 <= j < s.len() && (s[j] == 'e' || s[j] == 'E') {
            lemma_exponent_wf(s, j + 1, negative, int_digits, fs);
        }
    } else if 0 <= i < s.len() && (s[i] == 'e' || s[i] == 'E') {
        lemma_exponent_wf(s, i + 1, negative, int_digits, seq![]);
    }
}

/// An exponent the grammar accepts keeps the number well-formed.
proof fn lemma_exponent_wf(
    s: Seq<char>,
    i: int,
    negative: bool,
    int_digits: Seq<u8>,
    frac_digits: Seq<u8>,
)
    requires
        wf_digits(int_digits),
        wf_digits(frac_digits),
        int_digits.len() >= 1,
        int_digits.len() > 1 ==> int_digits[0] != 0,
    ensures
        ({
            let (r, j) = spec_parse_exponent(s, i, negative, int_digits, frac_digits);
            r matches Ok(n) ==> wf_number(n)
        }),
{
    if 0 <= i < s.len() {
        let p = if s[i] == '+' || s[i] == '-' {
            i + 1
        } else {
            i
        };
        if p < s.len() && is_digit(s[p]) {
            lemma_parse_digits_wf(s, p);
        }
    }
}

/// A value the grammar accepts is well-formed: every number in it keeps the
/// digit shapes the number production enforces.
#[verifier::rlimit(50)]
pub proof fn lemma_parse_value_wf(s: Seq<char>, i: int)
    ensures
        ({
            let (r, j) = spec_parse_value(s, i);
            r matches Ok(v) ==> wf_value(v)
        }),
    decreases s.len() - i, 0int,
{
    let j = skip_ws(s, i);
    if 0 <= j < s.len() {
        if s[j] == '[' {
            if i <= j {
                lemma_parse_array_items_wf(s, j + 1, true);
            }
        } else if s[j] == '{' {
            if i <= j {
                lemma_parse_object_items_wf(s, j + 1, true);
            }
        } else if s[j] != 'n' && s[j] != 't' && s[j] != 'f' && s[j] != '"' {
            lemma_parse_number_wf(s, j);
        }
    }
}

/// Array elements the grammar accepts are all well-formed.
#[verifier::rlimit(50)]
proof fn lemma_parse_array_items_wf(s: Seq<char>, i: int, first: bool)
    ensures
        ({
            let (r, j) = spec_parse_array_items(s, i, first);
            r matches Ok(vs) ==> wf_values(vs)
        }),
    decreases s.len() - i, 1int,
{
    lemma_parse_value_wf(s, i);
    assert(wf_values(Seq::<ValueModel>::empty()));
    let (r, j) = spec_parse_value(s, i);
    if let Ok(v) = r {
        let k = skip_ws(s, j);
        if 0 <= k < s.len() && s[k] == ',' && i <= k {
            lemma_parse_array_items_wf(s, k + 1, false);
            let (r2, m) = spec_parse_array_items(s, k + 1, false);
            if let Ok(vs) = r2 {
                assert((seq![v] + vs).first() == v);
                assert((seq![v] + vs).drop_first() =~= vs);
            }
        } else if 0 <= k < s.len() && s[k] == ']' {
            assert(seq![v].first() == v);
            assert(seq![v].drop_first() =~= Seq::<ValueModel>::empty());
        }
    }
}

/// Object entry values the grammar accepts are all well-formed.
#[verifier::rlimit(100)]
proof fn lemma_parse_object_items_wf(s: Seq<char>, i: int, first: bool)
    ensures
        ({
            let (r, j) = spec_parse_object_items(s, i, first);
            r matches Ok(es) ==> wf_entries(es)
        }),
    decreases s.len() - i, 1int,
{
    assert(wf_entries(Seq::<(Seq<char>, ValueModel)>::empty()));
    let j = skip_ws(s, i);
    if 0 <= j < s.len() && s[j] == '"' {
        let (kr, p) = spec_parse_string(s, j + 1);
        if let Ok(key) = kr {
            let q = skip_ws(s, p);
            if 0 <= q < s.len() && s[q] == ':' && i <= q {
                lemma_parse_value_wf(s, q + 1);
                let (vr, t) = spec_parse_value(s, q + 1);
                if let Ok(v) = vr {
                    let u = skip_ws(s, t);
                    if 0 <= u < s.len() && s[u] == ',' && i <= u {
                        lemma_parse_object_items_wf(s, u + 1, false);
                        let (r2, m) = spec_parse_object_items(s, u + 1, false);
                        if let Ok(es) = r2 {
                            assert((seq![(key, v)] + es).first() == (key, v));
                            assert((seq![(key, v)] + es).drop_first() =~= es);
                        }
                    } else if 0 <= u < s.len() && s[u] == '}' {
                        assert(seq![(key, v)].first() == (key, v));
                        assert(seq![(key, v)].drop_first() =~= Seq::<(Seq<char>, ValueModel)>::empty());
                    }
                }
            }
        }
    }
}

/// A whole document the grammar accepts is well-formed, so the round-trip
/// law applies to everything the parser hands out.
pub proof fn lemma_parse_json_wf(s: Seq<char>)
    ensures
        spec_parse_json(s) matches Ok(v) ==> wf_value(v),
{
    lemma_parse_value_wf(s, 0);
}

/// Round trip: serializing any well-formed value — duplicate keys included —
/// and parsing the text back reproduces the value exactly.
pub proof fn lemma_round_trip(v: ValueModel)
    requires
        wf_value(v),
    ensures
        spec_parse_json(ser_value(v)) == Result::<ValueModel, ErrorModel>::Ok(v),
{
    let s = ser_value(v);
    assert(s.subrange(0, s.len() as int) =~= s);
    lemma_parse_value_exact(v, s, 0);
}

} // verus!
