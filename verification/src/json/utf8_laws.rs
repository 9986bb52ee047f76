//! On input that is valid UTF-8, read from a character boundary, the reader
//! never reports invalid UTF-8, ends what it reads on a character boundary,
//! and names error positions inside the input.
use vstd::prelude::*;
use vstd::utf8::*;

use super::grammar::{
    expected_msg, is_digit, is_ws, lemma_digits_end, lemma_skip_ws, number_shape, simple_escape,
    skip_ws, spec_array, spec_elements, spec_parse, spec_expect, spec_hex4, spec_literal, spec_members,
    spec_number, spec_object, spec_string, spec_string_body, spec_utf8_char_len, spec_value, Step,
    BACKSLASH, COLON, COMMA, DOT, LBRACE, LBRACKET, LOWER_E, LOWER_F, LOWER_N, LOWER_T, LOWER_U,
    MINUS, PLUS, QUOTE, RBRACE, RBRACKET, UPPER_E,
};
use super::JsonValue;

verus! {

/// The character at a boundary takes the bytes its first byte announces,
/// they are valid UTF-8, and the next character starts right after them.
proof fn lemma_char_step(b: Seq<u8>, p: int)
    requires
        valid_utf8(b),
        0 <= p < b.len(),
        is_char_boundary(b, p),
    ensures
        p + spec_utf8_char_len(b[p]) <= b.len(),
        valid_utf8(b.subrange(p, p + spec_utf8_char_len(b[p]))),
        is_char_boundary(b, p + spec_utf8_char_len(b[p])),
{
    let s = b.subrange(p, b.len() as int);
    valid_utf8_split(b, p);
    assert(valid_utf8(s));
    assert(s[0] == b[p]);
    assert(valid_first_scalar(s));
    let n = length_of_first_scalar(s);
    assert(n == spec_utf8_char_len(b[p]));
    assert(n <= s.len());
    let t = s.subrange(0, n);
    assert(forall|i: int| 0 <= i < n ==> t[i] == s[i]);
    assert(valid_first_scalar(t));
    assert(length_of_first_scalar(t) == n);
    assert(pop_first_scalar(t) =~= Seq::<u8>::empty());
    assert(valid_utf8(Seq::<u8>::empty()));
    assert(valid_utf8(pop_first_scalar(t)));
    assert(t.len() != 0);
    assert(valid_utf8(t));
    assert(t =~= b.subrange(p, p + n));
    if p + n == b.len() {
        is_char_boundary_start_end_of_seq(b);
    } else {
        let rest = pop_first_scalar(s);
        assert(valid_utf8(rest));
        assert(rest.len() > 0);
        assert(valid_first_scalar(rest));
        assert(rest[0] == b[p + n]);
        assert(!is_continuation_byte(b[p + n]));
        is_char_boundary_iff_not_is_continuation_byte(b, p + n);
    }
}

/// After an ASCII byte at a boundary, the next byte is a boundary.
proof fn lemma_ascii_step(b: Seq<u8>, p: int)
    requires
        valid_utf8(b),
        0 <= p < b.len(),
        is_char_boundary(b, p),
        b[p] < 0x80,
    ensures
        is_char_boundary(b, p + 1),
{
    lemma_char_step(b, p);
}

proof fn lemma_messages_differ()
    ensures
        "unterminated string"@ != "invalid utf-8 in string"@,
        "invalid escape sequence"@ != "invalid utf-8 in string"@,
        "truncated unicode escape"@ != "invalid utf-8 in string"@,
        "invalid unicode escape"@ != "invalid utf-8 in string"@,
{
    reveal_strlit("unterminated string");
    reveal_strlit("invalid utf-8 in string");
    reveal_strlit("invalid escape sequence");
    reveal_strlit("truncated unicode escape");
    reveal_strlit("invalid unicode escape");
    assert(("unterminated string"@).len() != ("invalid utf-8 in string"@).len());
    assert(("invalid escape sequence"@)[8] != ("invalid utf-8 in string"@)[8]);
    assert(("truncated unicode escape"@).len() != ("invalid utf-8 in string"@).len());
    assert(("invalid unicode escape"@).len() != ("invalid utf-8 in string"@).len());
}

proof fn lemma_body_utf8(b: Seq<u8>, p: int, acc: Seq<char>)
    requires
        valid_utf8(b),
        0 <= p <= b.len(),
        is_char_boundary(b, p),
    ensures
        spec_string_body(b, p, acc) matches Err((m, q)) ==> m != "invalid utf-8 in string"@ && 0
            <= q <= b.len(),
        spec_string_body(b, p, acc) matches Ok((_, r)) ==> p < r <= b.len() && b[r - 1] == QUOTE
            && is_char_boundary(b, r),
    decreases b.len() - p,
{
    lemma_messages_differ();
    if p < b.len() {
        if b[p] == QUOTE {
            lemma_ascii_step(b, p);
        } else if b[p] == BACKSLASH {
            let e = p + 1;
            lemma_ascii_step(b, p);
            if e < b.len() {
                if b[e] == LOWER_U {
                    match spec_hex4(b, e + 1) {
                        Err(_) => {},
                        Ok(code) => {
                            lemma_ascii_step(b, e);
                            lemma_ascii_step(b, e + 1);
                            lemma_ascii_step(b, e + 2);
                            lemma_ascii_step(b, e + 3);
                            lemma_ascii_step(b, e + 4);
                            let acc2 = if is_scalar(code as u32) {
                                acc.push((code as u32) as char)
                            } else {
                                acc
                            };
                            lemma_body_utf8(b, e + 5, acc2);
                        },
                    }
                } else {
                    match simple_escape(b[e]) {
                        Some(c) => {
                            lemma_ascii_step(b, e);
                            lemma_body_utf8(b, e + 1, acc.push(c));
                        },
                        None => {},
                    }
                }
            }
        } else {
            lemma_char_step(b, p);
            let end = p + spec_utf8_char_len(b[p]);
            lemma_body_utf8(b, end, acc + decode_utf8(b.subrange(p, end)));
        }
    }
}

/// The string reader on valid UTF-8 from a character boundary: it never
/// reports invalid UTF-8, names error positions inside the input, and a
/// string it reads ends with its closing quote, on a character boundary.
pub proof fn string_reader_on_utf8(b: Seq<u8>, p: int)
    requires
        valid_utf8(b),
        0 <= p <= b.len(),
        is_char_boundary(b, p),
    ensures
        spec_string(b, p) matches Err((m, q)) ==> m != "invalid utf-8 in string"@ && 0 <= q
            <= b.len(),
        spec_string(b, p) matches Ok((_, r)) ==> p < r <= b.len() && b[r - 1] == QUOTE
            && is_char_boundary(b, r),
{
    reveal_strlit("invalid utf-8 in string");
    if p < b.len() && b[p] == QUOTE {
        lemma_ascii_step(b, p);
        lemma_body_utf8(b, p + 1, seq![]);
    } else {
        assert(spec_expect(b, p, QUOTE) is Err);
        assert(("invalid utf-8 in string"@)[0] == 'i');
        assert(super::grammar::expected_msg(seq![QUOTE as char])[0] == 'e') by {
            reveal_strlit("expected '");
        }
    }
}

/// What a reading step on valid UTF-8 looks like: a value ending after its
/// start, inside the input and on a character boundary; or an error other
/// than invalid UTF-8, at a position inside the input.
pub open spec fn reads_well<T>(b: Seq<u8>, p: int, s: Step<T>) -> bool {
    match s {
        Ok((_, r)) => p < r <= b.len() && is_char_boundary(b, r),
        Err((m, q)) => m != "invalid utf-8 in string"@ && 0 <= q <= b.len(),
    }
}

proof fn lemma_ws_boundary(b: Seq<u8>, p: int)
    requires
        valid_utf8(b),
        0 <= p <= b.len(),
        is_char_boundary(b, p),
    ensures
        is_char_boundary(b, skip_ws(b, p)),
        p <= skip_ws(b, p) <= b.len(),
    decreases b.len() - p,
{
    lemma_skip_ws(b, p);
    if p < b.len() && is_ws(b[p]) {
        lemma_ascii_step(b, p);
        lemma_ws_boundary(b, p + 1);
    }
}

/// Whether a message starts differently from the invalid UTF-8 one.
proof fn lemma_not_utf8_message(m: Seq<char>)
    requires
        m.len() == 0 || m[0] != 'i' || m.len() < 23,
    ensures
        m != "invalid utf-8 in string"@,
{
    reveal_strlit("invalid utf-8 in string");
    if m.len() > 0 && m.len() >= 23 {
        assert(m[0] != ("invalid utf-8 in string"@)[0]);
    }
}

proof fn lemma_expected_message(what: Seq<char>)
    ensures
        expected_msg(what) != "invalid utf-8 in string"@,
{
    reveal_strlit("expected '");
    assert(expected_msg(what)[0] == 'e');
    lemma_not_utf8_message(expected_msg(what));
}

proof fn lemma_ascii_run(b: Seq<u8>, p: int, n: int)
    requires
        valid_utf8(b),
        0 <= p,
        0 <= n,
        p + n <= b.len(),
        is_char_boundary(b, p),
        forall|i: int| p <= i < p + n ==> b[i] < 0x80,
    ensures
        is_char_boundary(b, p + n),
    decreases n,
{
    if n > 0 {
        lemma_ascii_step(b, p);
        lemma_ascii_run(b, p + 1, n - 1);
    }
}

proof fn lemma_literal_well(b: Seq<u8>, p: int, text: Seq<char>, v: JsonValue)
    requires
        valid_utf8(b),
        0 <= p <= b.len(),
        is_char_boundary(b, p),
        text.len() > 0,
        is_ascii_chars(text),
    ensures
        reads_well(b, p, spec_literal(b, p, text, v)),
{
    lemma_expected_message(text);
    is_ascii_chars_encode_utf8(text);
    let t = encode_utf8(text);
    let end = p + t.len();
    if end <= b.len() && b.subrange(p, end) == t {
        assert forall|i: int| p <= i < end implies b[i] < 0x80 by {
            assert(b.subrange(p, end)[i - p] == b[i]);
            assert(text[i - p] as u8 == t[i - p]);
        }
        lemma_ascii_run(b, p, t.len() as int);
    }
}

proof fn lemma_number_well(b: Seq<u8>, p: int)
    requires
        valid_utf8(b),
        0 <= p <= b.len(),
        is_char_boundary(b, p),
    ensures
        reads_well(b, p, spec_number(b, p)),
{
    let sh = number_shape(b, p);
    lemma_digits_end(b, sh.sign_end);
    lemma_digits_end(b, sh.int_end + 1);
    lemma_digits_end(b, sh.exp_digits);
    lemma_digits_end(b, sh.int_end);
    reveal_strlit("invalid number");
    lemma_not_utf8_message("invalid number"@);
    assert forall|i: int| p <= i < sh.end implies b[i] < 0x80 by {
        if i < sh.sign_end {
            assert(b[i] == MINUS);
        } else if i < sh.int_end {
            assert(is_digit(b[i]));
        } else if i < sh.frac_end {
            if i == sh.int_end {
                assert(b[i] == DOT);
            } else {
                assert(is_digit(b[i]));
            }
        } else if i < sh.exp_digits {
            if i == sh.frac_end {
                assert(b[i] == LOWER_E || b[i] == UPPER_E);
            } else {
                assert(b[i] == PLUS || b[i] == MINUS);
            }
        } else {
            assert(is_digit(b[i]));
        }
    }
    lemma_ascii_run(b, p, sh.end - p);
}

proof fn lemma_value_well(b: Seq<u8>, p: int)
    requires
        valid_utf8(b),
        0 <= p <= b.len(),
        is_char_boundary(b, p),
    ensures
        reads_well(b, p, spec_value(b, p)),
    decreases b.len() - p, 1int,
{
    lemma_ws_boundary(b, p);
    let q = skip_ws(b, p);
    reveal_strlit("unexpected end of input");
    reveal_strlit("unexpected character");
    lemma_not_utf8_message("unexpected end of input"@);
    lemma_not_utf8_message("unexpected character"@);
    if q >= b.len() {
        assert(spec_value(b, p) == Err::<(JsonValue, int), (Seq<char>, int)>(
            ("unexpected end of input"@, q),
        ));
    } else if b[q] == LBRACE {
        lemma_object_well(b, q);
        assert(spec_value(b, p) == spec_object(b, q));
    } else if b[q] == LBRACKET {
        lemma_array_well(b, q);
        assert(spec_value(b, p) == spec_array(b, q));
    } else if b[q] == QUOTE {
        string_reader_on_utf8(b, q);
    } else if b[q] == LOWER_T {
        reveal_strlit("true");
        lemma_literal_well(b, q, "true"@, JsonValue::Bool(true));
        assert(spec_value(b, p) == spec_literal(b, q, "true"@, JsonValue::Bool(true)));
    } else if b[q] == LOWER_F {
        reveal_strlit("false");
        lemma_literal_well(b, q, "false"@, JsonValue::Bool(false));
        assert(spec_value(b, p) == spec_literal(b, q, "false"@, JsonValue::Bool(false)));
    } else if b[q] == LOWER_N {
        reveal_strlit("null");
        lemma_literal_well(b, q, "null"@, JsonValue::Null);
        assert(spec_value(b, p) == spec_literal(b, q, "null"@, JsonValue::Null));
    } else if b[q] == MINUS || is_digit(b[q]) {
        lemma_number_well(b, q);
        assert(spec_value(b, p) == spec_number(b, q));
    } else {
        assert(spec_value(b, p) == Err::<(JsonValue, int), (Seq<char>, int)>(
            ("unexpected character"@, q),
        ));
    }
}

proof fn lemma_object_well(b: Seq<u8>, p: int)
    requires
        valid_utf8(b),
        0 <= p < b.len(),
        is_char_boundary(b, p),
        b[p] == LBRACE,
    ensures
        reads_well(b, p, spec_object(b, p)),
    decreases b.len() - p, 0int,
{
    lemma_ascii_step(b, p);
    lemma_ws_boundary(b, p + 1);
    let r = skip_ws(b, p + 1);
    if r < b.len() && b[r] == RBRACE {
        lemma_ascii_step(b, r);
    } else {
        lemma_members_well(b, r, seq![]);
    }
}

proof fn lemma_members_well(b: Seq<u8>, p: int, acc: Seq<(Seq<char>, JsonValue)>)
    requires
        valid_utf8(b),
        0 <= p <= b.len(),
        is_char_boundary(b, p),
    ensures
        reads_well(b, p, spec_members(b, p, acc)),
    decreases b.len() - p, 2int,
{
    lemma_ws_boundary(b, p);
    let k = skip_ws(b, p);
    string_reader_on_utf8(b, k);
    lemma_expected_message(seq![':']);
    reveal_strlit("expected ',' or '}' in object");
    lemma_not_utf8_message("expected ',' or '}' in object"@);
    lemma_not_utf8_message(seq![]);
    match spec_string(b, k) {
        Err(_) => {},
        Ok((key, p1)) => {
            lemma_ws_boundary(b, p1);
            let p2 = skip_ws(b, p1);
            if p2 < b.len() && b[p2] == COLON {
                lemma_ascii_step(b, p2);
                lemma_value_well(b, p2 + 1);
                match spec_value(b, p2 + 1) {
                    Err(_) => {},
                    Ok((v, p3)) => {
                        lemma_ws_boundary(b, p3);
                        let p4 = skip_ws(b, p3);
                        if p4 < b.len() && b[p4] == COMMA {
                            lemma_ascii_step(b, p4);
                            lemma_members_well(b, p4 + 1, acc.push((key, v)));
                        } else if p4 < b.len() && b[p4] == RBRACE {
                            lemma_ascii_step(b, p4);
                        }
                    },
                }
            }
        },
    }
}

proof fn lemma_array_well(b: Seq<u8>, p: int)
    requires
        valid_utf8(b),
        0 <= p < b.len(),
        is_char_boundary(b, p),
        b[p] == LBRACKET,
    ensures
        reads_well(b, p, spec_array(b, p)),
    decreases b.len() - p, 0int,
{
    lemma_ascii_step(b, p);
    lemma_ws_boundary(b, p + 1);
    let r = skip_ws(b, p + 1);
    if r < b.len() && b[r] == RBRACKET {
        lemma_ascii_step(b, r);
    } else {
        lemma_elements_well(b, r, seq![]);
    }
}

proof fn lemma_elements_well(b: Seq<u8>, p: int, acc: Seq<JsonValue>)
    requires
        valid_utf8(b),
        0 <= p <= b.len(),
        is_char_boundary(b, p),
    ensures
        reads_well(b, p, spec_elements(b, p, acc)),
    decreases b.len() - p, 2int,
{
    lemma_value_well(b, p);
    reveal_strlit("expected ',' or ']' in array");
    lemma_not_utf8_message("expected ',' or ']' in array"@);
    lemma_not_utf8_message(seq![]);
    match spec_value(b, p) {
        Err(_) => {},
        Ok((v, p1)) => {
            lemma_ws_boundary(b, p1);
            let p2 = skip_ws(b, p1);
            if p2 < b.len() && b[p2] == COMMA {
                lemma_ascii_step(b, p2);
                lemma_elements_well(b, p2 + 1, acc.push(v));
            } else if p2 < b.len() && b[p2] == RBRACKET {
                lemma_ascii_step(b, p2);
            }
        },
    }
}

/// The value reader on valid UTF-8 from a character boundary: a value it
/// reads ends after its start, inside the input and on a character boundary;
/// an error it reports is not invalid UTF-8 and names a byte inside the
/// input (or its end).
pub proof fn value_reader_on_utf8(b: Seq<u8>, p: int)
    requires
        valid_utf8(b),
        0 <= p <= b.len(),
        is_char_boundary(b, p),
    ensures
        reads_well(b, p, spec_value(b, p)),
{
    lemma_value_well(b, p);
}

/// Reading a document given as text never reports invalid UTF-8, and an
/// error names a byte inside the document (or its end).
pub proof fn text_reader_errors(s: Seq<char>)
    ensures
        spec_parse(encode_utf8(s)) matches Err((m, q)) ==> m != "invalid utf-8 in string"@ && 0
            <= q <= encode_utf8(s).len(),
{
    let b = encode_utf8(s);
    encode_utf8_valid_utf8(s);
    is_char_boundary_start_end_of_seq(b);
    value_reader_on_utf8(b, 0);
    reveal_strlit("trailing data after JSON value");
    lemma_not_utf8_message("trailing data after JSON value"@);
    match spec_value(b, 0) {
        Ok((v, p)) => {
            lemma_skip_ws(b, p);
        },
        Err(_) => {},
    }
}

} // verus!
