//! The JSON reader as a specification: what the parser reads from a byte
//! sequence starting at a position, and the error (message and byte
//! position) it stops with.
use vstd::prelude::*;
use vstd::utf8::*;

use super::JsonValue;

verus! {

/// Bytes the reader looks for.
pub const TAB: u8 = 0x09;
pub const LF: u8 = 0x0a;
pub const CR: u8 = 0x0d;
pub const SPACE: u8 = 0x20;
pub const QUOTE: u8 = 0x22;
pub const PLUS: u8 = 0x2b;
pub const COMMA: u8 = 0x2c;
pub const MINUS: u8 = 0x2d;
pub const DOT: u8 = 0x2e;
pub const SLASH: u8 = 0x2f;
pub const DIGIT_0: u8 = 0x30;
pub const DIGIT_9: u8 = 0x39;
pub const COLON: u8 = 0x3a;
pub const UPPER_A: u8 = 0x41;
pub const UPPER_E: u8 = 0x45;
pub const UPPER_F: u8 = 0x46;
pub const LBRACKET: u8 = 0x5b;
pub const BACKSLASH: u8 = 0x5c;
pub const RBRACKET: u8 = 0x5d;
pub const LOWER_A: u8 = 0x61;
pub const LOWER_B: u8 = 0x62;
pub const LOWER_E: u8 = 0x65;
pub const LOWER_F: u8 = 0x66;
pub const LOWER_N: u8 = 0x6e;
pub const LOWER_R: u8 = 0x72;
pub const LOWER_T: u8 = 0x74;
pub const LOWER_U: u8 = 0x75;
pub const LBRACE: u8 = 0x7b;
pub const RBRACE: u8 = 0x7d;

/// A reading step: the value and the position just after it, or an error
/// message and the position it names.
pub type Step<T> = Result<(T, int), (Seq<char>, int)>;

pub open spec fn is_ws(b: u8) -> bool {
    b == SPACE || b == TAB || b == LF || b == CR
}

/// Number of bytes of the UTF-8 sequence that starts with `first_byte`,
/// read from its leading bits alone.
pub open spec fn spec_utf8_char_len(first_byte: u8) -> int {
    if first_byte < 0x80 {
        1
    } else if 0xc0 <= first_byte < 0xe0 {
        2
    } else if 0xe0 <= first_byte < 0xf0 {
        3
    } else {
        4
    }
}

pub open spec fn is_digit(b: u8) -> bool {
    DIGIT_0 <= b <= DIGIT_9
}

/// First position at or after `p` that does not hold JSON whitespace.
pub open spec fn skip_ws(b: Seq<u8>, p: int) -> int
    decreases b.len() - p,
{
    if 0 <= p < b.len() && is_ws(b[p]) {
        skip_ws(b, p + 1)
    } else {
        p
    }
}

pub proof fn lemma_skip_ws(b: Seq<u8>, p: int)
    ensures
        p <= skip_ws(b, p),
        0 <= p <= b.len() ==> skip_ws(b, p) <= b.len(),
        0 <= p <= b.len() ==> (skip_ws(b, p) == b.len() || !is_ws(b[skip_ws(b, p)])),
        forall|i: int| p <= i < skip_ws(b, p) ==> 0 <= i < b.len() && is_ws(#[trigger] b[i]),
    decreases b.len() - p,
{
    if 0 <= p < b.len() && is_ws(b[p]) {
        lemma_skip_ws(b, p + 1);
    }
}

pub proof fn lemma_skip_ws_idempotent(b: Seq<u8>, p: int)
    requires
        0 <= p <= b.len(),
    ensures
        skip_ws(b, skip_ws(b, p)) == skip_ws(b, p),
{
    lemma_skip_ws(b, p);
}

pub open spec fn expected_msg(what: Seq<char>) -> Seq<char> {
    "expected '"@ + what + "'"@
}

/// `byte` read at `p`, or the message of a missing expected byte.
pub open spec fn spec_expect(b: Seq<u8>, p: int, byte: u8) -> Step<()> {
    if 0 <= p < b.len() && b[p] == byte {
        Ok(((), p + 1))
    } else {
        Err((expected_msg(seq![byte as char]), p))
    }
}

/// The literal `text` at `p`.
pub open spec fn spec_literal(b: Seq<u8>, p: int, text: Seq<char>, value: JsonValue) -> Step<
    JsonValue,
> {
    let t = encode_utf8(text);
    let end = p + t.len();
    if 0 <= p && end <= b.len() && b.subrange(p, end) == t {
        Ok((value, end))
    } else {
        Err((expected_msg(text), p))
    }
}

/// Value of a hexadecimal digit byte, if it is one.
pub open spec fn hex_digit_value(b: u8) -> Option<u16> {
    if DIGIT_0 <= b <= DIGIT_9 {
        Some((b - DIGIT_0) as u16)
    } else if LOWER_A <= b <= LOWER_F {
        Some((b - LOWER_A + 10) as u16)
    } else if UPPER_A <= b <= UPPER_F {
        Some((b - UPPER_A + 10) as u16)
    } else {
        None
    }
}

/// Value of three hex digits starting at `p`.
pub open spec fn hex3(b: Seq<u8>, p: int) -> Option<u16> {
    match (hex_digit_value(b[p]), hex_digit_value(b[p + 1]), hex_digit_value(b[p + 2])) {
        (Some(x), Some(y), Some(z)) => Some((x * 256 + y * 16 + z) as u16),
        _ => None,
    }
}

/// The four bytes after `\u`, read as an unsigned base-16 number the way
/// `u16::from_str_radix` reads them: four hex digits, or `+` and three.
pub open spec fn hex4_value(b: Seq<u8>, p: int) -> Option<u16> {
    if b[p] == PLUS {
        hex3(b, p + 1)
    } else {
        match (hex_digit_value(b[p]), hex3(b, p + 1)) {
            (Some(x), Some(y)) => Some((x * 4096 + y) as u16),
            _ => None,
        }
    }
}

pub open spec fn spec_hex4(b: Seq<u8>, p: int) -> Result<u16, Seq<char>> {
    if !(0 <= p && p + 4 <= b.len()) {
        Err("truncated unicode escape"@)
    } else {
        match hex4_value(b, p) {
            Some(v) => Ok(v),
            None => Err("invalid unicode escape"@),
        }
    }
}

/// The character an escape letter stands for (all but `u`).
pub open spec fn simple_escape(b: u8) -> Option<char> {
    if b == QUOTE {
        Some('"')
    } else if b == BACKSLASH {
        Some('\\')
    } else if b == SLASH {
        Some('/')
    } else if b == LOWER_B {
        Some('\u{8}')
    } else if b == LOWER_F {
        Some('\u{c}')
    } else if b == LOWER_N {
        Some('\n')
    } else if b == LOWER_R {
        Some('\r')
    } else if b == LOWER_T {
        Some('\t')
    } else {
        None
    }
}

/// Reads the rest of a string body from `p`, after `acc` has been read.
pub open spec fn spec_string_body(b: Seq<u8>, p: int, acc: Seq<char>) -> Step<Seq<char>>
    decreases b.len() - p,
{
    if !(0 <= p < b.len()) {
        Err(("unterminated string"@, p))
    } else if b[p] == QUOTE {
        Ok((acc, p + 1))
    } else if b[p] == BACKSLASH {
        let e = p + 1;
        if e >= b.len() {
            Err(("invalid escape sequence"@, e))
        } else if b[e] == LOWER_U {
            match spec_hex4(b, e + 1) {
                Err(m) => Err((m, e + 1)),
                Ok(code) => {
                    let acc2 = if is_scalar(code as u32) {
                        acc.push((code as u32) as char)
                    } else {
                        acc
                    };
                    spec_string_body(b, e + 5, acc2)
                },
            }
        } else {
            match simple_escape(b[e]) {
                Some(c) => spec_string_body(b, e + 1, acc.push(c)),
                None => Err(("invalid escape sequence"@, e)),
            }
        }
    } else {
        let end = p + spec_utf8_char_len(b[p]);
        if end > b.len() || !valid_utf8(b.subrange(p, end)) {
            Err(("invalid utf-8 in string"@, p))
        } else {
            spec_string_body(b, end, acc + decode_utf8(b.subrange(p, end)))
        }
    }
}

/// A string token starting at `p` (its opening quote).
pub open spec fn spec_string(b: Seq<u8>, p: int) -> Step<Seq<char>> {
    match spec_expect(b, p, QUOTE) {
        Err(e) => Err(e),
        Ok((_, q)) => spec_string_body(b, q, seq![]),
    }
}

pub proof fn lemma_string_body_range(b: Seq<u8>, p: int, acc: Seq<char>)
    ensures
        spec_string_body(b, p, acc) matches Ok((_, r)) ==> p < r <= b.len(),
    decreases b.len() - p,
{
    if !(0 <= p < b.len()) {
    } else if b[p] == QUOTE {
    } else if b[p] == BACKSLASH {
        let e = p + 1;
        if e >= b.len() {
        } else if b[e] == LOWER_U {
            match spec_hex4(b, e + 1) {
                Err(m) => {},
                Ok(code) => {
                    let acc2 = if is_scalar(code as u32) {
                        acc.push((code as u32) as char)
                    } else {
                        acc
                    };
                    lemma_string_body_range(b, e + 5, acc2);
                },
            }
        } else {
            match simple_escape(b[e]) {
                Some(c) => lemma_string_body_range(b, e + 1, acc.push(c)),
                None => {},
            }
        }
    } else {
        let end = p + spec_utf8_char_len(b[p]);
        if end > b.len() || !valid_utf8(b.subrange(p, end)) {
        } else {
            lemma_string_body_range(b, end, acc + decode_utf8(b.subrange(p, end)));
        }
    }
}

pub proof fn lemma_string_range(b: Seq<u8>, p: int)
    ensures
        spec_string(b, p) matches Ok((_, r)) ==> p < r <= b.len(),
{
    lemma_string_body_range(b, p + 1, seq![]);
}

/// End of a run of ASCII digits starting at `p`.
pub open spec fn digits_end(b: Seq<u8>, p: int) -> int
    decreases b.len() - p,
{
    if 0 <= p < b.len() && is_digit(b[p]) {
        digits_end(b, p + 1)
    } else {
        p
    }
}

pub proof fn lemma_digits_end(b: Seq<u8>, p: int)
    ensures
        p <= digits_end(b, p),
        0 <= p <= b.len() ==> digits_end(b, p) <= b.len(),
        0 <= p <= b.len() ==> (digits_end(b, p) == b.len() || !is_digit(b[digits_end(b, p)])),
        forall|i: int| p <= i < digits_end(b, p) ==> 0 <= i < b.len() && is_digit(#[trigger] b[i]),
    decreases b.len() - p,
{
    if 0 <= p < b.len() && is_digit(b[p]) {
        lemma_digits_end(b, p + 1);
    }
}

/// The parts of a number token scanned from `p`: end of an optional minus
/// sign, end of the integer digits, end of the fraction (dot included),
/// start of the exponent digits and the end of the token. Where there is
/// no fraction, the fraction ends where the integer digits do; where there
/// is no exponent, its digits start and end there too.
pub struct NumberShape {
    pub sign_end: int,
    pub int_end: int,
    pub frac_end: int,
    pub exp_digits: int,
    pub end: int,
}

pub open spec fn number_shape(b: Seq<u8>, p: int) -> NumberShape {
    let p1 = if 0 <= p < b.len() && b[p] == MINUS {
        p + 1
    } else {
        p
    };
    let p2 = digits_end(b, p1);
    let p3 = if 0 <= p2 < b.len() && b[p2] == DOT {
        digits_end(b, p2 + 1)
    } else {
        p2
    };
    let has_exp = 0 <= p3 < b.len() && (b[p3] == LOWER_E || b[p3] == UPPER_E);
    let s = if has_exp {
        if 0 <= p3 + 1 < b.len() && (b[p3 + 1] == PLUS || b[p3 + 1] == MINUS) {
            p3 + 2
        } else {
            p3 + 1
        }
    } else {
        p3
    };
    NumberShape { sign_end: p1, int_end: p2, frac_end: p3, exp_digits: s, end: digits_end(b, s) }
}

/// Whether the scanned token is a number `str::parse::<f64>` accepts:
/// a digit before or after the dot, and a digit in any exponent.
pub open spec fn number_shape_valid(sh: NumberShape) -> bool {
    &&& (sh.int_end > sh.sign_end || sh.frac_end > sh.int_end + 1)
    &&& (sh.exp_digits > sh.frac_end ==> sh.end > sh.exp_digits)
}

/// A number token starting at `p`.
pub open spec fn spec_number(b: Seq<u8>, p: int) -> Step<JsonValue> {
    let sh = number_shape(b, p);
    if number_shape_valid(sh) {
        Ok((JsonValue::Number(b.subrange(p, sh.end)), sh.end))
    } else {
        Err(("invalid number"@, sh.end))
    }
}

/// Whether a whole byte sequence is a number token.
pub open spec fn is_number_text(t: Seq<u8>) -> bool {
    number_shape(t, 0).end == t.len() && number_shape_valid(number_shape(t, 0))
}

/// Whether a whole byte sequence is a number token as the reader meets one:
/// it starts with a minus sign or a digit.
pub open spec fn is_number_token(t: Seq<u8>) -> bool {
    &&& t.len() > 0
    &&& (t[0] == MINUS || is_digit(t[0]))
    &&& is_number_text(t)
}

/// A JSON value starting at `p`, after optional whitespace.
pub open spec fn spec_value(b: Seq<u8>, p: int) -> Step<JsonValue>
    decreases b.len() - p, 1int,
{
    if !(0 <= p <= b.len()) {
        Err((seq![], p))
    } else {
        let q = skip_ws(b, p);
        proof {
            lemma_skip_ws(b, p);
        }
        if q >= b.len() {
            Err(("unexpected end of input"@, q))
        } else if b[q] == LBRACE {
            spec_object(b, q)
        } else if b[q] == LBRACKET {
            spec_array(b, q)
        } else if b[q] == QUOTE {
            match spec_string(b, q) {
                Ok((s, r)) => Ok((JsonValue::Str(s), r)),
                Err(e) => Err(e),
            }
        } else if b[q] == LOWER_T {
            spec_literal(b, q, "true"@, JsonValue::Bool(true))
        } else if b[q] == LOWER_F {
            spec_literal(b, q, "false"@, JsonValue::Bool(false))
        } else if b[q] == LOWER_N {
            spec_literal(b, q, "null"@, JsonValue::Null)
        } else if b[q] == MINUS || is_digit(b[q]) {
            spec_number(b, q)
        } else {
            Err(("unexpected character"@, q))
        }
    }
}

pub proof fn lemma_value_after_ws(b: Seq<u8>, p: int)
    requires
        0 <= p <= b.len(),
    ensures
        spec_value(b, skip_ws(b, p)) == spec_value(b, p),
{
    lemma_skip_ws(b, p);
    lemma_skip_ws_idempotent(b, p);
}

/// An object starting at `p` (its opening brace).
pub open spec fn spec_object(b: Seq<u8>, p: int) -> Step<JsonValue>
    decreases b.len() - p, 0int,
{
    if !(0 <= p < b.len() && b[p] == LBRACE) {
        Err((expected_msg(seq!['{']), p))
    } else {
        let r = skip_ws(b, p + 1);
        proof {
            lemma_skip_ws(b, p + 1);
        }
        if r < b.len() && b[r] == RBRACE {
            Ok((JsonValue::Object(seq![]), r + 1))
        } else {
            spec_members(b, r, seq![])
        }
    }
}

/// The members of an object from `p` on, after `acc` has been read.
pub open spec fn spec_members(b: Seq<u8>, p: int, acc: Seq<(Seq<char>, JsonValue)>) -> Step<
    JsonValue,
>
    decreases b.len() - p, 2int,
{
    if !(0 <= p <= b.len()) {
        Err((seq![], p))
    } else {
        let k = skip_ws(b, p);
        proof {
            lemma_skip_ws(b, p);
            lemma_string_range(b, k);
        }
        match spec_string(b, k) {
            Err(e) => Err(e),
            Ok((key, p1)) => {
                let p2 = skip_ws(b, p1);
                proof {
                    lemma_skip_ws(b, p1);
                }
                if !(p2 < b.len() && b[p2] == COLON) {
                    Err((expected_msg(seq![':']), p2))
                } else {
                    match spec_value(b, p2 + 1) {
                        Err(e) => Err(e),
                        Ok((v, p3)) => {
                            let acc2 = acc.push((key, v));
                            let p4 = skip_ws(b, p3);
                            proof {
                                lemma_skip_ws(b, p3);
                            }
                            if p4 < b.len() && b[p4] == COMMA {
                                if p < p4 + 1 {
                                    spec_members(b, p4 + 1, acc2)
                                } else {
                                    Err((seq![], p4))
                                }
                            } else if p4 < b.len() && b[p4] == RBRACE {
                                Ok((JsonValue::Object(acc2), p4 + 1))
                            } else {
                                Err(("expected ',' or '}' in object"@, p4))
                            }
                        },
                    }
                }
            },
        }
    }
}

/// An array starting at `p` (its opening bracket).
pub open spec fn spec_array(b: Seq<u8>, p: int) -> Step<JsonValue>
    decreases b.len() - p, 0int,
{
    if !(0 <= p < b.len() && b[p] == LBRACKET) {
        Err((expected_msg(seq!['[']), p))
    } else {
        let r = skip_ws(b, p + 1);
        proof {
            lemma_skip_ws(b, p + 1);
        }
        if r < b.len() && b[r] == RBRACKET {
            Ok((JsonValue::Array(seq![]), r + 1))
        } else {
            spec_elements(b, r, seq![])
        }
    }
}

/// The elements of an array from `p` on, after `acc` has been read.
pub open spec fn spec_elements(b: Seq<u8>, p: int, acc: Seq<JsonValue>) -> Step<JsonValue>
    decreases b.len() - p, 2int,
{
    if !(0 <= p <= b.len()) {
        Err((seq![], p))
    } else {
        match spec_value(b, p) {
            Err(e) => Err(e),
            Ok((v, p1)) => {
                let acc2 = acc.push(v);
                let p2 = skip_ws(b, p1);
                proof {
                    lemma_skip_ws(b, p1);
                }
                if p2 < b.len() && b[p2] == COMMA {
                    if p < p2 + 1 {
                        spec_elements(b, p2 + 1, acc2)
                    } else {
                        Err((seq![], p2))
                    }
                } else if p2 < b.len() && b[p2] == RBRACKET {
                    Ok((JsonValue::Array(acc2), p2 + 1))
                } else {
                    Err(("expected ',' or ']' in array"@, p2))
                }
            },
        }
    }
}

/// A whole document: one value, surrounded by optional whitespace.
pub open spec fn spec_parse(b: Seq<u8>) -> Result<JsonValue, (Seq<char>, int)> {
    match spec_value(b, 0) {
        Err(e) => Err(e),
        Ok((v, p)) => {
            let q = skip_ws(b, p);
            if q != b.len() {
                Err(("trailing data after JSON value"@, q))
            } else {
                Ok(v)
            }
        },
    }
}

} // verus!
