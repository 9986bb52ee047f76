//! The reader itself: a cursor over the document's bytes.
use vstd::prelude::*;
use vstd::slice::{slice_subrange, slice_to_vec};
use vstd::string::*;
use vstd::utf8::*;

use super::grammar::{
    digits_end, expected_msg, hex3, hex4_value, hex_digit_value, lemma_digits_end,
    lemma_skip_ws, lemma_value_after_ws, number_shape, number_shape_valid, simple_escape, skip_ws, spec_array,
    spec_elements, spec_expect, spec_hex4, spec_literal, spec_members, spec_number, spec_object,
    spec_parse, spec_string, spec_string_body, spec_utf8_char_len, spec_value, Step, BACKSLASH,
    COLON, COMMA, CR, DIGIT_0, DIGIT_9, DOT, LBRACE, LBRACKET, LF, LOWER_A, LOWER_B, LOWER_E,
    LOWER_F, LOWER_N, LOWER_R, LOWER_T, LOWER_U, MINUS, PLUS, QUOTE, RBRACE, RBRACKET, SLASH,
    SPACE, TAB, UPPER_A, UPPER_E, UPPER_F,
};
use super::{items_value, pairs_value, Json, JsonNumber, ParseError};
use crate::text::{bytes_eq, char_from_u32, push_char, str_from_utf8};

verus! {

/// End of the run of digits from `p`.
fn scan_digits(b: &[u8], p: usize) -> (r: usize)
    requires
        p <= b@.len(),
    ensures
        r == digits_end(b@, p as int),
        p <= r <= b@.len(),
{
    let mut i = p;
    proof {
        lemma_digits_end(b@, p as int);
    }
    while i < b.len() && DIGIT_0 <= b[i] && b[i] <= DIGIT_9
        invariant
            p <= i <= b@.len(),
            digits_end(b@, i as int) == digits_end(b@, p as int),
        decreases b@.len() - i,
    {
        i = i + 1;
    }
    i
}

/// Scans a number token from `p`: the positions of [`NumberShape`], and
/// whether `str::parse::<f64>` would accept the token.
pub(crate) fn scan_number(b: &[u8], p: usize) -> (r: (usize, usize, usize, usize, usize, bool))
    requires
        p <= b@.len(),
    ensures
        ({
            let sh = number_shape(b@, p as int);
            &&& r.0 == sh.sign_end
            &&& r.1 == sh.int_end
            &&& r.2 == sh.frac_end
            &&& r.3 == sh.exp_digits
            &&& r.4 == sh.end
            &&& r.5 == number_shape_valid(sh)
            &&& p <= r.0 <= r.1 <= r.2 <= r.3 <= r.4 <= b@.len()
        }),
{
    let p1 = if p < b.len() && b[p] == MINUS {
        p + 1
    } else {
        p
    };
    let p2 = scan_digits(b, p1);
    let p3 = if p2 < b.len() && b[p2] == DOT {
        scan_digits(b, p2 + 1)
    } else {
        p2
    };
    let has_exp = p3 < b.len() && (b[p3] == LOWER_E || b[p3] == UPPER_E);
    let s = if has_exp {
        if p3 + 1 < b.len() && (b[p3 + 1] == PLUS || b[p3 + 1] == MINUS) {
            p3 + 2
        } else {
            p3 + 1
        }
    } else {
        p3
    };
    let end = scan_digits(b, s);
    let valid = (p2 > p1 || p3 - p2 > 1) && (s <= p3 || end > s);
    (p1, p2, p3, s, end, valid)
}

/// Whether a parse result is the reading step `s`, ending at `pos`; an
/// error leaves the cursor at the byte it names.
pub open spec fn json_step(r: Result<Json, ParseError>, pos: usize, s: Step<super::JsonValue>) -> bool {
    match r {
        Ok(v) => s matches Ok((w, q)) && w == v.value() && q == pos,
        Err(e) => s matches Err((m, q)) && m == e.message@ && q == e.pos && e.pos == pos,
    }
}

pub open spec fn string_step(r: Result<String, ParseError>, pos: usize, s: Step<Seq<char>>) -> bool {
    match r {
        Ok(v) => s matches Ok((w, q)) && w == v@ && q == pos,
        Err(e) => s matches Err((m, q)) && m == e.message@ && q == e.pos && e.pos == pos,
    }
}

/// Whether a document's parse result is the specified one.
pub open spec fn parse_result(
    r: Result<Json, ParseError>,
    s: Result<super::JsonValue, (Seq<char>, int)>,
) -> bool {
    match r {
        Ok(v) => s matches Ok(w) && w == v.value(),
        Err(e) => s matches Err((m, q)) && m == e.message@ && q == e.pos,
    }
}

fn expected_message(what: &str) -> (m: String)
    ensures
        m@ == expected_msg(what@),
{
    let mut m = "expected '".to_owned();
    m.append(what);
    m.append("'");
    m
}

/// Number of bytes of the UTF-8 sequence that starts with `first_byte`.
fn utf8_char_len(first_byte: u8) -> (n: usize)
    ensures
        n == spec_utf8_char_len(first_byte),
{
    if first_byte & 0x80 == 0 {
        assert(first_byte & 0x80 == 0 ==> first_byte < 0x80) by (bit_vector);
        1
    } else if first_byte & 0xe0 == 0xc0 {
        assert(first_byte & 0x80 != 0 && first_byte & 0xe0 == 0xc0 ==> 0xc0 <= first_byte < 0xe0)
            by (bit_vector);
        2
    } else if first_byte & 0xf0 == 0xe0 {
        assert(first_byte & 0x80 != 0 && first_byte & 0xe0 != 0xc0 && first_byte & 0xf0 == 0xe0
            ==> 0xe0 <= first_byte < 0xf0) by (bit_vector);
        3
    } else {
        assert(first_byte & 0x80 != 0 && first_byte & 0xe0 != 0xc0 && first_byte & 0xf0 != 0xe0
            ==> !(first_byte < 0x80) && !(0xc0 <= first_byte < 0xe0) && !(0xe0 <= first_byte
            < 0xf0)) by (bit_vector);
        4
    }
}

fn hex_digit(b: u8) -> (r: Option<u16>)
    ensures
        r == hex_digit_value(b),
        r matches Some(d) ==> d < 16,
{
    if DIGIT_0 <= b && b <= DIGIT_9 {
        Some((b - DIGIT_0) as u16)
    } else if LOWER_A <= b && b <= LOWER_F {
        Some((b - LOWER_A + 10) as u16)
    } else if UPPER_A <= b && b <= UPPER_F {
        Some((b - UPPER_A + 10) as u16)
    } else {
        None
    }
}

/// The four bytes from `p` as an unsigned hexadecimal number, the way
/// `u16::from_str_radix` reads them.
fn hex4(b: &[u8], p: usize) -> (r: Option<u16>)
    requires
        p + 4 <= b.len(),
    ensures
        r == hex4_value(b@, p as int),
{
    let low = match (hex_digit(b[p + 1]), hex_digit(b[p + 2]), hex_digit(b[p + 3])) {
        (Some(x), Some(y), Some(z)) => Some(x * 256 + y * 16 + z),
        _ => None,
    };
    assert(low == hex3(b@, p + 1));
    if b[p] == PLUS {
        low
    } else {
        match (hex_digit(b[p]), low) {
            (Some(x), Some(y)) => Some(x * 4096 + y),
            _ => None,
        }
    }
}

/// The character an escape letter other than `u` stands for.
fn escaped_char(b: u8) -> (r: Option<char>)
    ensures
        r == simple_escape(b),
{
    if b == QUOTE {
        Some('"')
    } else if b == BACKSLASH {
        Some('\\')
    } else if b == SLASH {
        Some('/')
    } else if b == LOWER_B {
        Some('\u{8}')
    } else if b == LOWER_F {
        Some('\u{c}')
    } else if b == LOWER_N {
        Some('\n')
    } else if b == LOWER_R {
        Some('\r')
    } else if b == LOWER_T {
        Some('\t')
    } else {
        None
    }
}

/// A cursor over the bytes of the document being read.
struct Parser<'a> {
    bytes: &'a [u8],
    pos: usize,
}

impl<'a> Parser<'a> {
    fn err(&self, message: &str) -> (e: ParseError)
        ensures
            e.message@ == message@,
            e.pos == self.pos,
    {
        ParseError { message: message.to_owned(), pos: self.pos }
    }

    fn peek(&self) -> (r: Option<u8>)
        ensures
            r == (if self.pos < self.bytes@.len() {
                Some(self.bytes@[self.pos as int])
            } else {
                None::<u8>
            }),
            r is Some ==> self.pos < usize::MAX,
    {
        if self.pos < self.bytes.len() {
            Some(self.bytes[self.pos])
        } else {
            None
        }
    }

    fn skip_ws(&mut self)
        requires
            old(self).pos <= old(self).bytes@.len(),
        ensures
            final(self).bytes@ == old(self).bytes@,
            final(self).pos == skip_ws(old(self).bytes@, old(self).pos as int),
            old(self).pos <= final(self).pos <= final(self).bytes@.len(),
    {
        proof {
            lemma_skip_ws(self.bytes@, self.pos as int);
        }
        let ghost p0 = self.pos as int;
        loop
            invariant
                self.bytes@ == old(self).bytes@,
                p0 == old(self).pos,
                p0 <= self.pos <= self.bytes@.len(),
                skip_ws(self.bytes@, self.pos as int) == skip_ws(self.bytes@, p0),
            ensures
                self.bytes@ == old(self).bytes@,
                self.pos == skip_ws(self.bytes@, p0),
            decreases self.bytes@.len() - self.pos,
        {
            match self.peek() {
                Some(b) => {
                    if b == SPACE || b == TAB || b == LF || b == CR {
                        self.pos = self.pos + 1;
                    } else {
                        return;
                    }
                },
                None => return,
            }
        }
    }

    fn expect(&mut self, byte: u8) -> (r: Result<(), ParseError>)
        requires
            old(self).pos <= old(self).bytes@.len(),
        ensures
            final(self).bytes@ == old(self).bytes@,
            final(self).pos <= final(self).bytes@.len(),
            match spec_expect(old(self).bytes@, old(self).pos as int, byte) {
                Ok((_, q)) => r is Ok && final(self).pos == q,
                Err((m, e)) => r matches Err(x) && x.message@ == m && x.pos == e && final(self).pos
                    == old(self).pos,
            },
    {
        if self.peek() == Some(byte) {
            self.pos = self.pos + 1;
            Ok(())
        } else {
            let mut what = String::new();
            push_char(&mut what, byte as char);
            let message = expected_message(what.as_str());
            Err(self.err(message.as_str()))
        }
    }

    fn parse_literal(&mut self, text: &str, value: Json) -> (r: Result<Json, ParseError>)
        requires
            old(self).pos <= old(self).bytes@.len(),
        ensures
            final(self).bytes@ == old(self).bytes@,
            final(self).pos <= final(self).bytes@.len(),
            json_step(
                r,
                final(self).pos,
                spec_literal(old(self).bytes@, old(self).pos as int, text@, value.value()),
            ),
            r is Ok ==> final(self).pos == old(self).pos + text.spec_bytes().len(),
    {
        let t = text.as_bytes();
        if t.len() <= self.bytes.len() - self.pos && bytes_eq(
            slice_subrange(self.bytes, self.pos, self.pos + t.len()),
            t,
        ) {
            self.pos = self.pos + t.len();
            Ok(value)
        } else {
            let message = expected_message(text);
            Err(self.err(message.as_str()))
        }
    }

    fn parse_hex4(&mut self) -> (r: Result<u16, ParseError>)
        requires
            old(self).pos <= old(self).bytes@.len(),
        ensures
            final(self).bytes@ == old(self).bytes@,
            final(self).pos <= final(self).bytes@.len(),
            match spec_hex4(old(self).bytes@, old(self).pos as int) {
                Ok(v) => r == Ok::<u16, ParseError>(v) && final(self).pos == old(self).pos + 4,
                Err(m) => r matches Err(e) && e.message@ == m && e.pos == old(self).pos
                    && final(self).pos == old(self).pos,
            },
    {
        if self.bytes.len() - self.pos < 4 {
            return Err(self.err("truncated unicode escape"));
        }
        let p = self.pos;
        let code = hex4(self.bytes, p);
        match code {
            Some(v) => {
                self.pos = p + 4;
                Ok(v)
            },
            None => Err(self.err("invalid unicode escape")),
        }
    }

    fn parse_string(&mut self) -> (r: Result<String, ParseError>)
        requires
            old(self).pos <= old(self).bytes@.len(),
        ensures
            final(self).bytes@ == old(self).bytes@,
            final(self).pos <= final(self).bytes@.len(),
            string_step(r, final(self).pos, spec_string(old(self).bytes@, old(self).pos as int)),
            r is Ok ==> old(self).pos < final(self).pos,
    {
        let ghost b = self.bytes@;
        let ghost p0 = self.pos as int;
        match self.expect(QUOTE) {
            Ok(_) => {},
            Err(e) => return Err(e),
        }
        let mut out = String::new();
        loop
            invariant
                self.bytes@ == b,
                b == old(self).bytes@,
                p0 == old(self).pos,
                p0 < self.pos <= b.len(),
                spec_string(b, p0) == spec_string_body(b, self.pos as int, out@),
            decreases b.len() - self.pos,
        {
            match self.peek() {
                None => return Err(self.err("unterminated string")),
                Some(c) => {
                    if c == QUOTE {
                        self.pos = self.pos + 1;
                        return Ok(out);
                    } else if c == BACKSLASH {
                        self.pos = self.pos + 1;
                        match self.peek() {
                            None => return Err(self.err("invalid escape sequence")),
                            Some(e) => {
                                if e == LOWER_U {
                                    self.pos = self.pos + 1;
                                    let code = match self.parse_hex4() {
                                        Ok(code) => code,
                                        Err(err) => return Err(err),
                                    };
                                    match char_from_u32(code as u32) {
                                        Some(ch) => push_char(&mut out, ch),
                                        None => {},
                                    }
                                } else {
                                    match escaped_char(e) {
                                        Some(ch) => {
                                            push_char(&mut out, ch);
                                            self.pos = self.pos + 1;
                                        },
                                        None => return Err(self.err("invalid escape sequence")),
                                    }
                                }
                            },
                        }
                    } else {
                        let start = self.pos;
                        let len = utf8_char_len(c);
                        if len > self.bytes.len() - start {
                            return Err(self.err("invalid utf-8 in string"));
                        }
                        let end = start + len;
                        match str_from_utf8(slice_subrange(self.bytes, start, end)) {
                            None => return Err(self.err("invalid utf-8 in string")),
                            Some(piece) => {
                                out.append(piece);
                                self.pos = end;
                            },
                        }
                    }
                },
            }
        }
    }

    fn parse_number(&mut self) -> (r: Result<Json, ParseError>)
        requires
            old(self).pos <= old(self).bytes@.len(),
        ensures
            final(self).bytes@ == old(self).bytes@,
            final(self).pos <= final(self).bytes@.len(),
            json_step(r, final(self).pos, spec_number(old(self).bytes@, old(self).pos as int)),
            r is Ok ==> old(self).pos < final(self).pos,
    {
        let start = self.pos;
        let (_, _, _, _, end, valid) = scan_number(self.bytes, start);
        self.pos = end;
        if valid {
            let text = slice_to_vec(slice_subrange(self.bytes, start, end));
            Ok(Json::Number(JsonNumber::from_bytes(text)))
        } else {
            Err(self.err("invalid number"))
        }
    }

    fn parse_value(&mut self) -> (r: Result<Json, ParseError>)
        requires
            old(self).pos <= old(self).bytes@.len(),
        ensures
            final(self).bytes@ == old(self).bytes@,
            final(self).pos <= final(self).bytes@.len(),
            json_step(r, final(self).pos, spec_value(old(self).bytes@, old(self).pos as int)),
            r is Ok ==> old(self).pos < final(self).pos,
        decreases old(self).bytes@.len() - old(self).pos, 1int,
    {
        self.skip_ws();
        proof {
            reveal_strlit("true");
            reveal_strlit("false");
            reveal_strlit("null");
        }
        match self.peek() {
            Some(c) => {
                if c == LBRACE {
                    self.parse_object()
                } else if c == LBRACKET {
                    self.parse_array()
                } else if c == QUOTE {
                    match self.parse_string() {
                        Ok(s) => Ok(Json::String(s)),
                        Err(e) => Err(e),
                    }
                } else if c == LOWER_T {
                    self.parse_literal("true", Json::Bool(true))
                } else if c == LOWER_F {
                    self.parse_literal("false", Json::Bool(false))
                } else if c == LOWER_N {
                    self.parse_literal("null", Json::Null)
                } else if c == MINUS || (DIGIT_0 <= c && c <= DIGIT_9) {
                    self.parse_number()
                } else {
                    Err(self.err("unexpected character"))
                }
            },
            None => Err(self.err("unexpected end of input")),
        }
    }

    fn parse_object(&mut self) -> (r: Result<Json, ParseError>)
        requires
            old(self).pos <= old(self).bytes@.len(),
        ensures
            final(self).bytes@ == old(self).bytes@,
            final(self).pos <= final(self).bytes@.len(),
            json_step(r, final(self).pos, spec_object(old(self).bytes@, old(self).pos as int)),
            r is Ok ==> old(self).pos < final(self).pos,
        decreases old(self).bytes@.len() - old(self).pos, 0int,
    {
        let ghost b = self.bytes@;
        let ghost p0 = self.pos as int;
        match self.expect(LBRACE) {
            Ok(_) => {},
            Err(e) => return Err(e),
        }
        let mut pairs: Vec<(String, Json)> = Vec::new();
        self.skip_ws();
        if self.peek() == Some(RBRACE) {
            self.pos = self.pos + 1;
            proof {
                Json::lemma_object_value(pairs);
                assert(pairs_value(pairs@) =~= Seq::<(Seq<char>, super::JsonValue)>::empty());
            }
            return Ok(Json::Object(pairs));
        }
        assert(pairs_value(pairs@) =~= Seq::<(Seq<char>, super::JsonValue)>::empty());
        loop
            invariant
                self.bytes@ == b,
                b == old(self).bytes@,
                p0 == old(self).pos,
                p0 < self.pos <= b.len(),
                spec_object(b, p0) == spec_members(b, self.pos as int, pairs_value(pairs@)),
            decreases b.len() - self.pos,
        {
            let ghost p = self.pos as int;
            self.skip_ws();
            let key = match self.parse_string() {
                Ok(k) => k,
                Err(e) => return Err(e),
            };
            self.skip_ws();
            match self.expect(COLON) {
                Ok(_) => {},
                Err(e) => return Err(e),
            }
            let value = match self.parse_value() {
                Ok(v) => v,
                Err(e) => return Err(e),
            };
            let ghost acc = pairs_value(pairs@);
            let ghost item = (key@, value.value());
            pairs.push((key, value));
            assert(pairs_value(pairs@) =~= acc.push(item));
            self.skip_ws();
            match self.peek() {
                Some(c) => {
                    if c == COMMA {
                        self.pos = self.pos + 1;
                    } else if c == RBRACE {
                        self.pos = self.pos + 1;
                        proof {
                            Json::lemma_object_value(pairs);
                        }
                        return Ok(Json::Object(pairs));
                    } else {
                        return Err(self.err("expected ',' or '}' in object"));
                    }
                },
                None => return Err(self.err("expected ',' or '}' in object")),
            }
        }
    }

    fn parse_array(&mut self) -> (r: Result<Json, ParseError>)
        requires
            old(self).pos <= old(self).bytes@.len(),
        ensures
            final(self).bytes@ == old(self).bytes@,
            final(self).pos <= final(self).bytes@.len(),
            json_step(r, final(self).pos, spec_array(old(self).bytes@, old(self).pos as int)),
            r is Ok ==> old(self).pos < final(self).pos,
        decreases old(self).bytes@.len() - old(self).pos, 0int,
    {
        let ghost b = self.bytes@;
        let ghost p0 = self.pos as int;
        match self.expect(LBRACKET) {
            Ok(_) => {},
            Err(e) => return Err(e),
        }
        let mut items: Vec<Json> = Vec::new();
        self.skip_ws();
        if self.peek() == Some(RBRACKET) {
            self.pos = self.pos + 1;
            proof {
                Json::lemma_array_value(items);
                assert(items_value(items@) =~= Seq::<super::JsonValue>::empty());
            }
            return Ok(Json::Array(items));
        }
        assert(items_value(items@) =~= Seq::<super::JsonValue>::empty());
        loop
            invariant
                self.bytes@ == b,
                b == old(self).bytes@,
                p0 == old(self).pos,
                p0 < self.pos <= b.len(),
                spec_array(b, p0) == spec_elements(b, self.pos as int, items_value(items@)),
            decreases b.len() - self.pos,
        {
            let value = match self.parse_value() {
                Ok(v) => v,
                Err(e) => return Err(e),
            };
            let ghost acc = items_value(items@);
            let ghost item = value.value();
            items.push(value);
            assert(items_value(items@) =~= acc.push(item));
            self.skip_ws();
            match self.peek() {
                Some(c) => {
                    if c == COMMA {
                        self.pos = self.pos + 1;
                    } else if c == RBRACKET {
                        self.pos = self.pos + 1;
                        proof {
                            Json::lemma_array_value(items);
                        }
                        return Ok(Json::Array(items));
                    } else {
                        return Err(self.err("expected ',' or ']' in array"));
                    }
                },
                None => return Err(self.err("expected ',' or ']' in array")),
            }
        }
    }
}

/// Reads a whole JSON document: one value with optional whitespace around
/// it. The result, or the error and the byte it names, is the one
/// [`spec_parse`] gives for the document's UTF-8 bytes.
pub fn parse(input: &str) -> (r: Result<Json, ParseError>)
    ensures
        parse_result(r, spec_parse(input.spec_bytes())),
{
    let mut parser = Parser { bytes: input.as_bytes(), pos: 0 };
    parser.skip_ws();
    proof {
        lemma_value_after_ws(parser.bytes@, 0);
    }
    let value = match parser.parse_value() {
        Ok(v) => v,
        Err(e) => return Err(e),
    };
    parser.skip_ws();
    if parser.pos != parser.bytes.len() {
        return Err(parser.err("trailing data after JSON value"));
    }
    Ok(value)
}

} // verus!
