//! Escaping text for the JSON the command line writes itself.
use vstd::prelude::*;
use vstd::string::*;

use vstd::utf8::*;

use super::grammar::{
    hex3, hex4_value, hex_digit_value, skip_ws, spec_hex4, spec_parse, spec_string,
    spec_string_body, spec_utf8_char_len, spec_value, BACKSLASH, QUOTE,
};
use super::JsonValue;
use crate::text::{chars_of, push_char};

verus! {

/// Lower-case hexadecimal digit for `d` below sixteen.
pub open spec fn hex_lower(d: nat) -> char {
    if d < 10 {
        (0x30 + d) as char
    } else {
        (0x61 + d - 10) as char
    }
}

/// How one character is written inside a JSON string.
pub open spec fn escape_char(c: char) -> Seq<char> {
    if c == '"' {
        seq!['\\', '"']
    } else if c == '\\' {
        seq!['\\', '\\']
    } else if c == '\n' {
        seq!['\\', 'n']
    } else if c == '\r' {
        seq!['\\', 'r']
    } else if c == '\t' {
        seq!['\\', 't']
    } else if (c as u32) < 0x20 {
        seq!['\\', 'u', '0', '0', hex_lower((c as u32 / 16) as nat), hex_lower((c as u32 % 16) as nat)]
    } else {
        seq![c]
    }
}

/// Each character escaped in turn.
pub open spec fn escape_chars(s: Seq<char>) -> Seq<char>
    decreases s.len(),
{
    if s.len() == 0 {
        seq![]
    } else {
        escape_char(s[0]) + escape_chars(s.drop_first())
    }
}

pub proof fn lemma_escape_push(s: Seq<char>, c: char)
    ensures
        escape_chars(s.push(c)) == escape_chars(s) + escape_char(c),
    decreases s.len(),
{
    if s.len() == 0 {
        assert(s.push(c).drop_first() =~= Seq::<char>::empty());
        assert(escape_chars(Seq::<char>::empty()) =~= Seq::<char>::empty());
        assert(escape_chars(s) =~= Seq::<char>::empty());
        assert(escape_chars(s.push(c)) =~= escape_char(c));
    } else {
        lemma_escape_push(s.drop_first(), c);
        assert(s.push(c).drop_first() =~= s.drop_first().push(c));
        assert(escape_chars(s.push(c)) =~= escape_chars(s) + escape_char(c));
    }
}

fn hex_lower_digit(d: u32) -> (c: char)
    requires
        d < 16,
    ensures
        c == hex_lower(d as nat),
{
    if d < 10 {
        ((d as u8) + 0x30) as char
    } else {
        ((d as u8) + 0x57) as char
    }
}

/// Escapes a string for embedding between double quotes in JSON that this
/// program writes: quote, backslash, newline, carriage return and tab get
/// their short escapes, other control characters `\u00XX`, the rest stays.
pub fn escape(s: &str) -> (r: String)
    ensures
        r@ == escape_chars(s@),
{
    let chars = chars_of(s);
    let mut out = String::new();
    let mut i: usize = 0;
    assert(chars@.take(0) =~= Seq::<char>::empty());
    while i < chars.len()
        invariant
            0 <= i <= chars@.len(),
            chars@ == s@,
            out@ == escape_chars(chars@.take(i as int)),
        decreases chars@.len() - i,
    {
        let c = chars[i];
        proof {
            reveal_strlit("\\\"");
            reveal_strlit("\\\\");
            reveal_strlit("\\n");
            reveal_strlit("\\r");
            reveal_strlit("\\t");
            reveal_strlit("\\u00");
        }
        proof {
            lemma_escape_push(chars@.take(i as int), c);
            assert(chars@.take(i + 1) =~= chars@.take(i as int).push(c));
        }
        let ghost before = out@;
        if c == '"' {
            out.append("\\\"");
        } else if c == '\\' {
            out.append("\\\\");
        } else if c == '\n' {
            out.append("\\n");
        } else if c == '\r' {
            out.append("\\r");
        } else if c == '\t' {
            out.append("\\t");
        } else if (c as u32) < 0x20 {
            out.append("\\u00");
            push_char(&mut out, hex_lower_digit((c as u32) / 16));
            push_char(&mut out, hex_lower_digit((c as u32) % 16));
        } else {
            push_char(&mut out, c);
        }
        assert(out@ =~= before + escape_char(c));
        i = i + 1;
    }
    assert(chars@.take(chars@.len() as int) =~= chars@);
    out
}

pub proof fn lemma_encode_concat(a: Seq<char>, b: Seq<char>)
    ensures
        encode_utf8(a + b) == encode_utf8(a) + encode_utf8(b),
    decreases a.len(),
{
    if a.len() == 0 {
        assert(a + b =~= b);
        assert(encode_utf8(a) =~= Seq::<u8>::empty());
        assert(encode_utf8(a) + encode_utf8(b) =~= encode_utf8(b));
    } else {
        lemma_encode_concat(a.drop_first(), b);
        assert((a + b).drop_first() =~= a.drop_first() + b);
        assert(encode_utf8(a + b) =~= encode_utf8(a) + encode_utf8(b));
    }
}

/// The encoding of one character: the reader's length guess from its first
/// byte is right, and it decodes back to the character.
proof fn lemma_encode_one(c: char)
    ensures
        ({
            let e = encode_utf8(seq![c]);
            &&& e.len() >= 1
            &&& e.len() == spec_utf8_char_len(e[0])
            &&& valid_utf8(e)
            &&& decode_utf8(e) == seq![c]
            &&& (c != '"' ==> e[0] != QUOTE)
            &&& (c != '\\' ==> e[0] != BACKSLASH)
        }),
{
    let cs = seq![c];
    let e = encode_utf8(cs);
    encode_utf8_first_scalar(cs);
    encode_utf8_valid_utf8(cs);
    encode_utf8_decode_utf8(cs);
    assert(cs.drop_first() =~= Seq::<char>::empty());
    assert(encode_utf8(cs.drop_first()) =~= Seq::<u8>::empty());
    assert(cs[0] == c);
    assert(e =~= encode_scalar(c as u32));
    char_is_scalar(c);
    let u = c as u32;
    if has_width_1_encoding(u) {
        assert(u < 0x80 ==> (u & 0x7F) as u8 == u as u8 && (u as u8) < 0x80) by (bit_vector);
        assert(c != '"' ==> u != 0x22);
        assert(c != '\\' ==> u != 0x5c);
    }
}

pub open spec fn encoded_escape(s: Seq<char>) -> Seq<u8> {
    encode_utf8(escape_chars(s))
}

proof fn lemma_hex_lower(d: nat)
    requires
        d < 16,
    ensures
        is_ascii_chars(seq![hex_lower(d)]),
        hex_digit_value(hex_lower(d) as u8) == Some(d as u16),
{
    if d < 10 {
        assert(((0x30 + d) as char) as u8 == 0x30 + d);
    } else {
        assert(((0x61 + d - 10) as char) as u8 == 0x61 + d - 10);
    }
}

/// One escaped character in the bytes at `p` reads back as that character.
proof fn lemma_step_escaped(b: Seq<u8>, p: int, c: char, acc: Seq<char>)
    requires
        0 <= p,
        p + encode_utf8(escape_char(c)).len() < b.len(),
        forall|i: int|
            0 <= i < encode_utf8(escape_char(c)).len() ==> b[p + i] == #[trigger] encode_utf8(
                escape_char(c),
            )[i],
    ensures
        spec_string_body(b, p, acc) == spec_string_body(
            b,
            p + encode_utf8(escape_char(c)).len(),
            acc.push(c),
        ),
{
    let ec = escape_char(c);
    if c == '"' || c == '\\' || c == '\n' || c == '\r' || c == '\t' {
        lemma_step_short(b, p, c, acc);
    } else if (c as u32) < 0x20 {
        lemma_step_control(b, p, c, acc);
    } else {
        let k = encode_utf8(ec).len() as int;
        lemma_encode_one(c);
        assert(ec == seq![c]);
        assert(b.subrange(p, p + k) =~= encode_utf8(ec));
        assert(acc + decode_utf8(encode_utf8(ec)) =~= acc.push(c));
    }
}

proof fn lemma_step_short(b: Seq<u8>, p: int, c: char, acc: Seq<char>)
    requires
        c == '"' || c == '\\' || c == '\n' || c == '\r' || c == '\t',
        0 <= p,
        p + encode_utf8(escape_char(c)).len() < b.len(),
        forall|i: int|
            0 <= i < encode_utf8(escape_char(c)).len() ==> b[p + i] == #[trigger] encode_utf8(
                escape_char(c),
            )[i],
    ensures
        encode_utf8(escape_char(c)).len() == 2,
        spec_string_body(b, p, acc) == spec_string_body(b, p + 2, acc.push(c)),
{
    let ec = escape_char(c);
    assert(is_ascii_chars(ec));
    is_ascii_chars_encode_utf8(ec);
    assert(b[p] == ec[0] as u8);
    assert(b[p + 1] == ec[1] as u8);
}

proof fn lemma_step_control(b: Seq<u8>, p: int, c: char, acc: Seq<char>)
    requires
        !(c == '"' || c == '\\' || c == '\n' || c == '\r' || c == '\t'),
        (c as u32) < 0x20,
        0 <= p,
        p + encode_utf8(escape_char(c)).len() < b.len(),
        forall|i: int|
            0 <= i < encode_utf8(escape_char(c)).len() ==> b[p + i] == #[trigger] encode_utf8(
                escape_char(c),
            )[i],
    ensures
        encode_utf8(escape_char(c)).len() == 6,
        spec_string_body(b, p, acc) == spec_string_body(b, p + 6, acc.push(c)),
{
    let ec = escape_char(c);
    let hi = (c as u32 / 16) as nat;
    let lo = (c as u32 % 16) as nat;
    lemma_hex_lower(hi);
    lemma_hex_lower(lo);
    assert(is_ascii_chars(ec));
    is_ascii_chars_encode_utf8(ec);
    assert(b[p] == BACKSLASH);
    assert(b[p + 1] == ec[1] as u8);
    assert(b[p + 2] == ec[2] as u8);
    assert(b[p + 3] == ec[3] as u8);
    assert(b[p + 4] == ec[4] as u8);
    assert(b[p + 5] == ec[5] as u8);
    assert(hex3(b, p + 3) == Some((hi * 16 + lo) as u16));
    assert(hex4_value(b, p + 2) == Some((c as u32) as u16));
    assert(spec_hex4(b, p + 2) == Ok::<u16, Seq<char>>((c as u32) as u16));
    assert((((c as u32) as u16) as u32) == c as u32);
    char_u32_cast(c, c as u32);
    assert(is_scalar(c as u32));
}

/// An escaped text followed by a closing quote reads back as the text.
pub(crate) proof fn lemma_body_reads_escaped(b: Seq<u8>, p: int, s: Seq<char>, acc: Seq<char>)
    requires
        0 <= p,
        p + encoded_escape(s).len() < b.len(),
        b.subrange(p, p + encoded_escape(s).len()) == encoded_escape(s),
        b[p + encoded_escape(s).len()] == QUOTE,
    ensures
        spec_string_body(b, p, acc) == Ok::<(Seq<char>, int), (Seq<char>, int)>(
            (acc + s, p + encoded_escape(s).len() + 1),
        ),
    decreases s.len(),
{
    if s.len() == 0 {
        assert(escape_chars(s) =~= Seq::<char>::empty());
        assert(acc + s =~= acc);
    } else {
        let c = s[0];
        let rest = s.drop_first();
        let ec = escape_char(c);
        lemma_encode_concat(ec, escape_chars(rest));
        let k = encode_utf8(ec).len() as int;
        let n = encoded_escape(rest).len() as int;
        assert(encoded_escape(s) == encode_utf8(ec) + encoded_escape(rest));
        assert(b.subrange(p + k, p + k + n) =~= encoded_escape(rest)) by {
            assert forall|i: int| 0 <= i < n implies b.subrange(p + k, p + k + n)[i]
                == encoded_escape(rest)[i] by {
                assert(b.subrange(p, p + encoded_escape(s).len())[k + i] == b[p + k + i]);
            }
        }
        assert forall|i: int| 0 <= i < k implies b[p + i] == #[trigger] encode_utf8(ec)[i] by {
            assert(b.subrange(p, p + encoded_escape(s).len())[i] == b[p + i]);
        }
        lemma_body_reads_escaped(b, p + k, rest, acc.push(c));
        assert(acc.push(c) + rest =~= acc + s);
        lemma_step_escaped(b, p, c, acc);
    }
}

/// Reading back what `escape` wrote: a JSON document made of an escaped text
/// between double quotes parses as a string holding exactly that text.
pub proof fn escape_then_parse(s: Seq<char>)
    ensures
        spec_parse(encode_utf8(seq!['"'] + escape_chars(s) + seq!['"'])) == Ok::<
            JsonValue,
            (Seq<char>, int),
        >(JsonValue::Str(s)),
{
    let q = seq!['"'];
    let b = encode_utf8(q + escape_chars(s) + q);
    lemma_encode_concat(q + escape_chars(s), q);
    lemma_encode_concat(q, escape_chars(s));
    assert(is_ascii_chars(q));
    is_ascii_chars_encode_utf8(q);
    let e = encoded_escape(s);
    assert(b == encode_utf8(q) + e + encode_utf8(q));
    assert(b[0] == QUOTE);
    assert(b.subrange(1, 1 + e.len() as int) =~= e);
    assert(b[1 + e.len() as int] == QUOTE);
    lemma_body_reads_escaped(b, 1, s, seq![]);
    assert(Seq::<char>::empty() + s =~= s);
    assert(spec_string(b, 0) == Ok::<(Seq<char>, int), (Seq<char>, int)>((s, b.len() as int)));
    assert(skip_ws(b, 0) == 0);
    assert(spec_value(b, 0) == Ok::<(JsonValue, int), (Seq<char>, int)>(
        (JsonValue::Str(s), b.len() as int),
    ));
    assert(skip_ws(b, b.len() as int) == b.len());
}

/// Whether JSON text needs a character escaped: the double quote, the
/// backslash and the control characters below 0x20.
pub open spec fn needs_escape(c: char) -> bool {
    c == '"' || c == '\\' || (c as u32) < 0x20
}

/// `escape` copies text that holds no character needing an escape as it is.
pub proof fn escape_keeps_plain_text(s: Seq<char>)
    requires
        forall|i: int| 0 <= i < s.len() ==> !needs_escape(#[trigger] s[i]),
    ensures
        escape_chars(s) == s,
    decreases s.len(),
{
    if s.len() > 0 {
        assert(!needs_escape(s[0]));
        escape_keeps_plain_text(s.drop_first());
        assert(seq![s[0]] + s.drop_first() =~= s);
    }
}

/// Each character comes out of `escape` as itself where it needs no escape,
/// and otherwise as one of the escapes JSON defines: `\"`, `\\`, `\n`, `\r`,
/// `\t`, or `\u00` and two hexadecimal digits that give its code.
pub proof fn escape_writes_json_escapes(c: char)
    ensures
        !needs_escape(c) ==> escape_char(c) == seq![c],
        c == '"' ==> escape_char(c) == seq!['\\', '"'],
        c == '\\' ==> escape_char(c) == seq!['\\', '\\'],
        c == '\n' ==> escape_char(c) == seq!['\\', 'n'],
        c == '\r' ==> escape_char(c) == seq!['\\', 'r'],
        c == '\t' ==> escape_char(c) == seq!['\\', 't'],
        needs_escape(c) && c != '"' && c != '\\' && c != '\n' && c != '\r' && c != '\t' ==> {
            let e = escape_char(c);
            &&& e.len() == 6
            &&& e[0] == '\\' && e[1] == 'u' && e[2] == '0' && e[3] == '0'
            &&& hex_digit_value(e[4] as u8) == Some((c as u32 / 16) as u16)
            &&& hex_digit_value(e[5] as u8) == Some((c as u32 % 16) as u16)
        },
{
    if needs_escape(c) && c != '"' && c != '\\' && c != '\n' && c != '\r' && c != '\t' {
        lemma_hex_lower((c as u32 / 16) as nat);
        lemma_hex_lower((c as u32 % 16) as nat);
    }
}

} // verus!
