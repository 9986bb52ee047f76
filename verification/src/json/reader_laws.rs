//! What the reader makes of escapes inside strings.
use vstd::prelude::*;
use vstd::utf8::*;

use super::grammar::{
    hex3, hex4_value, hex_digit_value, skip_ws, spec_hex4, spec_parse, spec_string,
    spec_string_body, spec_value, BACKSLASH, LOWER_B, LOWER_F, LOWER_N, LOWER_R, LOWER_T, LOWER_U,
    PLUS, QUOTE, SLASH,
};
use super::JsonValue;

verus! {

/// Whether a byte is one of the letters JSON allows after a backslash.
pub open spec fn json_escape_letter(x: u8) -> bool {
    x == QUOTE || x == BACKSLASH || x == SLASH || x == LOWER_B || x == LOWER_F || x == LOWER_N
        || x == LOWER_R || x == LOWER_T || x == LOWER_U
}

/// A backslash followed by anything but one of JSON's escape letters is
/// refused, naming the byte after the backslash.
pub proof fn reader_refuses_other_escapes(b: Seq<u8>, p: int, acc: Seq<char>)
    requires
        0 <= p,
        p + 1 < b.len(),
        b[p] == BACKSLASH,
        !json_escape_letter(b[p + 1]),
    ensures
        spec_string_body(b, p, acc) == Err::<(Seq<char>, int), (Seq<char>, int)>(
            ("invalid escape sequence"@, p + 1),
        ),
{
}

/// The hexadecimal digit for `d` below sixteen, its letters upper or lower
/// case.
pub open spec fn hex_digit_char(d: nat, upper: bool) -> char {
    if d < 10 {
        (0x30 + d) as char
    } else if upper {
        (0x41 + d - 10) as char
    } else {
        (0x61 + d - 10) as char
    }
}

/// `code` written as four hexadecimal digits.
pub open spec fn hex4_text(code: u16, upper: bool) -> Seq<char> {
    seq![
        hex_digit_char((code / 4096) as nat, upper),
        hex_digit_char(((code / 256) % 16) as nat, upper),
        hex_digit_char(((code / 16) % 16) as nat, upper),
        hex_digit_char((code % 16) as nat, upper),
    ]
}

proof fn lemma_hex_digit_char(d: nat, upper: bool)
    requires
        d < 16,
    ensures
        (hex_digit_char(d, upper) as u32) < 0x80,
        hex_digit_char(d, upper) as u8 != PLUS,
        hex_digit_value(hex_digit_char(d, upper) as u8) == Some(d as u16),
{
    if d < 10 {
        assert(((0x30 + d) as char) as u32 == 0x30 + d);
        assert(((0x30 + d) as char) as u8 == 0x30 + d);
    } else if upper {
        assert(((0x41 + d - 10) as char) as u32 == 0x41 + d - 10);
        assert(((0x41 + d - 10) as char) as u8 == 0x41 + d - 10);
    } else {
        assert(((0x61 + d - 10) as char) as u32 == 0x61 + d - 10);
        assert(((0x61 + d - 10) as char) as u8 == 0x61 + d - 10);
    }
}

proof fn lemma_code_digits(code: u16)
    ensures
        code / 4096 < 16,
        code == ((code / 4096) as nat * 4096 + (((code / 256) % 16) as nat * 256 + ((code / 16)
            % 16) as nat * 16 + (code % 16) as nat) as u16) as u16,
{
    assert(code / 4096 < 16) by (bit_vector);
    let d3 = (code / 4096) as nat;
    let d2 = ((code / 256) % 16) as nat;
    let d1 = ((code / 16) % 16) as nat;
    let d0 = (code % 16) as nat;
    assert(code == (code / 4096) * 4096 + ((code / 256) % 16) * 256 + ((code / 16) % 16) * 16 + code
        % 16) by (bit_vector);
    assert(d2 < 16 && d1 < 16 && d0 < 16);
    assert(d2 * 256 + d1 * 16 + d0 < 4096);
}

/// The bytes of a one-escape string document.
proof fn lemma_escape_bytes(code: u16, upper: bool)
    ensures
        ({
            let b = encode_utf8(seq!['"', '\\', 'u'] + hex4_text(code, upper) + seq!['"']);
            &&& b.len() == 8
            &&& b[0] == QUOTE && b[1] == BACKSLASH && b[2] == LOWER_U && b[7] == QUOTE
            &&& b[3] != PLUS
            &&& hex_digit_value(b[3]) == Some((code / 4096) as u16)
            &&& hex_digit_value(b[4]) == Some(((code / 256) % 16) as u16)
            &&& hex_digit_value(b[5]) == Some(((code / 16) % 16) as u16)
            &&& hex_digit_value(b[6]) == Some((code % 16) as u16)
        }),
{
    let d3 = (code / 4096) as nat;
    let d2 = ((code / 256) % 16) as nat;
    let d1 = ((code / 16) % 16) as nat;
    let d0 = (code % 16) as nat;
    lemma_code_digits(code);
    lemma_hex_digit_char(d3, upper);
    lemma_hex_digit_char(d2, upper);
    lemma_hex_digit_char(d1, upper);
    lemma_hex_digit_char(d0, upper);
    let t = seq!['"', '\\', 'u'] + hex4_text(code, upper) + seq!['"'];
    assert(t.len() == 8);
    assert(t[3] == hex_digit_char(d3, upper));
    assert(t[4] == hex_digit_char(d2, upper));
    assert(t[5] == hex_digit_char(d1, upper));
    assert(t[6] == hex_digit_char(d0, upper));
    assert(t[0] == '"' && t[1] == '\\' && t[2] == 'u' && t[7] == '"');
    assert(is_ascii_chars(t)) by {
        assert forall|i: int| 0 <= i < t.len() implies '\0' <= #[trigger] t[i] <= '\u{7f}' by {
            if 3 <= i < 7 {
                assert(t[i] == hex4_text(code, upper)[i - 3]);
            }
        }
    }
    is_ascii_chars_encode_utf8(t);
    let b = encode_utf8(t);
    assert(b[0] == t[0] as u8 && b[1] == t[1] as u8 && b[2] == t[2] as u8);
    assert(b[3] == t[3] as u8 && b[4] == t[4] as u8 && b[5] == t[5] as u8);
    assert(b[6] == t[6] as u8 && b[7] == t[7] as u8);
}

proof fn lemma_read_escape_bytes(b: Seq<u8>, code: u16)
    requires
        b.len() == 8,
        b[0] == QUOTE && b[1] == BACKSLASH && b[2] == LOWER_U && b[7] == QUOTE,
        b[3] != PLUS,
        hex_digit_value(b[3]) == Some((code / 4096) as u16),
        hex_digit_value(b[4]) == Some(((code / 256) % 16) as u16),
        hex_digit_value(b[5]) == Some(((code / 16) % 16) as u16),
        hex_digit_value(b[6]) == Some((code % 16) as u16),
    ensures
        spec_parse(b) == Ok::<JsonValue, (Seq<char>, int)>(
            JsonValue::Str(
                if is_scalar(code as u32) {
                    seq![(code as u32) as char]
                } else {
                    seq![]
                },
            ),
        ),
{
    lemma_code_digits(code);
    let d3 = (code / 4096) as nat;
    let d2 = ((code / 256) % 16) as nat;
    let d1 = ((code / 16) % 16) as nat;
    let d0 = (code % 16) as nat;
    assert(hex3(b, 4) == Some((d2 * 256 + d1 * 16 + d0) as u16));
    assert(hex4_value(b, 3) == Some(code));
    assert(spec_hex4(b, 3) == Ok::<u16, Seq<char>>(code));
    let acc = if is_scalar(code as u32) {
        seq![(code as u32) as char]
    } else {
        seq![]
    };
    assert(spec_string_body(b, 7, acc) == Ok::<(Seq<char>, int), (Seq<char>, int)>((acc, 8)));
    assert(Seq::<char>::empty().push((code as u32) as char) =~= seq![(code as u32) as char]);
    assert(spec_string_body(b, 1, seq![]) == spec_string_body(b, 7, acc));
    assert(spec_string(b, 0) == Ok::<(Seq<char>, int), (Seq<char>, int)>((acc, 8)));
    assert(skip_ws(b, 0) == 0);
    assert(spec_value(b, 0) == Ok::<(JsonValue, int), (Seq<char>, int)>((JsonValue::Str(acc), 8)));
    assert(skip_ws(b, 8) == 8);
}

/// A `\u` escape reads as the code its four hexadecimal digits write in base
/// sixteen, whether its letters are upper or lower case; a code that is not a
/// Unicode scalar value (half of a surrogate pair) gives no character.
pub proof fn unicode_escape_reads_code(code: u16, upper: bool)
    ensures
        spec_parse(encode_utf8(seq!['"', '\\', 'u'] + hex4_text(code, upper) + seq!['"']))
            == Ok::<JsonValue, (Seq<char>, int)>(
            JsonValue::Str(
                if is_scalar(code as u32) {
                    seq![(code as u32) as char]
                } else {
                    seq![]
                },
            ),
        ),
{
    lemma_escape_bytes(code, upper);
    lemma_read_escape_bytes(
        encode_utf8(seq!['"', '\\', 'u'] + hex4_text(code, upper) + seq!['"']),
        code,
    );
}

} // verus!
