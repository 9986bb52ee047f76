//! What `serialize` writes, `parse` reads back as the same value.
use vstd::prelude::*;
use vstd::utf8::*;

use super::emit::{print_items, print_pairs, print_string, print_value};
use super::escape::{encoded_escape, escape_chars, lemma_body_reads_escaped, lemma_encode_concat};
use super::grammar::{
    digits_end, is_digit, is_number_text, is_number_token, is_ws, lemma_digits_end, number_shape,
    skip_ws, spec_elements, spec_members, spec_number, spec_parse, spec_string, spec_value, COLON,
    COMMA, DOT, LBRACE, LBRACKET, LOWER_E, MINUS, PLUS, QUOTE, RBRACE, RBRACKET, UPPER_E,
};
use super::JsonValue;
use crate::text::ascii_chars;

verus! {

/// Whether every number in a value is a token as the reader meets one.
pub open spec fn printable(v: JsonValue) -> bool
    decreases v,
{
    match v {
        JsonValue::Number(t) => is_number_token(t),
        JsonValue::Array(items) => forall|i: int|
            0 <= i < items.len() ==> printable(#[trigger] items[i]),
        JsonValue::Object(pairs) => forall|i: int|
            0 <= i < pairs.len() ==> printable(#[trigger] pairs[i].1),
        _ => true,
    }
}

/// The bytes of the compact text of a value.
pub open spec fn bytes_of(v: JsonValue) -> Seq<u8> {
    encode_utf8(print_value(v))
}

/// Whether `b` holds `x` from position `p` on.
pub open spec fn at(b: Seq<u8>, p: int, x: Seq<u8>) -> bool {
    &&& 0 <= p
    &&& p + x.len() <= b.len()
    &&& b.subrange(p, p + x.len()) == x
}

/// Whether a value may end just before `q`: the input ends there, or a
/// comma or closing bracket follows.
pub open spec fn stops(b: Seq<u8>, q: int) -> bool {
    ||| q == b.len()
    ||| (0 <= q < b.len() && (b[q] == COMMA || b[q] == RBRACKET || b[q] == RBRACE))
}

proof fn lemma_at_index(b: Seq<u8>, p: int, x: Seq<u8>, i: int)
    requires
        at(b, p, x),
        0 <= i < x.len(),
    ensures
        b[p + i] == x[i],
{
    assert(b.subrange(p, p + x.len())[i] == b[p + i]);
}

proof fn lemma_at_split(b: Seq<u8>, p: int, x: Seq<u8>, y: Seq<u8>)
    requires
        at(b, p, x + y),
    ensures
        at(b, p, x),
        at(b, p + x.len(), y),
{
    assert forall|i: int| 0 <= i < x.len() implies b.subrange(p, p + x.len())[i] == x[i] by {
        lemma_at_index(b, p, x + y, i);
    }
    assert(b.subrange(p, p + x.len()) =~= x);
    assert forall|i: int| 0 <= i < y.len() implies b.subrange(p + x.len(), p + x.len() + y.len())[i]
        == y[i] by {
        lemma_at_index(b, p, x + y, x.len() + i);
    }
    assert(b.subrange(p + x.len(), p + x.len() + y.len()) =~= y);
}

/// `at` over the encoding of two pieces of text.
proof fn lemma_at_chars(b: Seq<u8>, p: int, x: Seq<char>, y: Seq<char>)
    requires
        at(b, p, encode_utf8(x + y)),
    ensures
        encode_utf8(x + y) == encode_utf8(x) + encode_utf8(y),
        at(b, p, encode_utf8(x)),
        at(b, p + encode_utf8(x).len(), encode_utf8(y)),
{
    lemma_encode_concat(x, y);
    lemma_at_split(b, p, encode_utf8(x), encode_utf8(y));
}

proof fn lemma_encode_ascii_char(c: char)
    requires
        (c as u32) < 0x80,
    ensures
        encode_utf8(seq![c]) == seq![c as u8],
{
    let cs = seq![c];
    assert(is_ascii_chars(cs));
    is_ascii_chars_encode_utf8(cs);
    assert(encode_utf8(cs) =~= seq![c as u8]);
}

/// The encoding of a text between two ASCII characters.
proof fn lemma_encode_wrap(open: char, mid: Seq<char>, close: char)
    requires
        (open as u32) < 0x80,
        (close as u32) < 0x80,
    ensures
        encode_utf8(seq![open] + mid + seq![close]) == seq![open as u8] + encode_utf8(mid) + seq![
            close as u8,
        ],
{
    lemma_encode_concat(seq![open] + mid, seq![close]);
    lemma_encode_concat(seq![open], mid);
    lemma_encode_ascii_char(open);
    lemma_encode_ascii_char(close);
}

/// Every byte of a number token is ASCII.
proof fn lemma_number_ascii(t: Seq<u8>)
    requires
        is_number_text(t),
    ensures
        forall|i: int| 0 <= i < t.len() ==> #[trigger] t[i] < 0x80,
{
    let sh = number_shape(t, 0);
    lemma_digits_end(t, sh.sign_end);
    lemma_digits_end(t, sh.int_end + 1);
    lemma_digits_end(t, sh.exp_digits);
    assert forall|i: int| 0 <= i < t.len() implies #[trigger] t[i] < 0x80 by {
        if i < sh.sign_end {
            assert(t[i] == MINUS);
        } else if i < sh.int_end {
            assert(is_digit(t[i]));
        } else if i < sh.frac_end {
            if i == sh.int_end {
                assert(t[i] == DOT);
            } else {
                assert(is_digit(t[i]));
            }
        } else if i < sh.exp_digits {
            if i == sh.frac_end {
                assert(t[i] == LOWER_E || t[i] == UPPER_E);
            } else {
                assert(t[i] == PLUS || t[i] == MINUS);
            }
        } else {
            assert(is_digit(t[i]));
        }
    }
}

/// The text of a number token encodes back to the token.
proof fn lemma_number_bytes(t: Seq<u8>)
    requires
        is_number_text(t),
    ensures
        encode_utf8(ascii_chars(t)) == t,
{
    lemma_number_ascii(t);
    let cs = ascii_chars(t);
    assert forall|i: int| 0 <= i < cs.len() implies '\0' <= #[trigger] cs[i] <= '\u{7f}' by {
        assert(t[i] < 0x80);
    }
    is_ascii_chars_encode_utf8(cs);
    assert forall|i: int| 0 <= i < t.len() implies encode_utf8(cs)[i] == t[i] by {
        assert(t[i] < 0x80);
        assert(cs[i] as u8 == encode_utf8(cs)[i]);
    }
    assert(encode_utf8(cs) =~= t);
}

/// The first byte of a value's text opens it: it is not white space and
/// does not close an array.
proof fn lemma_first_byte(v: JsonValue)
    requires
        printable(v),
    ensures
        bytes_of(v).len() >= 1,
        !is_ws(bytes_of(v)[0]),
        bytes_of(v)[0] != RBRACKET,
{
    match v {
        JsonValue::Null => {
            reveal_strlit("null");
            assert(is_ascii_chars("null"@));
            is_ascii_chars_encode_utf8("null"@);
        },
        JsonValue::Bool(x) => {
            reveal_strlit("true");
            reveal_strlit("false");
            assert(is_ascii_chars("true"@));
            assert(is_ascii_chars("false"@));
            is_ascii_chars_encode_utf8("true"@);
            is_ascii_chars_encode_utf8("false"@);
        },
        JsonValue::Number(t) => {
            lemma_number_bytes(t);
        },
        JsonValue::Str(s) => {
            lemma_encode_wrap('"', escape_chars(s), '"');
        },
        JsonValue::Array(items) => {
            lemma_encode_wrap('[', print_items(items), ']');
        },
        JsonValue::Object(pairs) => {
            lemma_encode_wrap('{', print_pairs(pairs), '}');
        },
    }
}

proof fn lemma_items_front(s: Seq<JsonValue>)
    requires
        s.len() >= 2,
    ensures
        print_items(s) == print_value(s[0]) + seq![','] + print_items(s.drop_first()),
    decreases s.len(),
{
    if s.len() == 2 {
        assert(s.drop_last().len() == 1);
        assert(s.drop_first().len() == 1);
        assert(print_items(s.drop_first()) == print_value(s[1]));
        assert(print_items(s.drop_last()) == print_value(s[0]));
        assert(print_items(s) == print_items(s.drop_last()) + seq![','] + print_value(s.last()));
    } else {
        lemma_items_front(s.drop_last());
        assert(s.drop_last().drop_first() =~= s.drop_first().drop_last());
        assert(s.drop_first().last() == s.last());
        assert(print_items(s) =~= print_value(s[0]) + seq![','] + print_items(s.drop_first()));
    }
}

/// One member of an object as written: key, colon, value.
pub open spec fn print_member(m: (Seq<char>, JsonValue)) -> Seq<char> {
    print_string(m.0) + seq![':'] + print_value(m.1)
}

proof fn lemma_pairs_one(s: Seq<(Seq<char>, JsonValue)>)
    requires
        s.len() == 1,
    ensures
        print_pairs(s) == print_member(s[0]),
{
}

proof fn lemma_pairs_front(s: Seq<(Seq<char>, JsonValue)>)
    requires
        s.len() >= 2,
    ensures
        print_pairs(s) == print_member(s[0]) + seq![','] + print_pairs(s.drop_first()),
    decreases s.len(),
{
    if s.len() == 2 {
        assert(s.drop_last().len() == 1);
        assert(s.drop_first().len() == 1);
        lemma_pairs_one(s.drop_last());
        lemma_pairs_one(s.drop_first());
        assert(print_pairs(s) =~= print_member(s[0]) + seq![','] + print_pairs(s.drop_first()));
    } else {
        lemma_pairs_front(s.drop_last());
        assert(s.drop_last().drop_first() =~= s.drop_first().drop_last());
        assert(s.drop_first().last() == s.last());
        assert(print_pairs(s) =~= print_member(s[0]) + seq![','] + print_pairs(s.drop_first()));
    }
}

/// A string's text at `p` reads back as the string.
proof fn lemma_string_reads(b: Seq<u8>, p: int, s: Seq<char>)
    requires
        at(b, p, encode_utf8(print_string(s))),
    ensures
        encode_utf8(print_string(s)).len() == encoded_escape(s).len() + 2,
        b[p] == QUOTE,
        spec_string(b, p) == Ok::<(Seq<char>, int), (Seq<char>, int)>(
            (s, p + encode_utf8(print_string(s)).len()),
        ),
{
    let e = encoded_escape(s);
    lemma_encode_wrap('"', escape_chars(s), '"');
    let x = encode_utf8(print_string(s));
    assert(x == seq![QUOTE] + e + seq![QUOTE]);
    lemma_at_index(b, p, x, 0);
    lemma_at_index(b, p, x, e.len() as int + 1);
    assert(b.subrange(p + 1, p + 1 + e.len()) =~= e) by {
        assert forall|i: int| 0 <= i < e.len() implies b.subrange(p + 1, p + 1 + e.len())[i]
            == e[i] by {
            lemma_at_index(b, p, x, i + 1);
        }
    }
    lemma_body_reads_escaped(b, p + 1, s, seq![]);
    assert(Seq::<char>::empty() + s =~= s);
}

proof fn lemma_digits_shift(b: Seq<u8>, p: int, t: Seq<u8>, i: int)
    requires
        at(b, p, t),
        0 <= i <= t.len(),
        p + t.len() == b.len() || !is_digit(b[p + t.len()]),
    ensures
        digits_end(b, p + i) == p + digits_end(t, i),
    decreases t.len() - i,
{
    if i < t.len() {
        lemma_at_index(b, p, t, i);
        if is_digit(t[i]) {
            lemma_digits_shift(b, p, t, i + 1);
        }
    }
}

/// A number token at `p`, followed by the end or a closing byte, reads back
/// as itself.
proof fn lemma_number_reads(b: Seq<u8>, p: int, t: Seq<u8>)
    requires
        is_number_token(t),
        at(b, p, t),
        stops(b, p + t.len()),
    ensures
        spec_number(b, p) == Ok::<(JsonValue, int), (Seq<char>, int)>(
            (JsonValue::Number(t), p + t.len()),
        ),
{
    let n = t.len() as int;
    let sh = number_shape(t, 0);
    let bs = number_shape(b, p);
    lemma_digits_end(t, sh.sign_end);
    lemma_digits_end(t, sh.int_end + 1);
    lemma_digits_end(t, sh.exp_digits);
    assert forall|j: int| 0 <= j < n implies b[p + j] == #[trigger] t[j] by {
        lemma_at_index(b, p, t, j);
    }
    lemma_at_index(b, p, t, 0);
    assert(bs.sign_end == p + sh.sign_end);
    lemma_digits_shift(b, p, t, sh.sign_end);
    assert(bs.int_end == p + sh.int_end);
    if sh.int_end < n && t[sh.int_end] == DOT {
        lemma_digits_shift(b, p, t, sh.int_end + 1);
    }
    assert(bs.frac_end == p + sh.frac_end);
    if sh.frac_end < n && (t[sh.frac_end] == LOWER_E || t[sh.frac_end] == UPPER_E) {
        assert(sh.frac_end + 1 <= n);
    }
    assert(bs.exp_digits == p + sh.exp_digits);
    lemma_digits_shift(b, p, t, sh.exp_digits);
    assert(bs.end == p + n);
}

/// A literal's text at `p` reads back as the literal.
proof fn lemma_literal_reads(b: Seq<u8>, p: int, v: JsonValue)
    requires
        v is Null || v is Bool,
        at(b, p, bytes_of(v)),
    ensures
        spec_value(b, p) == Ok::<(JsonValue, int), (Seq<char>, int)>(
            (v, p + bytes_of(v).len()),
        ),
{
    let x = bytes_of(v);
    reveal_strlit("null");
    reveal_strlit("true");
    reveal_strlit("false");
    assert(is_ascii_chars("null"@));
    assert(is_ascii_chars("true"@));
    assert(is_ascii_chars("false"@));
    is_ascii_chars_encode_utf8("null"@);
    is_ascii_chars_encode_utf8("true"@);
    is_ascii_chars_encode_utf8("false"@);
    lemma_at_index(b, p, x, 0);
    assert(skip_ws(b, p) == p);
}

/// Where an array's text sits at `p`: its brackets and its elements.
proof fn lemma_array_frame(b: Seq<u8>, p: int, items: Seq<JsonValue>)
    requires
        forall|j: int| 0 <= j < items.len() ==> printable(#[trigger] items[j]),
        at(b, p, bytes_of(JsonValue::Array(items))),
    ensures
        ({
            let inner = encode_utf8(print_items(items));
            &&& bytes_of(JsonValue::Array(items)).len() == inner.len() + 2
            &&& b[p] == LBRACKET
            &&& skip_ws(b, p) == p
            &&& at(b, p + 1, inner)
            &&& b[p + 1 + inner.len()] == RBRACKET
            &&& (items.len() == 0 ==> inner.len() == 0)
            &&& (items.len() > 0 ==> skip_ws(b, p + 1) == p + 1 && b[p + 1] != RBRACKET)
            &&& items.skip(0) == items
            &&& items.take(0) == Seq::<JsonValue>::empty()
        }),
{
    let x = bytes_of(JsonValue::Array(items));
    lemma_encode_wrap('[', print_items(items), ']');
    let inner = encode_utf8(print_items(items));
    assert(x == seq![LBRACKET] + inner + seq![RBRACKET]);
    lemma_at_split(b, p, seq![LBRACKET] + inner, seq![RBRACKET]);
    lemma_at_split(b, p, seq![LBRACKET], inner);
    lemma_at_index(b, p, x, 0);
    lemma_at_index(b, p, x, x.len() as int - 1);
    assert(items.skip(0) =~= items);
    assert(items.take(0) =~= Seq::<JsonValue>::empty());
    if items.len() > 0 {
        lemma_items_first(items);
        lemma_first_byte(items[0]);
        lemma_at_chars(b, p + 1, print_value(items[0]), print_items(items).subrange(
            print_value(items[0]).len() as int,
            print_items(items).len() as int,
        ));
        lemma_at_index(b, p + 1, bytes_of(items[0]), 0);
    }
}

/// Where an object's text sits at `p`: its braces and its members.
proof fn lemma_object_frame(b: Seq<u8>, p: int, pairs: Seq<(Seq<char>, JsonValue)>)
    requires
        at(b, p, bytes_of(JsonValue::Object(pairs))),
    ensures
        ({
            let inner = encode_utf8(print_pairs(pairs));
            &&& bytes_of(JsonValue::Object(pairs)).len() == inner.len() + 2
            &&& b[p] == LBRACE
            &&& skip_ws(b, p) == p
            &&& at(b, p + 1, inner)
            &&& b[p + 1 + inner.len()] == RBRACE
            &&& (pairs.len() == 0 ==> inner.len() == 0)
            &&& (pairs.len() > 0 ==> skip_ws(b, p + 1) == p + 1 && b[p + 1] == QUOTE)
            &&& pairs.skip(0) == pairs
            &&& pairs.take(0) == Seq::<(Seq<char>, JsonValue)>::empty()
        }),
{
    let x = bytes_of(JsonValue::Object(pairs));
    lemma_encode_wrap('{', print_pairs(pairs), '}');
    let inner = encode_utf8(print_pairs(pairs));
    assert(x == seq![LBRACE] + inner + seq![RBRACE]);
    lemma_at_split(b, p, seq![LBRACE] + inner, seq![RBRACE]);
    lemma_at_split(b, p, seq![LBRACE], inner);
    lemma_at_index(b, p, x, 0);
    lemma_at_index(b, p, x, x.len() as int - 1);
    assert(pairs.skip(0) =~= pairs);
    assert(pairs.take(0) =~= Seq::<(Seq<char>, JsonValue)>::empty());
    if pairs.len() > 0 {
        lemma_pairs_first(pairs);
        lemma_at_chars(b, p + 1, print_string(pairs[0].0), print_pairs(pairs).subrange(
            print_string(pairs[0].0).len() as int,
            print_pairs(pairs).len() as int,
        ));
        lemma_string_reads(b, p + 1, pairs[0].0);
    }
}

/// A value's text at `p`, followed by the end or a closing byte, reads back
/// as the value, ending just after its text.
proof fn lemma_value_reads(b: Seq<u8>, p: int, v: JsonValue)
    requires
        printable(v),
        at(b, p, bytes_of(v)),
        stops(b, p + bytes_of(v).len()),
    ensures
        spec_value(b, p) == Ok::<(JsonValue, int), (Seq<char>, int)>(
            (v, p + bytes_of(v).len()),
        ),
    decreases v, 0int,
{
    match v {
        JsonValue::Null => {
            lemma_literal_reads(b, p, v);
        },
        JsonValue::Bool(_) => {
            lemma_literal_reads(b, p, v);
        },
        JsonValue::Number(t) => {
            lemma_number_bytes(t);
            lemma_at_index(b, p, t, 0);
            assert(skip_ws(b, p) == p);
            lemma_number_reads(b, p, t);
        },
        JsonValue::Str(s) => {
            lemma_string_reads(b, p, s);
            assert(skip_ws(b, p) == p);
        },
        JsonValue::Array(items) => {
            lemma_array_frame(b, p, items);
            if items.len() > 0 {
                lemma_elements_reads(b, p + 1, items, 0);
            }
        },
        JsonValue::Object(pairs) => {
            lemma_object_frame(b, p, pairs);
            if pairs.len() > 0 {
                lemma_members_reads(b, p + 1, pairs, 0);
            }
        },
    }
}

/// The text of a non-empty list of values starts with that of the first.
proof fn lemma_items_first(items: Seq<JsonValue>)
    requires
        items.len() >= 1,
    ensures
        print_items(items) == print_value(items[0]) + print_items(items).subrange(
            print_value(items[0]).len() as int,
            print_items(items).len() as int,
        ),
{
    if items.len() >= 2 {
        lemma_items_front(items);
    }
    assert(print_items(items) =~= print_value(items[0]) + print_items(items).subrange(
        print_value(items[0]).len() as int,
        print_items(items).len() as int,
    ));
}

/// The text of a non-empty list of members starts with the first key.
proof fn lemma_pairs_first(pairs: Seq<(Seq<char>, JsonValue)>)
    requires
        pairs.len() >= 1,
    ensures
        print_pairs(pairs) == print_string(pairs[0].0) + print_pairs(pairs).subrange(
            print_string(pairs[0].0).len() as int,
            print_pairs(pairs).len() as int,
        ),
{
    if pairs.len() >= 2 {
        lemma_pairs_front(pairs);
    } else {
        lemma_pairs_one(pairs);
    }
    assert(print_pairs(pairs) =~= print_string(pairs[0].0) + print_pairs(pairs).subrange(
        print_string(pairs[0].0).len() as int,
        print_pairs(pairs).len() as int,
    ));
}

/// The elements from index `i` on, followed by a closing bracket, read back
/// as the whole array.
proof fn lemma_elements_reads(b: Seq<u8>, p: int, items: Seq<JsonValue>, i: int)
    requires
        0 <= i < items.len(),
        forall|j: int| 0 <= j < items.len() ==> printable(#[trigger] items[j]),
        at(b, p, encode_utf8(print_items(items.skip(i)))),
        p + encode_utf8(print_items(items.skip(i))).len() < b.len(),
        b[p + encode_utf8(print_items(items.skip(i))).len()] == RBRACKET,
    ensures
        spec_elements(b, p, items.take(i)) == Ok::<(JsonValue, int), (Seq<char>, int)>(
            (JsonValue::Array(items), p + encode_utf8(print_items(items.skip(i))).len() + 1),
        ),
    decreases items, items.len() - i,
{
    let s = items.skip(i);
    let n = encode_utf8(print_items(s)).len() as int;
    let v = items[i];
    let n1 = bytes_of(v).len() as int;
    assert(s[0] == v);
    assert(items.take(i).push(v) =~= items.take(i + 1));
    if s.len() == 1 {
        assert(print_items(s) == print_value(v));
        lemma_value_reads(b, p, v);
        assert(items.take(i + 1) =~= items);
    } else {
        lemma_items_front(s);
        assert(s.drop_first() =~= items.skip(i + 1));
        let rest = print_items(items.skip(i + 1));
        lemma_at_chars(b, p, print_value(v) + seq![','], rest);
        lemma_at_chars(b, p, print_value(v), seq![',']);
        lemma_encode_ascii_char(',');
        lemma_at_index(b, p + n1, seq![COMMA], 0);
        lemma_value_reads(b, p, v);
        lemma_elements_reads(b, p + n1 + 1, items, i + 1);
    }
}

/// The members from index `i` on, followed by a closing brace, read back as
/// the whole object.
proof fn lemma_members_reads(b: Seq<u8>, p: int, pairs: Seq<(Seq<char>, JsonValue)>, i: int)
    requires
        0 <= i < pairs.len(),
        forall|j: int| 0 <= j < pairs.len() ==> printable(#[trigger] pairs[j].1),
        at(b, p, encode_utf8(print_pairs(pairs.skip(i)))),
        p + encode_utf8(print_pairs(pairs.skip(i))).len() < b.len(),
        b[p + encode_utf8(print_pairs(pairs.skip(i))).len()] == RBRACE,
    ensures
        spec_members(b, p, pairs.take(i)) == Ok::<(JsonValue, int), (Seq<char>, int)>(
            (JsonValue::Object(pairs), p + encode_utf8(print_pairs(pairs.skip(i))).len() + 1),
        ),
    decreases pairs, pairs.len() - i,
{
    let s = pairs.skip(i);
    let m = pairs[i];
    assert(s[0] == m);
    assert(pairs.take(i).push(m) =~= pairs.take(i + 1));
    let key = print_string(m.0);
    let nk = encode_utf8(key).len() as int;
    let n1 = bytes_of(m.1).len() as int;
    let here = print_member(m);
    if s.len() == 1 {
        lemma_pairs_one(s);
    } else {
        lemma_pairs_front(s);
        assert(s.drop_first() =~= pairs.skip(i + 1));
        lemma_at_chars(b, p, here + seq![','], print_pairs(pairs.skip(i + 1)));
        lemma_at_chars(b, p, here, seq![',']);
    }
    assert(at(b, p, encode_utf8(here)));
    lemma_at_chars(b, p, key + seq![':'], print_value(m.1));
    lemma_at_chars(b, p, key, seq![':']);
    lemma_encode_ascii_char(':');
    lemma_at_index(b, p + nk, seq![COLON], 0);
    lemma_string_reads(b, p, m.0);
    assert(skip_ws(b, p) == p);
    assert(skip_ws(b, p + nk) == p + nk);
    assert(decreases_to!(pairs => pairs[i]));
    assert(decreases_to!(pairs[i] => pairs[i].1));
    if s.len() == 1 {
        lemma_value_reads(b, p + nk + 1, m.1);
        assert(pairs.take(i + 1) =~= pairs);
    } else {
        lemma_encode_ascii_char(',');
        lemma_at_index(b, p + nk + 1 + n1, seq![COMMA], 0);
        lemma_value_reads(b, p + nk + 1, m.1);
        lemma_members_reads(b, p + nk + 1 + n1 + 1, pairs, i + 1);
    }
}

/// Reading back what `serialize` writes: the compact text of a value whose
/// numbers are number tokens parses as that same value.
pub proof fn print_then_parse(v: JsonValue)
    requires
        printable(v),
    ensures
        spec_parse(encode_utf8(print_value(v))) == Ok::<JsonValue, (Seq<char>, int)>(v),
{
    let b = bytes_of(v);
    assert(b.subrange(0, b.len() as int) =~= b);
    lemma_value_reads(b, 0, v);
}

} // verus!
