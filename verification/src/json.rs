//! A small JSON reader, enough to walk a Trello board export: objects,
//! arrays, strings, numbers, booleans and null, and lookups by key.
use vstd::prelude::*;
use vstd::string::*;

use crate::text::{ascii_chars, decimal, str_eq, string_of_ascii, usize_to_decimal};

pub mod grammar;
pub mod escape;
pub mod parser;
pub mod emit;
pub mod round_trip;
pub mod numbers;
pub mod utf8_laws;
pub mod reader_laws;

pub use escape::escape;

pub use parser::parse;
pub use emit::serialize;
pub use numbers::number_tokens;

verus! {

/// What a JSON value is, as mathematics: numbers are kept as the bytes of
/// their token, strings as their characters, members in document order.
#[verifier::ext_equal]
pub enum JsonValue {
    Null,
    Bool(bool),
    Number(Seq<u8>),
    Str(Seq<char>),
    Array(Seq<JsonValue>),
    Object(Seq<(Seq<char>, JsonValue)>),
}

/// The value of the first member named `key` from index `i` on.
pub open spec fn lookup_from(pairs: Seq<(Seq<char>, JsonValue)>, key: Seq<char>, i: int) -> Option<
    JsonValue,
>
    decreases pairs.len() - i,
{
    if !(0 <= i < pairs.len()) {
        None
    } else if pairs[i].0 == key {
        Some(pairs[i].1)
    } else {
        lookup_from(pairs, key, i + 1)
    }
}

impl JsonValue {
    /// The first member named `key` of an object; nothing for other values.
    pub open spec fn get(self, key: Seq<char>) -> Option<JsonValue> {
        match self {
            JsonValue::Object(pairs) => lookup_from(pairs, key, 0),
            _ => None,
        }
    }

    pub open spec fn as_str(self) -> Option<Seq<char>> {
        match self {
            JsonValue::Str(s) => Some(s),
            _ => None,
        }
    }

    pub open spec fn as_bool(self) -> Option<bool> {
        match self {
            JsonValue::Bool(b) => Some(b),
            _ => None,
        }
    }

    pub open spec fn as_array(self) -> Option<Seq<JsonValue>> {
        match self {
            JsonValue::Array(items) => Some(items),
            _ => None,
        }
    }

    pub open spec fn as_number(self) -> Option<Seq<u8>> {
        match self {
            JsonValue::Number(t) => Some(t),
            _ => None,
        }
    }
}

/// A number token, kept as its text: an optional minus sign, digits with an
/// optional fraction, and an optional exponent, as `str::parse::<f64>`
/// accepts them.
pub struct JsonNumber {
    bytes: Vec<u8>,
}

impl View for JsonNumber {
    type V = Seq<u8>;

    closed spec fn view(&self) -> Seq<u8> {
        self.bytes@
    }
}

impl JsonNumber {
    /// A number from its text; `None` where the text is not a number token.
    pub fn new(text: &str) -> (r: Option<JsonNumber>)
        ensures
            grammar::is_number_token(text.spec_bytes()) <==> r is Some,
            r matches Some(n) ==> n@ == text.spec_bytes(),
    {
        let b = text.as_bytes();
        if b.len() == 0 || !(b[0] == grammar::MINUS || (grammar::DIGIT_0 <= b[0]
            && b[0] <= grammar::DIGIT_9)) {
            return None;
        }
        let (_, _, _, _, end, valid) = parser::scan_number(b, 0);
        if end == b.len() && valid {
            Some(JsonNumber { bytes: vstd::slice::slice_to_vec(b) })
        } else {
            None
        }
    }

    pub(crate) fn from_bytes(bytes: Vec<u8>) -> (r: JsonNumber)
        ensures
            r@ == bytes@,
    {
        JsonNumber { bytes }
    }

    /// The bytes of the token.
    pub fn as_bytes(&self) -> (r: &[u8])
        ensures
            r@ == self@,
    {
        self.bytes.as_slice()
    }

    /// The token as text.
    pub fn text(&self) -> (r: String)
        ensures
            r@ == ascii_chars(self@),
    {
        string_of_ascii(self.bytes.as_slice())
    }
}

/// A parsed JSON document.
pub enum Json {
    Null,
    Bool(bool),
    Number(JsonNumber),
    String(String),
    Array(Vec<Json>),
    Object(Vec<(String, Json)>),
}

pub open spec fn items_value(items: Seq<Json>) -> Seq<JsonValue> {
    Seq::new(items.len(), |i: int| items[i].value())
}

pub open spec fn pairs_value(pairs: Seq<(String, Json)>) -> Seq<(Seq<char>, JsonValue)> {
    Seq::new(pairs.len(), |i: int| (pairs[i].0@, pairs[i].1.value()))
}

impl Json {
    /// The value a document stands for.
    pub open spec fn value(self) -> JsonValue
        decreases self,
    {
        match self {
            Json::Null => JsonValue::Null,
            Json::Bool(b) => JsonValue::Bool(b),
            Json::Number(n) => JsonValue::Number(n@),
            Json::String(s) => JsonValue::Str(s@),
            Json::Array(items) => JsonValue::Array(
                Seq::new(
                    items.len() as nat,
                    |i: int|
                        if 0 <= i < items.len() {
                            items@[i].value()
                        } else {
                            JsonValue::Null
                        },
                ),
            ),
            Json::Object(pairs) => JsonValue::Object(
                Seq::new(
                    pairs.len() as nat,
                    |i: int|
                        if 0 <= i < pairs.len() {
                            (pairs@[i].0@, pairs@[i].1.value())
                        } else {
                            (Seq::empty(), JsonValue::Null)
                        },
                ),
            ),
        }
    }

    pub proof fn lemma_array_value(items: Vec<Json>)
        ensures
            Json::Array(items).value() == JsonValue::Array(items_value(items@)),
    {
        let s = Seq::new(
            items.len() as nat,
            |i: int|
                if 0 <= i < items.len() {
                    items@[i].value()
                } else {
                    JsonValue::Null
                },
        );
        assert(Json::Null.value() == JsonValue::Null);
        assert(Json::Array(items).value() is Array);
        assert(Json::Array(items).value()->Array_0.len() == s.len());
        assert forall|i: int| 0 <= i < s.len() implies Json::Array(items).value()->Array_0[i] == s[i] by {
            assert(s[i] == items@[i].value());
        }
        assert(Json::Array(items).value()->Array_0 =~= s);
        assert(Json::Array(items).value() == JsonValue::Array(s));
        assert(items_value(items@) =~= Seq::new(
            items.len() as nat,
            |i: int|
                if 0 <= i < items.len() {
                    items@[i].value()
                } else {
                    JsonValue::Null
                },
        ));
    }

    pub proof fn lemma_object_value(pairs: Vec<(String, Json)>)
        ensures
            Json::Object(pairs).value() == JsonValue::Object(pairs_value(pairs@)),
    {
        let s = Seq::new(
            pairs.len() as nat,
            |i: int|
                if 0 <= i < pairs.len() {
                    (pairs@[i].0@, pairs@[i].1.value())
                } else {
                    (Seq::empty(), JsonValue::Null)
                },
        );
        assert forall|i: int| 0 <= i < s.len() implies Json::Object(pairs).value()->Object_0[i] == s[i] by {
            assert(s[i] == (pairs@[i].0@, pairs@[i].1.value()));
        }
        assert(Json::Object(pairs).value()->Object_0 =~= s);
        assert(Json::Object(pairs).value() == JsonValue::Object(s));
        assert(pairs_value(pairs@) =~= Seq::new(
            pairs.len() as nat,
            |i: int|
                if 0 <= i < pairs.len() {
                    (pairs@[i].0@, pairs@[i].1.value())
                } else {
                    (Seq::empty(), JsonValue::Null)
                },
        ));
    }

    /// The first member named `key`, where this is an object.
    pub fn get(&self, key: &str) -> (r: Option<&Json>)
        ensures
            match r {
                Some(v) => self.value().get(key@) == Some(v.value()),
                None => self.value().get(key@) is None,
            },
    {
        match self {
            Json::Object(pairs) => {
                proof {
                    Json::lemma_object_value(*pairs);
                }
                let ghost pv = pairs_value(pairs@);
                let mut i: usize = 0;
                while i < pairs.len()
                    invariant
                        0 <= i <= pairs.len(),
                        pv == pairs_value(pairs@),
                        self.value() == JsonValue::Object(pv),
                        lookup_from(pv, key@, 0) == lookup_from(pv, key@, i as int),
                    decreases pairs.len() - i,
                {
                    if str_eq(pairs[i].0.as_str(), key) {
                        assert(pv[i as int] == (pairs@[i as int].0@, pairs@[i as int].1.value()));
                        assert(lookup_from(pv, key@, i as int) == Some(pv[i as int].1));
                        return Some(&pairs[i].1);
                    }
                    i = i + 1;
                }
                None
            },
            _ => None,
        }
    }

    /// The text, where this is a string.
    pub fn as_str(&self) -> (r: Option<&str>)
        ensures
            match r {
                Some(s) => self.value().as_str() == Some(s@),
                None => self.value().as_str() is None,
            },
    {
        match self {
            Json::String(s) => Some(s.as_str()),
            _ => None,
        }
    }

    /// The flag, where this is a boolean.
    pub fn as_bool(&self) -> (r: Option<bool>)
        ensures
            r == self.value().as_bool(),
    {
        match self {
            Json::Bool(b) => Some(*b),
            _ => None,
        }
    }

    /// The elements, where this is an array.
    pub fn as_array(&self) -> (r: Option<&[Json]>)
        ensures
            match r {
                Some(items) => self.value().as_array() == Some(items_value(items@)),
                None => self.value().as_array() is None,
            },
    {
        match self {
            Json::Array(items) => {
                proof {
                    Json::lemma_array_value(*items);
                }
                Some(items.as_slice())
            },
            _ => None,
        }
    }

    /// The number token, where this is a number.
    pub fn as_number(&self) -> (r: Option<&JsonNumber>)
        ensures
            match r {
                Some(n) => self.value().as_number() == Some(n@),
                None => self.value().as_number() is None,
            },
    {
        match self {
            Json::Number(n) => Some(n),
            _ => None,
        }
    }
}

/// Why a document could not be read, and the byte where reading stopped.
#[derive(Debug)]
pub struct ParseError {
    pub message: String,
    pub pos: usize,
}

impl ParseError {
    pub open spec fn text_of(message: Seq<char>, pos: nat) -> Seq<char> {
        message + " (at byte "@ + decimal(pos) + ")"@
    }

    /// The message and position, as the command line prints them.
    pub fn to_string(&self) -> (r: String)
        ensures
            r@ == ParseError::text_of(self.message@, self.pos as nat),
    {
        let mut out = self.message.clone();
        out.append(" (at byte ");
        let digits = usize_to_decimal(self.pos);
        out.append(digits.as_str());
        out.append(")");
        out
    }
}

} // verus!
