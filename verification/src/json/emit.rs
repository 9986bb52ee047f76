//! Writing JSON: each value in its compact form, with no white space.
use vstd::prelude::*;
use vstd::string::*;

use super::escape::{escape, escape_chars};
use super::{items_value, pairs_value, Json, JsonValue};
use crate::text::{ascii_chars, push_char};

verus! {

/// The compact text of a value.
pub open spec fn print_value(v: JsonValue) -> Seq<char>
    decreases v,
{
    match v {
        JsonValue::Null => "null"@,
        JsonValue::Bool(b) => if b {
            "true"@
        } else {
            "false"@
        },
        JsonValue::Number(t) => ascii_chars(t),
        JsonValue::Str(s) => print_string(s),
        JsonValue::Array(items) => seq!['['] + print_items(items) + seq![']'],
        JsonValue::Object(pairs) => seq!['{'] + print_pairs(pairs) + seq!['}'],
    }
}

/// A string between double quotes, escaped.
pub open spec fn print_string(s: Seq<char>) -> Seq<char> {
    seq!['"'] + escape_chars(s) + seq!['"']
}

/// Values separated by commas.
pub open spec fn print_items(items: Seq<JsonValue>) -> Seq<char>
    decreases items,
{
    if items.len() == 0 {
        Seq::empty()
    } else if items.len() == 1 {
        print_value(items[0])
    } else {
        print_items(items.drop_last()) + seq![','] + print_value(items.last())
    }
}

/// Members `"key":value` separated by commas.
pub open spec fn print_pairs(pairs: Seq<(Seq<char>, JsonValue)>) -> Seq<char>
    decreases pairs,
{
    if pairs.len() == 0 {
        Seq::empty()
    } else if pairs.len() == 1 {
        print_string(pairs[0].0) + seq![':'] + print_value(pairs[0].1)
    } else {
        print_pairs(pairs.drop_last()) + seq![','] + print_string(pairs.last().0) + seq![':']
            + print_value(pairs.last().1)
    }
}

fn push_string(out: &mut String, s: &str)
    ensures
        final(out)@ == old(out)@ + print_string(s@),
{
    push_char(out, '"');
    let e = escape(s);
    out.append(e.as_str());
    push_char(out, '"');
    assert(final(out)@ =~= old(out)@ + print_string(s@));
}

fn push_value(out: &mut String, v: &Json)
    ensures
        final(out)@ == old(out)@ + print_value(v.value()),
    decreases v, 1int,
{
    proof {
        reveal_strlit("null");
        reveal_strlit("true");
        reveal_strlit("false");
    }
    match v {
        Json::Null => out.append("null"),
        Json::Bool(b) => {
            if *b {
                out.append("true");
            } else {
                out.append("false");
            }
        },
        Json::Number(n) => {
            let t = n.text();
            out.append(t.as_str());
        },
        Json::String(s) => push_string(out, s.as_str()),
        Json::Array(items) => {
            proof {
                Json::lemma_array_value(*items);
            }
            let ghost start = out@;
            push_char(out, '[');
            push_items(out, items);
            push_char(out, ']');
            assert(out@ =~= start + print_value(v.value()));
        },
        Json::Object(pairs) => {
            proof {
                Json::lemma_object_value(*pairs);
            }
            let ghost start = out@;
            push_char(out, '{');
            push_pairs(out, pairs);
            push_char(out, '}');
            assert(out@ =~= start + print_value(v.value()));
        },
    }
}

fn push_items(out: &mut String, items: &Vec<Json>)
    ensures
        final(out)@ == old(out)@ + print_items(items_value(items@)),
    decreases items, 0int,
{
    let ghost iv = items_value(items@);
    let ghost start = out@;
    let mut i: usize = 0;
    assert(iv.take(0) =~= Seq::<JsonValue>::empty());
    assert(out@ =~= start + print_items(iv.take(0)));
    while i < items.len()
        invariant
            i <= items@.len(),
            iv == items_value(items@),
            out@ == start + print_items(iv.take(i as int)),
        decreases items@.len() - i,
    {
        if i > 0 {
            push_char(out, ',');
        }
        assert(decreases_to!(items => items@));
        assert(decreases_to!(items@ => items@[i as int]));
        push_value(out, &items[i]);
        assert(iv.take(i + 1).drop_last() =~= iv.take(i as int));
        assert(iv.take(i + 1).last() == items@[i as int].value());
        if i == 0 {
            assert(iv.take(1)[0] == items@[0].value());
        }
        assert(out@ =~= start + print_items(iv.take(i + 1)));
        i = i + 1;
    }
    assert(iv.take(items@.len() as int) =~= iv);
}

fn push_pairs(out: &mut String, pairs: &Vec<(String, Json)>)
    ensures
        final(out)@ == old(out)@ + print_pairs(pairs_value(pairs@)),
    decreases pairs, 0int,
{
    let ghost pv = pairs_value(pairs@);
    let ghost start = out@;
    let mut i: usize = 0;
    assert(pv.take(0) =~= Seq::<(Seq<char>, JsonValue)>::empty());
    assert(out@ =~= start + print_pairs(pv.take(0)));
    while i < pairs.len()
        invariant
            i <= pairs@.len(),
            pv == pairs_value(pairs@),
            out@ == start + print_pairs(pv.take(i as int)),
        decreases pairs@.len() - i,
    {
        if i > 0 {
            push_char(out, ',');
        }
        push_string(out, pairs[i].0.as_str());
        push_char(out, ':');
        assert(decreases_to!(pairs => pairs@));
        assert(decreases_to!(pairs@ => pairs@[i as int]));
        assert(decreases_to!(pairs@[i as int] => pairs@[i as int].1));
        push_value(out, &pairs[i].1);
        assert(pv.take(i + 1).drop_last() =~= pv.take(i as int));
        assert(pv.take(i + 1).last() == (pairs@[i as int].0@, pairs@[i as int].1.value()));
        if i == 0 {
            assert(pv.take(1)[0] == (pairs@[0].0@, pairs@[0].1.value()));
        }
        assert(out@ =~= start + print_pairs(pv.take(i + 1)));
        i = i + 1;
    }
    assert(pv.take(pairs@.len() as int) =~= pv);
}

/// The compact JSON text of a document, without white space; strings are
/// written with `escape`.
pub fn serialize(v: &Json) -> (r: String)
    ensures
        r@ == print_value(v.value()),
{
    let mut out = String::new();
    push_value(&mut out, v);
    assert(out@ =~= print_value(v.value()));
    out
}

} // verus!
