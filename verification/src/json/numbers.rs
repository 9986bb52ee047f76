//! The number tokens of a document, in document order.
use vstd::prelude::*;

use super::{items_value, pairs_value, Json, JsonValue};

verus! {

/// The number tokens of a value, in document order.
pub open spec fn numbers_of(v: JsonValue) -> Seq<Seq<u8>>
    decreases v, 0int,
{
    match v {
        JsonValue::Number(t) => seq![t],
        JsonValue::Array(items) => numbers_in_items(items, items.len() as int),
        JsonValue::Object(pairs) => numbers_in_pairs(pairs, pairs.len() as int),
        _ => Seq::empty(),
    }
}

/// The number tokens of the first `n` elements.
pub open spec fn numbers_in_items(items: Seq<JsonValue>, n: int) -> Seq<Seq<u8>>
    decreases items, n,
{
    if n <= 0 || n > items.len() {
        Seq::empty()
    } else {
        numbers_in_items(items, n - 1) + numbers_of(items[n - 1])
    }
}

/// The number tokens of the values of the first `n` members.
pub open spec fn numbers_in_pairs(pairs: Seq<(Seq<char>, JsonValue)>, n: int) -> Seq<Seq<u8>>
    decreases pairs, n,
{
    if n <= 0 || n > pairs.len() {
        Seq::empty()
    } else {
        proof {
            assert(decreases_to!(pairs => pairs[n - 1]));
        }
        numbers_in_pairs(pairs, n - 1) + numbers_of(pairs[n - 1].1)
    }
}

pub open spec fn tokens_view(v: Seq<Vec<u8>>) -> Seq<Seq<u8>> {
    v.map_values(|b: Vec<u8>| b@)
}

fn push_numbers(v: &Json, out: &mut Vec<Vec<u8>>)
    ensures
        tokens_view(final(out)@) == tokens_view(old(out)@) + numbers_of(v.value()),
    decreases v, 1int,
{
    let ghost start = tokens_view(out@);
    match v {
        Json::Number(n) => {
            out.push(vstd::slice::slice_to_vec(n.as_bytes()));
            assert(tokens_view(out@) =~= start + numbers_of(v.value()));
        },
        Json::Array(items) => {
            proof {
                Json::lemma_array_value(*items);
            }
            push_item_numbers(items, out);
        },
        Json::Object(pairs) => {
            proof {
                Json::lemma_object_value(*pairs);
            }
            push_member_numbers(pairs, out);
        },
        _ => {
            assert(tokens_view(out@) =~= start + numbers_of(v.value()));
        },
    }
}

fn push_item_numbers(items: &Vec<Json>, out: &mut Vec<Vec<u8>>)
    ensures
        tokens_view(final(out)@) == tokens_view(old(out)@) + numbers_in_items(
            items_value(items@),
            items@.len() as int,
        ),
    decreases items, 0int,
{
    let ghost start = tokens_view(out@);
    let ghost iv = items_value(items@);
    let mut i: usize = 0;
    assert(tokens_view(out@) =~= start + numbers_in_items(iv, 0));
    while i < items.len()
        invariant
            i <= items@.len(),
            iv == items_value(items@),
            tokens_view(out@) == start + numbers_in_items(iv, i as int),
        decreases items@.len() - i,
    {
        assert(decreases_to!(items => items@));
        assert(decreases_to!(items@ => items@[i as int]));
        push_numbers(&items[i], out);
        assert(iv[i as int] == items@[i as int].value());
        assert(tokens_view(out@) =~= start + numbers_in_items(iv, i + 1));
        i = i + 1;
    }
}

fn push_member_numbers(pairs: &Vec<(String, Json)>, out: &mut Vec<Vec<u8>>)
    ensures
        tokens_view(final(out)@) == tokens_view(old(out)@) + numbers_in_pairs(
            pairs_value(pairs@),
            pairs@.len() as int,
        ),
    decreases pairs, 0int,
{
    let ghost start = tokens_view(out@);
    let ghost pv = pairs_value(pairs@);
    let mut i: usize = 0;
    assert(tokens_view(out@) =~= start + numbers_in_pairs(pv, 0));
    while i < pairs.len()
        invariant
            i <= pairs@.len(),
            pv == pairs_value(pairs@),
            tokens_view(out@) == start + numbers_in_pairs(pv, i as int),
        decreases pairs@.len() - i,
    {
        assert(decreases_to!(pairs => pairs@));
        assert(decreases_to!(pairs@ => pairs@[i as int]));
        assert(decreases_to!(pairs@[i as int] => pairs@[i as int].1));
        push_numbers(&pairs[i].1, out);
        assert(pv[i as int] == (pairs@[i as int].0@, pairs@[i as int].1.value()));
        assert(tokens_view(out@) =~= start + numbers_in_pairs(pv, i + 1));
        i = i + 1;
    }
}

/// The number tokens of a document, in document order: what a program that
/// reads numbers as floats needs to read.
pub fn number_tokens(v: &Json) -> (r: Vec<Vec<u8>>)
    ensures
        tokens_view(r@) == numbers_of(v.value()),
{
    let mut out: Vec<Vec<u8>> = Vec::new();
    assert(tokens_view(out@) =~= Seq::<Seq<u8>>::empty());
    push_numbers(v, &mut out);
    assert(tokens_view(out@) =~= numbers_of(v.value()));
    out
}

} // verus!
