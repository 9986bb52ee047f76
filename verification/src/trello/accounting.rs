//! Nothing in an export goes missing without being counted.
use vstd::prelude::*;

use super::{
    card_step, empty_scan, find_list, lemma_find_list_bounds, scan_cards, scan_lists, spec_import,
    total_cards, BoardView, CardView, ListView, OpenListView, StatsView,
};
use crate::json::JsonValue;
use crate::position::{lemma_sort_len, sort_by_position, KeyTable, PosKey};

verus! {

/// How many entries the groups hold together.
pub open spec fn group_total(g: Seq<Seq<(PosKey, CardView)>>) -> nat
    decreases g.len(),
{
    if g.len() == 0 {
        0
    } else {
        group_total(g.drop_last()) + g.last().len()
    }
}

proof fn lemma_group_total_empty(g: Seq<Seq<(PosKey, CardView)>>)
    requires
        forall|i: int| 0 <= i < g.len() ==> (#[trigger] g[i]).len() == 0,
    ensures
        group_total(g) == 0,
    decreases g.len(),
{
    if g.len() > 0 {
        lemma_group_total_empty(g.drop_last());
    }
}

proof fn lemma_group_total_push(g: Seq<Seq<(PosKey, CardView)>>, i: int, e: (PosKey, CardView))
    requires
        0 <= i < g.len(),
    ensures
        group_total(g.update(i, g[i].push(e))) == group_total(g) + 1,
    decreases g.len(),
{
    let h = g.update(i, g[i].push(e));
    if i == g.len() - 1 {
        assert(h.drop_last() =~= g.drop_last());
    } else {
        lemma_group_total_push(g.drop_last(), i, e);
        assert(h.drop_last() =~= g.drop_last().update(i, g.drop_last()[i].push(e)));
    }
}

proof fn lemma_scan_lists_count(items: Seq<JsonValue>, n: int, table: KeyTable)
    requires
        0 <= n,
        scan_lists(items, n, table) is Ok,
    ensures
        scan_lists(items, n, table) matches Ok((open, closed)) && open.len() + closed == n,
    decreases n,
{
    if n > 0 {
        lemma_scan_lists_count(items, n - 1, table);
    }
}

proof fn lemma_scan_cards_count(
    items: Seq<JsonValue>,
    n: int,
    lists: Seq<(PosKey, OpenListView)>,
    table: KeyTable,
)
    requires
        0 <= n,
    ensures
        ({
            let scan = scan_cards(items, n, lists, table);
            &&& scan.grouped.len() == lists.len()
            &&& group_total(scan.grouped) + scan.closed + scan.orphaned == n
            &&& scan.warnings.len() == scan.orphaned
        }),
    decreases n,
{
    if n == 0 {
        lemma_group_total_empty(empty_scan(lists).grouped);
    } else {
        lemma_scan_cards_count(items, n - 1, lists, table);
        let prev = scan_cards(items, n - 1, lists, table);
        let item = items[n - 1];
        assert(scan_cards(items, n, lists, table) == card_step(prev, item, lists, table));
        match item.get("idList"@) {
            Some(f) => match f.as_str() {
                Some(id) => {
                    lemma_find_list_bounds(lists, id, 0);
                    match find_list(lists, id, 0) {
                        Some(i) => {
                            if !super::is_closed(item) {
                                lemma_group_total_push(
                                    prev.grouped,
                                    i,
                                    (
                                        super::position_of(item, table),
                                        CardView {
                                            name: super::str_or(item, "name"@, "Untitled Card"@),
                                            desc: super::str_or(item, "desc"@, ""@),
                                        },
                                    ),
                                );
                            }
                        },
                        None => {},
                    }
                },
                None => {},
            },
            None => {},
        }
    }
}

proof fn lemma_total_matches(xs: Seq<ListView>, g: Seq<Seq<(PosKey, CardView)>>)
    requires
        xs.len() == g.len(),
        forall|i: int| 0 <= i < xs.len() ==> (#[trigger] xs[i]).cards.len() == g[i].len(),
    ensures
        total_cards(xs) == group_total(g),
    decreases xs.len(),
{
    if xs.len() > 0 {
        lemma_total_matches(xs.drop_last(), g.drop_last());
    }
}

/// Every entry of an export is accounted for by a successful import: each
/// list entry is kept or counted as archived; each card entry is kept,
/// counted as archived, or counted as orphaned; and each orphaned card has
/// its warning.
pub proof fn import_accounts_for_entries(
    root: JsonValue,
    list_items: Seq<JsonValue>,
    card_items: Seq<JsonValue>,
    table: KeyTable,
    b: BoardView,
    st: StatsView,
)
    requires
        root.get("lists"@) == Some(JsonValue::Array(list_items)),
        root.get("cards"@) == Some(JsonValue::Array(card_items)),
        spec_import(root, table) == Ok::<(BoardView, StatsView), Seq<char>>((b, st)),
    ensures
        b.lists.len() + st.closed_lists_skipped == list_items.len(),
        total_cards(b.lists) + st.closed_cards_skipped + st.orphaned_cards_skipped
            == card_items.len(),
        st.warnings.len() == st.orphaned_cards_skipped,
{
    lemma_scan_lists_count(list_items, list_items.len() as int, table);
    let (open, closed) = scan_lists(list_items, list_items.len() as int, table)->Ok_0;
    let lists = sort_by_position(open);
    lemma_sort_len(open);
    let scan = scan_cards(card_items, card_items.len() as int, lists, table);
    lemma_scan_cards_count(card_items, card_items.len() as int, lists, table);
    assert forall|i: int| 0 <= i < b.lists.len() implies (#[trigger] b.lists[i]).cards.len()
        == scan.grouped[i].len() by {
        lemma_sort_len(scan.grouped[i]);
    }
    lemma_total_matches(b.lists, scan.grouped);
}

/// Whether an entry is archived: its `closed` member is the boolean true.
pub open spec fn archived(v: JsonValue) -> bool {
    v.get("closed"@) == Some(JsonValue::Bool(true))
}

/// How many of the entries are archived.
pub open spec fn count_archived(items: Seq<JsonValue>) -> nat
    decreases items.len(),
{
    if items.len() == 0 {
        0
    } else {
        count_archived(items.drop_last()) + if archived(items.last()) {
            1nat
        } else {
            0nat
        }
    }
}

proof fn lemma_closed_is_archived(v: JsonValue)
    ensures
        super::is_closed(v) == archived(v),
{
}

proof fn lemma_lists_archived(items: Seq<JsonValue>, n: int, table: KeyTable)
    requires
        0 <= n <= items.len(),
        scan_lists(items, n, table) is Ok,
    ensures
        scan_lists(items, n, table) matches Ok((_, closed)) && closed == count_archived(
            items.take(n),
        ),
    decreases n,
{
    if n == 0 {
        assert(items.take(0) =~= Seq::<JsonValue>::empty());
    } else {
        lemma_lists_archived(items, n - 1, table);
        assert(items.take(n).drop_last() =~= items.take(n - 1));
        lemma_closed_is_archived(items[n - 1]);
    }
}

proof fn lemma_cards_archived(
    items: Seq<JsonValue>,
    n: int,
    lists: Seq<(PosKey, OpenListView)>,
    table: KeyTable,
)
    requires
        0 <= n <= items.len(),
    ensures
        scan_cards(items, n, lists, table).closed == count_archived(items.take(n)),
    decreases n,
{
    if n == 0 {
        assert(items.take(0) =~= Seq::<JsonValue>::empty());
    } else {
        lemma_cards_archived(items, n - 1, lists, table);
        assert(items.take(n).drop_last() =~= items.take(n - 1));
        lemma_closed_is_archived(items[n - 1]);
        assert(scan_cards(items, n, lists, table) == card_step(
            scan_cards(items, n - 1, lists, table),
            items[n - 1],
            lists,
            table,
        ));
    }
}

/// A successful import counts as archived exactly the list entries and the
/// card entries whose `closed` member is the boolean true; an entry whose
/// `closed` is `false`, or missing, is not archived.
pub proof fn import_counts_archived_entries(
    root: JsonValue,
    list_items: Seq<JsonValue>,
    card_items: Seq<JsonValue>,
    table: KeyTable,
    b: BoardView,
    st: StatsView,
)
    requires
        root.get("lists"@) == Some(JsonValue::Array(list_items)),
        root.get("cards"@) == Some(JsonValue::Array(card_items)),
        spec_import(root, table) == Ok::<(BoardView, StatsView), Seq<char>>((b, st)),
    ensures
        st.closed_lists_skipped == count_archived(list_items),
        st.closed_cards_skipped == count_archived(card_items),
{
    lemma_lists_archived(list_items, list_items.len() as int, table);
    assert(list_items.take(list_items.len() as int) =~= list_items);
    let (open, closed) = scan_lists(list_items, list_items.len() as int, table)->Ok_0;
    let lists = sort_by_position(open);
    lemma_cards_archived(card_items, card_items.len() as int, lists, table);
    assert(card_items.take(card_items.len() as int) =~= card_items);
}

} // verus!
