//! What `export` writes, `import` reads back as the same board.
use vstd::prelude::*;

use super::{
    card_entries, card_entries_of, card_entry, card_step, empty_scan, export_value, find_list,
    is_closed, list_entries, list_entry, list_id, position_of, scan_cards, scan_cards_from,
    scan_lists, spec_import, str_or, BoardView, CardScan, CardView, ListView, OpenListView,
    StatsView,
};
use crate::json::emit::print_value;
use crate::json::grammar::spec_parse;
use crate::json::round_trip::{print_then_parse, printable};
use crate::json::{lookup_from, JsonValue};
use crate::position::{first_after, pos_order, sort_by_position, zero_key, KeyTable, PosKey};
use crate::text::{decimal, digit_char};
use vstd::utf8::encode_utf8;

verus! {

proof fn lemma_decimal_shape(n: nat)
    ensures
        n < 10 ==> decimal(n).len() == 1,
        n >= 10 ==> decimal(n).len() >= 2,
        decimal(n).len() >= 1,
    decreases n,
{
    if n >= 10 {
        lemma_decimal_shape(n / 10);
    }
}

proof fn lemma_digit_char_injective(a: nat, b: nat)
    requires
        a < 10,
        b < 10,
        digit_char(a) == digit_char(b),
    ensures
        a == b,
{
    assert(digit_char(a) as u32 == a + 0x30);
    assert(digit_char(b) as u32 == b + 0x30);
}

/// Different numbers have different decimal forms.
pub proof fn lemma_decimal_injective(a: nat, b: nat)
    requires
        decimal(a) == decimal(b),
    ensures
        a == b,
    decreases a,
{
    lemma_decimal_shape(a);
    lemma_decimal_shape(b);
    if a < 10 && b < 10 {
        assert(decimal(a)[0] == digit_char(a));
        assert(decimal(b)[0] == digit_char(b));
        lemma_digit_char_injective(a, b);
    } else if a >= 10 && b >= 10 {
        assert(decimal(a).last() == digit_char(a % 10));
        assert(decimal(b).last() == digit_char(b % 10));
        lemma_digit_char_injective(a % 10, b % 10);
        assert(decimal(a).drop_last() == decimal(a / 10));
        assert(decimal(b).drop_last() == decimal(b / 10));
        lemma_decimal_injective(a / 10, b / 10);
    }
}

proof fn lemma_list_id_injective(a: nat, b: nat)
    requires
        list_id(a) == list_id(b),
    ensures
        a == b,
{
    reveal_strlit("list-");
    let p = "list-"@;
    assert(list_id(a).subrange(5, list_id(a).len() as int) =~= decimal(a + 1));
    assert(list_id(b).subrange(5, list_id(b).len() as int) =~= decimal(b + 1));
    lemma_decimal_injective(a + 1, b + 1);
}

proof fn lemma_keys_distinct()
    ensures
        "name"@ != "lists"@,
        "name"@ != "cards"@,
        "lists"@ != "cards"@,
        "id"@ != "closed"@,
        "name"@ != "closed"@,
        "desc"@ != "closed"@,
        "idList"@ != "closed"@,
        "id"@ != "name"@,
        "id"@ != "idList"@,
        "name"@ != "idList"@,
        "desc"@ != "idList"@,
        "id"@ != "desc"@,
        "name"@ != "desc"@,
        "id"@ != "pos"@,
        "name"@ != "pos"@,
        "desc"@ != "pos"@,
        "idList"@ != "pos"@,
{
    reveal_strlit("name");
    reveal_strlit("lists");
    reveal_strlit("cards");
    reveal_strlit("id");
    reveal_strlit("closed");
    reveal_strlit("desc");
    reveal_strlit("idList");
    reveal_strlit("pos");
    assert(("id"@).len() == 2);
    assert(("idList"@).len() == 6);
    assert(("pos"@).len() == 3);
    assert(("lists"@)[0] != ("cards"@)[0]);
    assert(("idList"@)[0] != ("closed"@)[0]);
    assert(("name"@)[0] != ("desc"@)[0]);
}

/// The open lists `import` keeps from an export of `ls`.
pub open spec fn exported_open(ls: Seq<ListView>, t: KeyTable) -> Seq<(PosKey, OpenListView)> {
    Seq::new(
        ls.len(),
        |k: int| (zero_key(t), OpenListView { id: list_id(k as nat), name: ls[k].name }),
    )
}

proof fn lemma_list_entry_fields(k: nat, l: ListView, t: KeyTable)
    ensures
        !is_closed(list_entry(k, l)),
        list_entry(k, l).get("id"@) == Some(JsonValue::Str(list_id(k))),
        str_or(list_entry(k, l), "name"@, "Untitled List"@) == l.name,
        position_of(list_entry(k, l), t) == zero_key(t),
{
    lemma_keys_distinct();
    reveal_with_fuel(lookup_from, 3);
}

proof fn lemma_scan_lists_export(ls: Seq<ListView>, n: int, t: KeyTable)
    requires
        0 <= n <= ls.len(),
    ensures
        scan_lists(list_entries(ls), n, t) == Ok::<(Seq<(PosKey, OpenListView)>, nat), Seq<char>>(
            (exported_open(ls, t).take(n), 0),
        ),
    decreases n,
{
    if n > 0 {
        lemma_scan_lists_export(ls, n - 1, t);
        lemma_list_entry_fields((n - 1) as nat, ls[n - 1], t);
        assert(list_entries(ls)[n - 1] == list_entry((n - 1) as nat, ls[n - 1]));
        assert(exported_open(ls, t).take(n) =~= exported_open(ls, t).take(n - 1).push(
            exported_open(ls, t)[n - 1],
        ));
    } else {
        assert(exported_open(ls, t).take(0) =~= Seq::<(PosKey, OpenListView)>::empty());
    }
}

/// Entries that all sit at position zero stay in their order.
pub proof fn lemma_sort_all_zero<T>(s: Seq<(PosKey, T)>, t: KeyTable)
    requires
        forall|i: int| 0 <= i < s.len() ==> (#[trigger] s[i]).0 == zero_key(t),
    ensures
        sort_by_position(s) == s,
    decreases s.len(),
{
    if s.len() > 0 {
        let prev = s.drop_last();
        lemma_sort_all_zero(prev, t);
        lemma_first_after_all_zero(prev, 0, t);
        assert(prev.insert(prev.len() as int, s.last()) =~= s);
    }
}

proof fn lemma_first_after_all_zero<T>(s: Seq<(PosKey, T)>, i: int, t: KeyTable)
    requires
        0 <= i <= s.len(),
        forall|j: int| 0 <= j < s.len() ==> (#[trigger] s[j]).0 == zero_key(t),
    ensures
        first_after(s, zero_key(t), i) == s.len(),
    decreases s.len() - i,
{
    if i < s.len() {
        assert(s[i].0 == zero_key(t));
        assert(pos_order(zero_key(t), zero_key(t)) == 0);
        lemma_first_after_all_zero(s, i + 1, t);
    }
}

proof fn lemma_find_exported(ls: Seq<ListView>, k: nat, i: int, t: KeyTable)
    requires
        k < ls.len(),
        0 <= i <= k,
    ensures
        find_list(exported_open(ls, t), list_id(k), i) == Some(k as int),
    decreases k - i,
{
    if i < k {
        if list_id(i as nat) == list_id(k) {
            lemma_list_id_injective(i as nat, k);
        }
        lemma_find_exported(ls, k, i + 1, t);
    }
}

pub open spec fn zero_cards(cs: Seq<CardView>, t: KeyTable) -> Seq<(PosKey, CardView)> {
    Seq::new(cs.len(), |j: int| (zero_key(t), cs[j]))
}

/// The scan after the card entries of the first `k` lists, and `j` cards of list `k`.
pub open spec fn scan_after(ls: Seq<ListView>, k: int, j: int, t: KeyTable) -> CardScan {
    CardScan {
        grouped: Seq::new(
            ls.len(),
            |i: int|
                if i < k {
                    zero_cards(ls[i].cards, t)
                } else if i == k {
                    zero_cards(ls[i].cards.take(j), t)
                } else {
                    Seq::empty()
                },
        ),
        closed: 0,
        orphaned: 0,
        warnings: Seq::empty(),
    }
}

proof fn lemma_scan_concat(
    init: CardScan,
    a: Seq<JsonValue>,
    b: Seq<JsonValue>,
    m: int,
    lists: Seq<(PosKey, OpenListView)>,
    t: KeyTable,
)
    requires
        0 <= m <= b.len(),
    ensures
        scan_cards_from(init, a + b, a.len() + m, lists, t) == scan_cards_from(
            scan_cards_from(init, a, a.len() as int, lists, t),
            b,
            m,
            lists,
            t,
        ),
    decreases m,
{
    if m > 0 {
        lemma_scan_concat(init, a, b, m - 1, lists, t);
        assert((a + b)[a.len() + m - 1] == b[m - 1]);
    } else {
        lemma_scan_prefix(init, a + b, a, a.len() as int, lists, t);
    }
}

proof fn lemma_scan_prefix(
    init: CardScan,
    x: Seq<JsonValue>,
    y: Seq<JsonValue>,
    n: int,
    lists: Seq<(PosKey, OpenListView)>,
    t: KeyTable,
)
    requires
        0 <= n <= x.len(),
        n <= y.len(),
        forall|i: int| 0 <= i < n ==> x[i] == y[i],
    ensures
        scan_cards_from(init, x, n, lists, t) == scan_cards_from(init, y, n, lists, t),
    decreases n,
{
    if n > 0 {
        lemma_scan_prefix(init, x, y, n - 1, lists, t);
    }
}

proof fn lemma_card_entry_step(ls: Seq<ListView>, k: int, j: int, t: KeyTable)
    requires
        0 <= k < ls.len(),
        0 <= j < ls[k].cards.len(),
    ensures
        card_step(
            scan_after(ls, k, j, t),
            card_entry(k as nat, j as nat, ls[k].cards[j]),
            exported_open(ls, t),
            t,
        ) =~~= scan_after(ls, k, j + 1, t),
{
    let c = ls[k].cards[j];
    let e = card_entry(k as nat, j as nat, c);
    lemma_keys_distinct();
    reveal_with_fuel(lookup_from, 5);
    assert(!is_closed(e));
    assert(str_or(e, "name"@, "Untitled Card"@) == c.name);
    assert(e.get("idList"@) == Some(JsonValue::Str(list_id(k as nat))));
    lemma_find_exported(ls, k as nat, 0, t);
    assert(str_or(e, "desc"@, ""@) == c.desc);
    assert(position_of(e, t) == zero_key(t));
    let prev = scan_after(ls, k, j, t);
    assert(zero_cards(ls[k].cards.take(j + 1), t) =~= zero_cards(ls[k].cards.take(j), t).push(
        (zero_key(t), CardView { name: c.name, desc: c.desc }),
    ));
}

proof fn lemma_scan_list_cards(ls: Seq<ListView>, k: int, j: int, t: KeyTable)
    requires
        0 <= k < ls.len(),
        0 <= j <= ls[k].cards.len(),
    ensures
        scan_cards_from(
            scan_after(ls, k, 0, t),
            card_entries_of(k as nat, ls[k]),
            j,
            exported_open(ls, t),
            t,
        ) == scan_after(ls, k, j, t),
    decreases j,
{
    if j > 0 {
        lemma_scan_list_cards(ls, k, j - 1, t);
        assert(card_entries_of(k as nat, ls[k])[j - 1] == card_entry(
            k as nat,
            (j - 1) as nat,
            ls[k].cards[j - 1],
        ));
        lemma_card_entry_step(ls, k, j - 1, t);
        assert(card_step(
            scan_after(ls, k, j - 1, t),
            card_entry(k as nat, (j - 1) as nat, ls[k].cards[j - 1]),
            exported_open(ls, t),
            t,
        ) == scan_after(ls, k, j, t));
    }
}

proof fn lemma_scan_all_cards(ls: Seq<ListView>, k: int, t: KeyTable)
    requires
        0 <= k <= ls.len(),
    ensures
        scan_cards_from(
            empty_scan(exported_open(ls, t)),
            card_entries(ls.take(k)),
            card_entries(ls.take(k)).len() as int,
            exported_open(ls, t),
            t,
        ) == scan_after(ls, k, 0, t),
    decreases k,
{
    if k == 0 {
        assert(ls.take(0) =~= Seq::<ListView>::empty());
        assert(empty_scan(exported_open(ls, t)) =~~= scan_after(ls, 0, 0, t)) by {
            assert forall|i: int| 0 <= i < ls.len() implies zero_cards(ls[i].cards.take(0), t)
                =~= Seq::<(PosKey, CardView)>::empty() by {}
        }
    } else {
        lemma_scan_all_cards(ls, k - 1, t);
        let before = card_entries(ls.take(k - 1));
        let mine = card_entries_of((k - 1) as nat, ls[k - 1]);
        assert(ls.take(k).drop_last() =~= ls.take(k - 1));
        assert(ls.take(k).last() == ls[k - 1]);
        assert(card_entries(ls.take(k)) == before + mine);
        lemma_scan_concat(
            empty_scan(exported_open(ls, t)),
            before,
            mine,
            mine.len() as int,
            exported_open(ls, t),
            t,
        );
        lemma_scan_list_cards(ls, k - 1, ls[k - 1].cards.len() as int, t);
        assert(ls[k - 1].cards.take(ls[k - 1].cards.len() as int) =~= ls[k - 1].cards);
        assert(scan_after(ls, k - 1, ls[k - 1].cards.len() as int, t) =~~= scan_after(ls, k, 0, t)) by {
            assert forall|i: int| 0 <= i < ls.len() implies #[trigger] scan_after(
                ls,
                k - 1,
                ls[k - 1].cards.len() as int,
                t,
            ).grouped[i] =~= scan_after(ls, k, 0, t).grouped[i] by {
                if i == k {
                    assert(zero_cards(ls[i].cards.take(0), t) =~= Seq::<(PosKey, CardView)>::empty());
                }
            }
        }
    }
}

/// What `export` writes `import` reads back, whatever the order keys: the
/// same board, with nothing skipped and no warning.
pub proof fn export_then_import(b: BoardView, t: KeyTable)
    ensures
        spec_import(export_value(b), t) == Ok::<(BoardView, StatsView), Seq<char>>(
            (
                b,
                StatsView {
                    closed_lists_skipped: 0,
                    closed_cards_skipped: 0,
                    orphaned_cards_skipped: 0,
                    warnings: Seq::empty(),
                },
            ),
        ),
{
    let ls = b.lists;
    let root = export_value(b);
    lemma_keys_distinct();
    reveal_with_fuel(lookup_from, 4);
    assert(root.get("lists"@) == Some(JsonValue::Array(list_entries(ls))));
    assert(root.get("cards"@) == Some(JsonValue::Array(card_entries(ls))));
    assert(str_or(root, "name"@, "Untitled Board"@) == b.name);
    lemma_scan_lists_export(ls, ls.len() as int, t);
    assert(exported_open(ls, t).take(ls.len() as int) =~= exported_open(ls, t));
    let open = exported_open(ls, t);
    lemma_sort_all_zero(open, t);
    lemma_scan_all_cards(ls, ls.len() as int, t);
    assert(ls.take(ls.len() as int) =~= ls);
    let scan = scan_cards(card_entries(ls), card_entries(ls).len() as int, open, t);
    assert(scan == scan_after(ls, ls.len() as int, 0, t));
    let lists = Seq::new(
        open.len(),
        |i: int|
            ListView {
                name: open[i].1.name,
                cards: sort_by_position(scan.grouped[i]).map_values(|e: (PosKey, CardView)| e.1),
            },
    );
    assert forall|i: int| 0 <= i < ls.len() implies #[trigger] lists[i] =~~= ls[i] by {
        assert(scan.grouped[i] == zero_cards(ls[i].cards, t));
        lemma_sort_all_zero(zero_cards(ls[i].cards, t), t);
        assert(zero_cards(ls[i].cards, t).map_values(|e: (PosKey, CardView)| e.1) =~= ls[i].cards);
    }
    assert(lists =~~= ls);
    assert(scan.warnings =~= Seq::<Seq<char>>::empty());
}

proof fn lemma_card_entries_printable(ls: Seq<ListView>)
    ensures
        forall|i: int|
            0 <= i < card_entries(ls).len() ==> printable(#[trigger] card_entries(ls)[i]),
    decreases ls.len(),
{
    if ls.len() > 0 {
        let before = card_entries(ls.drop_last());
        let k = (ls.len() - 1) as nat;
        let mine = card_entries_of(k, ls.last());
        lemma_card_entries_printable(ls.drop_last());
        assert forall|i: int| 0 <= i < card_entries(ls).len() implies printable(
            #[trigger] card_entries(ls)[i],
        ) by {
            if i >= before.len() {
                let j = i - before.len();
                assert(card_entries(ls)[i] == mine[j]);
                let e = card_entry(k, j as nat, ls.last().cards[j]);
                assert(mine[j] == e);
                if let JsonValue::Object(pairs) = e {
                    assert forall|m: int| 0 <= m < pairs.len() implies printable(
                        #[trigger] pairs[m].1,
                    ) by {
                        assert(pairs[m].1 is Str);
                    }
                }
            } else {
                assert(card_entries(ls)[i] == before[i]);
            }
        }
    }
}

proof fn lemma_export_printable(b: BoardView)
    ensures
        printable(export_value(b)),
{
    let lists = list_entries(b.lists);
    let cards = card_entries(b.lists);
    assert forall|i: int| 0 <= i < lists.len() implies printable(#[trigger] lists[i]) by {
        let e = list_entry(i as nat, b.lists[i]);
        assert(lists[i] == e);
        if let JsonValue::Object(pairs) = e {
            assert forall|m: int| 0 <= m < pairs.len() implies printable(#[trigger] pairs[m].1) by {
                assert(pairs[m].1 is Str);
            }
        }
    }
    lemma_card_entries_printable(b.lists);
    assert(printable(JsonValue::Array(lists)));
    assert(printable(JsonValue::Array(cards)));
    if let JsonValue::Object(pairs) = export_value(b) {
        assert forall|m: int| 0 <= m < pairs.len() implies printable(#[trigger] pairs[m].1) by {
            if m == 0 {
                assert(pairs[m].1 is Str);
            }
        }
    }
}

/// The text `export` writes, read by the JSON reader and imported with any
/// order keys, gives back the same board, with nothing skipped and no
/// warning.
pub proof fn export_text_then_import(b: BoardView, t: KeyTable)
    ensures
        spec_parse(encode_utf8(print_value(export_value(b)))) == Ok::<
            JsonValue,
            (Seq<char>, int),
        >(export_value(b)),
        spec_import(export_value(b), t) == Ok::<(BoardView, StatsView), Seq<char>>(
            (
                b,
                StatsView {
                    closed_lists_skipped: 0,
                    closed_cards_skipped: 0,
                    orphaned_cards_skipped: 0,
                    warnings: Seq::empty(),
                },
            ),
        ),
{
    lemma_export_printable(b);
    print_then_parse(export_value(b));
    export_then_import(b, t);
}

} // verus!
