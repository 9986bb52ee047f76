//! Pulls a board's lists and cards out of a parsed Trello export, dropping
//! archived lists and cards and cards whose list id no longer resolves.
use vstd::prelude::*;
use vstd::string::*;

use crate::json::{items_value, pairs_value, serialize, Json, JsonValue};
use crate::json::emit::print_value;
use crate::position::{
    keyed, lemma_sort_len, lemma_sort_map, map_entries, sort_by_position, sort_by_position_exec,
    token_key, zero_key, KeyTable, PosKey, Position, PositionKeys,
};
use crate::text::{decimal, str_eq, usize_to_decimal};

pub mod accounting;
pub mod round_trip;


verus! {

#[verifier::ext_equal]
pub struct CardView {
    pub name: Seq<char>,
    pub desc: Seq<char>,
}

#[verifier::ext_equal]
pub struct ListView {
    pub name: Seq<char>,
    pub cards: Seq<CardView>,
}

#[verifier::ext_equal]
pub struct BoardView {
    pub name: Seq<char>,
    pub lists: Seq<ListView>,
}

pub struct StatsView {
    pub closed_lists_skipped: nat,
    pub closed_cards_skipped: nat,
    pub orphaned_cards_skipped: nat,
    pub warnings: Seq<Seq<char>>,
}

pub struct Card {
    pub name: String,
    pub desc: String,
}

pub struct List {
    pub name: String,
    pub cards: Vec<Card>,
}

pub struct Board {
    pub name: String,
    pub lists: Vec<List>,
}

/// What an import skipped, and why.
pub struct ImportStats {
    pub closed_lists_skipped: usize,
    pub closed_cards_skipped: usize,
    pub orphaned_cards_skipped: usize,
    pub warnings: Vec<String>,
}

impl View for Card {
    type V = CardView;

    open spec fn view(&self) -> CardView {
        CardView { name: self.name@, desc: self.desc@ }
    }
}

impl View for List {
    type V = ListView;

    open spec fn view(&self) -> ListView {
        ListView { name: self.name@, cards: self.cards@.map_values(|c: Card| c@) }
    }
}

impl View for Board {
    type V = BoardView;

    open spec fn view(&self) -> BoardView {
        BoardView { name: self.name@, lists: self.lists@.map_values(|l: List| l@) }
    }
}

impl View for ImportStats {
    type V = StatsView;

    open spec fn view(&self) -> StatsView {
        StatsView {
            closed_lists_skipped: self.closed_lists_skipped as nat,
            closed_cards_skipped: self.closed_cards_skipped as nat,
            orphaned_cards_skipped: self.orphaned_cards_skipped as nat,
            warnings: self.warnings@.map_values(|w: String| w@),
        }
    }
}

impl Default for ImportStats {
    fn default() -> (r: ImportStats)
        ensures
            r@ == (StatsView {
                closed_lists_skipped: 0,
                closed_cards_skipped: 0,
                orphaned_cards_skipped: 0,
                warnings: Seq::empty(),
            }),
    {
        let r = ImportStats {
            closed_lists_skipped: 0,
            closed_cards_skipped: 0,
            orphaned_cards_skipped: 0,
            warnings: Vec::new(),
        };
        assert(r@.warnings =~= Seq::<Seq<char>>::empty());
        r
    }
}

/// How many cards the lists hold together.
pub open spec fn total_cards(lists: Seq<ListView>) -> nat
    decreases lists.len(),
{
    if lists.len() == 0 {
        0
    } else {
        total_cards(lists.drop_last()) + lists.last().cards.len()
    }
}

/// The text of field `key`, or `default` where it is missing or not text.
pub open spec fn str_or(v: JsonValue, key: Seq<char>, default: Seq<char>) -> Seq<char> {
    match v.get(key) {
        Some(f) => match f.as_str() {
            Some(s) => s,
            None => default,
        },
        None => default,
    }
}

/// Whether an entry is archived: its `closed` field is `true`.
pub open spec fn is_closed(v: JsonValue) -> bool {
    match v.get("closed"@) {
        Some(f) => f.as_bool() == Some(true),
        None => false,
    }
}

/// The `pos` of an entry; zero where it is missing or not a number.
pub open spec fn position_of(v: JsonValue, table: KeyTable) -> PosKey {
    match v.get("pos"@) {
        Some(f) => match f.as_number() {
            Some(t) => token_key(table, t),
            None => zero_key(table),
        },
        None => zero_key(table),
    }
}

/// An open list as the import keeps it: its id and its name.
pub struct OpenListView {
    pub id: Seq<char>,
    pub name: Seq<char>,
}

/// The open lists among the first `n` list entries with their positions,
/// and how many were archived; or the error for an open list without id.
pub open spec fn scan_lists(items: Seq<JsonValue>, n: int, table: KeyTable) -> Result<
    (Seq<(PosKey, OpenListView)>, nat),
    Seq<char>,
>
    decreases n,
{
    if n <= 0 {
        Ok((Seq::empty(), 0))
    } else {
        match scan_lists(items, n - 1, table) {
            Err(e) => Err(e),
            Ok((open, closed)) => {
                let item = items[n - 1];
                if is_closed(item) {
                    Ok((open, closed + 1))
                } else {
                    match item.get("id"@) {
                        Some(f) => match f.as_str() {
                            Some(id) => Ok(
                                (
                                    open.push(
                                        (
                                            position_of(item, table),
                                            OpenListView {
                                                id,
                                                name: str_or(item, "name"@, "Untitled List"@),
                                            },
                                        ),
                                    ),
                                    closed,
                                ),
                            ),
                            None => Err("a list entry is missing \"id\""@),
                        },
                        None => Err("a list entry is missing \"id\""@),
                    }
                }
            },
        }
    }
}

/// Index of the first list from `i` on with id `id`.
pub open spec fn find_list(lists: Seq<(PosKey, OpenListView)>, id: Seq<char>, i: int) -> Option<
    int,
>
    decreases lists.len() - i,
{
    if !(0 <= i < lists.len()) {
        None
    } else if lists[i].1.id == id {
        Some(i)
    } else {
        find_list(lists, id, i + 1)
    }
}

pub open spec fn no_list_warning(name: Seq<char>) -> Seq<char> {
    "card \""@ + name + "\" has no idList; skipped"@
}

pub open spec fn missing_list_warning(name: Seq<char>, id: Seq<char>) -> Seq<char> {
    "card \""@ + name + "\" references list id \""@ + id
        + "\" which is archived or missing; skipped"@
}

/// Cards grouped by list, with what was skipped.
#[verifier::ext_equal]
pub struct CardScan {
    pub grouped: Seq<Seq<(PosKey, CardView)>>,
    pub closed: nat,
    pub orphaned: nat,
    pub warnings: Seq<Seq<char>>,
}

/// The scan before any card entry: an empty group for each list.
pub open spec fn empty_scan(lists: Seq<(PosKey, OpenListView)>) -> CardScan {
    CardScan {
        grouped: Seq::new(lists.len(), |i: int| Seq::empty()),
        closed: 0,
        orphaned: 0,
        warnings: Seq::empty(),
    }
}

/// One card entry sorted into the (sorted) open `lists`.
pub open spec fn card_step(
    prev: CardScan,
    item: JsonValue,
    lists: Seq<(PosKey, OpenListView)>,
    table: KeyTable,
) -> CardScan {
    if is_closed(item) {
        CardScan { closed: prev.closed + 1, ..prev }
    } else {
        let name = str_or(item, "name"@, "Untitled Card"@);
        let id = match item.get("idList"@) {
            Some(f) => f.as_str(),
            None => None,
        };
        match id {
            None => CardScan {
                orphaned: prev.orphaned + 1,
                warnings: prev.warnings.push(no_list_warning(name)),
                ..prev
            },
            Some(id) => match find_list(lists, id, 0) {
                None => CardScan {
                    orphaned: prev.orphaned + 1,
                    warnings: prev.warnings.push(missing_list_warning(name, id)),
                    ..prev
                },
                Some(i) => {
                    let card = CardView { name, desc: str_or(item, "desc"@, ""@) };
                    CardScan {
                        grouped: prev.grouped.update(
                            i,
                            prev.grouped[i].push((position_of(item, table), card)),
                        ),
                        ..prev
                    }
                },
            },
        }
    }
}

/// The first `n` card entries, scanned on top of `init`.
pub open spec fn scan_cards_from(
    init: CardScan,
    items: Seq<JsonValue>,
    n: int,
    lists: Seq<(PosKey, OpenListView)>,
    table: KeyTable,
) -> CardScan
    decreases n,
{
    if n <= 0 {
        init
    } else {
        card_step(scan_cards_from(init, items, n - 1, lists, table), items[n - 1], lists, table)
    }
}

/// The first `n` card entries sorted into the (sorted) open `lists`.
pub open spec fn scan_cards(
    items: Seq<JsonValue>,
    n: int,
    lists: Seq<(PosKey, OpenListView)>,
    table: KeyTable,
) -> CardScan {
    scan_cards_from(empty_scan(lists), items, n, lists, table)
}

/// What `import` makes of an export: the board and what was skipped, or
/// why the export is not a board.
pub open spec fn spec_import(root: JsonValue, table: KeyTable) -> Result<
    (BoardView, StatsView),
    Seq<char>,
> {
    let name = str_or(root, "name"@, "Untitled Board"@);
    match root.get("lists"@) {
        Some(lv) => match lv.as_array() {
            Some(list_items) => match scan_lists(list_items, list_items.len() as int, table) {
                Err(e) => Err(e),
                Ok((open, closed_lists)) => {
                    let lists = sort_by_position(open);
                    match root.get("cards"@) {
                        Some(cv) => match cv.as_array() {
                            Some(card_items) => {
                                let scan = scan_cards(card_items, card_items.len() as int, lists, table);
                                Ok(
                                    (
                                        BoardView {
                                            name,
                                            lists: Seq::new(
                                                lists.len(),
                                                |i: int|
                                                    ListView {
                                                        name: lists[i].1.name,
                                                        cards: sort_by_position(
                                                            scan.grouped[i],
                                                        ).map_values(|e: (PosKey, CardView)| e.1),
                                                    },
                                            ),
                                        },
                                        StatsView {
                                            closed_lists_skipped: closed_lists,
                                            closed_cards_skipped: scan.closed,
                                            orphaned_cards_skipped: scan.orphaned,
                                            warnings: scan.warnings,
                                        },
                                    ),
                                )
                            },
                            None => Err("missing a \"cards\" array"@),
                        },
                        None => Err("missing a \"cards\" array"@),
                    }
                },
            },
            None => Err("missing a \"lists\" array"@),
        },
        None => Err("missing a \"lists\" array"@),
    }
}

pub proof fn lemma_scan_lists_err(items: Seq<JsonValue>, m: int, n: int, table: KeyTable)
    requires
        m <= n,
        scan_lists(items, m, table) is Err,
    ensures
        scan_lists(items, n, table) == scan_lists(items, m, table),
    decreases n - m,
{
    if m < n {
        lemma_scan_lists_err(items, m, n - 1, table);
    }
}

/// An open list as the import holds it.
pub struct OpenList {
    pub id: String,
    pub name: String,
}

impl View for OpenList {
    type V = OpenListView;

    open spec fn view(&self) -> OpenListView {
        OpenListView { id: self.id@, name: self.name@ }
    }
}

pub open spec fn list_view() -> spec_fn(OpenList) -> OpenListView {
    |o: OpenList| o@
}

pub open spec fn card_view() -> spec_fn(Card) -> CardView {
    |c: Card| c@
}

pub open spec fn lists_view(v: Seq<(Position, OpenList)>) -> Seq<(PosKey, OpenListView)> {
    map_entries(keyed(v), list_view())
}

pub open spec fn cards_view(v: Seq<(Position, Card)>) -> Seq<(PosKey, CardView)> {
    map_entries(keyed(v), card_view())
}

pub open spec fn groups_view(g: Seq<Vec<(Position, Card)>>) -> Seq<Seq<(PosKey, CardView)>> {
    g.map_values(|v: Vec<(Position, Card)>| cards_view(v@))
}

/// The text of field `key` of `item`, or `default`.
fn str_field_or(item: &Json, key: &str, default: &str) -> (r: String)
    ensures
        r@ == str_or(item.value(), key@, default@),
{
    match item.get(key) {
        Some(f) => match f.as_str() {
            Some(s) => s.to_owned(),
            None => default.to_owned(),
        },
        None => default.to_owned(),
    }
}

fn closed_flag(item: &Json) -> (r: bool)
    ensures
        r == is_closed(item.value()),
{
    match item.get("closed") {
        Some(f) => match f.as_bool() {
            Some(b) => b,
            None => false,
        },
        None => false,
    }
}

fn position_field(item: &Json, keys: &PositionKeys) -> (r: Position)
    ensures
        r@ == position_of(item.value(), keys@),
{
    match item.get("pos") {
        Some(f) => match f.as_number() {
            Some(n) => keys.key_of(n.as_bytes()),
            None => keys.zero(),
        },
        None => keys.zero(),
    }
}

/// The open lists of the export's list entries, in entry order.
fn scan_open_lists(items: &[Json], keys: &PositionKeys, closed: &mut usize) -> (r: Result<
    Vec<(Position, OpenList)>,
    String,
>)
    requires
        *old(closed) == 0,
    ensures
        match r {
            Ok(open) => scan_lists(items_value(items@), items@.len() as int, keys@) == Ok::<
                (Seq<(PosKey, OpenListView)>, nat),
                Seq<char>,
            >((lists_view(open@), *final(closed) as nat)),
            Err(e) => scan_lists(items_value(items@), items@.len() as int, keys@) == Err::<
                (Seq<(PosKey, OpenListView)>, nat),
                Seq<char>,
            >(e@),
        },
{
    let ghost iv = items_value(items@);
    let mut open: Vec<(Position, OpenList)> = Vec::new();
    let mut i: usize = 0;
    assert(lists_view(open@) =~= Seq::<(PosKey, OpenListView)>::empty());
    while i < items.len()
        invariant
            i <= items@.len(),
            iv == items_value(items@),
            *closed <= i,
            scan_lists(iv, i as int, keys@) == Ok::<(Seq<(PosKey, OpenListView)>, nat), Seq<char>>(
                (lists_view(open@), *closed as nat),
            ),
        decreases items@.len() - i,
    {
        let item = &items[i];
        assert(iv[i as int] == item.value());
        if closed_flag(item) {
            *closed = *closed + 1;
        } else {
            let id = match item.get("id") {
                Some(f) => match f.as_str() {
                    Some(s) => s.to_owned(),
                    None => {
                        proof {
                            lemma_scan_lists_err(iv, i + 1, iv.len() as int, keys@);
                        }
                        return Err("a list entry is missing \"id\"".to_owned());
                    },
                },
                None => {
                    proof {
                        lemma_scan_lists_err(iv, i + 1, iv.len() as int, keys@);
                    }
                    return Err("a list entry is missing \"id\"".to_owned());
                },
            };
            let name = str_field_or(item, "name", "Untitled List");
            let pos = position_field(item, keys);
            let ghost before = open@;
            open.push((pos, OpenList { id, name }));
            assert(lists_view(open@) =~= lists_view(before).push(
                (pos@, OpenListView { id: id@, name: name@ }),
            ));
        }
        i = i + 1;
    }
    Ok(open)
}

/// Index of the first open list with id `id`.
fn find_open_list(lists: &Vec<(Position, OpenList)>, id: &str) -> (r: Option<usize>)
    ensures
        match r {
            Some(j) => find_list(lists_view(lists@), id@, 0) == Some(j as int),
            None => find_list(lists_view(lists@), id@, 0) is None,
        },
{
    let ghost lv = lists_view(lists@);
    let mut j: usize = 0;
    while j < lists.len()
        invariant
            j <= lists@.len(),
            lv == lists_view(lists@),
            find_list(lv, id@, 0) == find_list(lv, id@, j as int),
        decreases lists@.len() - j,
    {
        assert(lv[j as int].1 == lists@[j as int].1@);
        if str_eq(lists[j].1.id.as_str(), id) {
            return Some(j);
        }
        j = j + 1;
    }
    None
}

/// Appends `entry` to group `i`.
fn push_to_group(grouped: &mut Vec<Vec<(Position, Card)>>, i: usize, entry: (Position, Card))
    requires
        i < old(grouped)@.len(),
    ensures
        final(grouped)@.len() == old(grouped)@.len(),
        groups_view(final(grouped)@) == groups_view(old(grouped)@).update(
            i as int,
            groups_view(old(grouped)@)[i as int].push((entry.0@, entry.1@)),
        ),
{
    let ghost before = grouped@;
    let mut group = grouped.remove(i);
    let ghost g0 = group@;
    group.push(entry);
    assert(cards_view(group@) =~= cards_view(g0).push((entry.0@, entry.1@)));
    grouped.insert(i, group);
    assert(groups_view(grouped@) =~= groups_view(before).update(
        i as int,
        groups_view(before)[i as int].push((entry.0@, entry.1@)),
    ));
}

/// Sorts the card entries into the open lists.
fn scan_card_entries(
    items: &[Json],
    lists: &Vec<(Position, OpenList)>,
    keys: &PositionKeys,
    stats: &mut ImportStats,
) -> (r: Vec<Vec<(Position, Card)>>)
    requires
        old(stats).closed_cards_skipped == 0,
        old(stats).orphaned_cards_skipped == 0,
        old(stats)@.warnings.len() == 0,
    ensures
        ({
            let scan = scan_cards(
                items_value(items@),
                items@.len() as int,
                lists_view(lists@),
                keys@,
            );
            &&& groups_view(r@) == scan.grouped
            &&& final(stats).closed_cards_skipped == scan.closed
            &&& final(stats).orphaned_cards_skipped == scan.orphaned
            &&& final(stats)@.warnings == scan.warnings
            &&& final(stats).closed_lists_skipped == old(stats).closed_lists_skipped
        }),
{
    let ghost iv = items_value(items@);
    let ghost lv = lists_view(lists@);
    let mut grouped: Vec<Vec<(Position, Card)>> = Vec::new();
    let mut k: usize = 0;
    while k < lists.len()
        invariant
            k <= lists@.len(),
            grouped@.len() == k,
            forall|j: int| 0 <= j < k ==> (#[trigger] grouped@[j])@.len() == 0,
        decreases lists@.len() - k,
    {
        grouped.push(Vec::new());
        k = k + 1;
    }
    assert(groups_view(grouped@) =~= scan_cards(iv, 0, lv, keys@).grouped) by {
        assert forall|j: int| 0 <= j < grouped@.len() implies cards_view(#[trigger] grouped@[j]@)
            =~= Seq::<(PosKey, CardView)>::empty() by {}
    }
    assert(stats@.warnings =~= Seq::<Seq<char>>::empty());
    let mut i: usize = 0;
    while i < items.len()
        invariant
            i <= items@.len(),
            iv == items_value(items@),
            lv == lists_view(lists@),
            stats.closed_cards_skipped <= i,
            stats.orphaned_cards_skipped <= i,
            stats.closed_lists_skipped == old(stats).closed_lists_skipped,
            grouped@.len() == lists@.len(),
            ({
                let scan = scan_cards(iv, i as int, lv, keys@);
                &&& groups_view(grouped@) == scan.grouped
                &&& stats.closed_cards_skipped == scan.closed
                &&& stats.orphaned_cards_skipped == scan.orphaned
                &&& stats@.warnings == scan.warnings
            }),
        decreases items@.len() - i,
    {
        let item = &items[i];
        assert(iv[i as int] == item.value());
        if closed_flag(item) {
            stats.closed_cards_skipped = stats.closed_cards_skipped + 1;
        } else {
            let name = str_field_or(item, "name", "Untitled Card");
            let id_list = match item.get("idList") {
                Some(f) => f.as_str(),
                None => None,
            };
            match id_list {
                None => {
                    let mut w = "card \"".to_owned();
                    w.append(name.as_str());
                    w.append("\" has no idList; skipped");
                    let ghost before = stats.warnings@;
                    stats.warnings.push(w);
                    assert(stats@.warnings =~= before.map_values(|w: String| w@).push(
                        no_list_warning(name@),
                    ));
                    stats.orphaned_cards_skipped = stats.orphaned_cards_skipped + 1;
                },
                Some(id) => {
                    match find_open_list(lists, id) {
                        None => {
                            let mut w = "card \"".to_owned();
                            w.append(name.as_str());
                            w.append("\" references list id \"");
                            w.append(id);
                            w.append("\" which is archived or missing; skipped");
                            let ghost before = stats.warnings@;
                            stats.warnings.push(w);
                            assert(stats@.warnings =~= before.map_values(|w: String| w@).push(
                                missing_list_warning(name@, id@),
                            ));
                            stats.orphaned_cards_skipped = stats.orphaned_cards_skipped + 1;
                        },
                        Some(index) => {
                            proof {
                                lemma_find_list_bounds(lv, id@, 0);
                            }
                            let desc = str_field_or(item, "desc", "");
                            let pos = position_field(item, keys);
                            push_to_group(&mut grouped, index, (pos, Card { name, desc }));
                        },
                    }
                },
            }
        }
        i = i + 1;
    }
    grouped
}

proof fn lemma_find_list_bounds(lists: Seq<(PosKey, OpenListView)>, id: Seq<char>, i: int)
    ensures
        find_list(lists, id, i) matches Some(j) ==> i <= j < lists.len(),
    decreases lists.len() - i,
{
    if 0 <= i < lists.len() && lists[i].1.id != id {
        lemma_find_list_bounds(lists, id, i + 1);
    }
}

/// The cards of a group in order of position, positions dropped.
fn sorted_cards(group: Vec<(Position, Card)>) -> (r: Vec<Card>)
    ensures
        r@.map_values(|c: Card| c@) == sort_by_position(cards_view(group@)).map_values(
            |e: (PosKey, CardView)| e.1,
        ),
{
    let ghost g = group@;
    let sorted = sort_by_position_exec(group);
    proof {
        lemma_sort_map(keyed(g), card_view());
        lemma_sort_len(keyed(g));
    }
    let ghost cs = sorted@;
    let n = sorted.len();
    let mut rest = sorted;
    let mut out: Vec<Card> = Vec::new();
    assert(out@ =~= cs.take(0).map_values(|e: (Position, Card)| e.1));
    while rest.len() > 0
        invariant
            n == cs.len(),
            rest@.len() <= n,
            rest@ == cs.skip(n - rest@.len()),
            out@ == cs.take(n - rest@.len()).map_values(|e: (Position, Card)| e.1),
        decreases rest@.len(),
    {
        let ghost k = n - rest@.len();
        let ghost before = rest@;
        let (_, card) = rest.remove(0);
        assert(rest@ =~= cs.skip(k + 1)) by {
            assert(before.drop_first() =~= cs.skip(k + 1));
        }
        assert(before[0] == cs[k]);
        out.push(card);
        assert(out@ =~= cs.take(k + 1).map_values(|e: (Position, Card)| e.1));
    }
    assert(cs.take(n as int) =~= cs);
    assert(out@.map_values(|c: Card| c@) =~= cards_view(cs).map_values(
        |e: (PosKey, CardView)| e.1,
    ));
    out
}

/// The lists of the board: each open list, in order, with its cards.
fn assemble(sorted: Vec<(Position, OpenList)>, grouped: Vec<Vec<(Position, Card)>>) -> (r: Vec<List>)
    requires
        sorted@.len() == grouped@.len(),
    ensures
        r@.map_values(|l: List| l@) == Seq::new(
            sorted@.len(),
            |i: int|
                ListView {
                    name: lists_view(sorted@)[i].1.name,
                    cards: sort_by_position(groups_view(grouped@)[i]).map_values(
                        |e: (PosKey, CardView)| e.1,
                    ),
                },
        ),
{
    let ghost target = Seq::new(
        sorted@.len(),
        |i: int|
            ListView {
                name: lists_view(sorted@)[i].1.name,
                cards: sort_by_position(groups_view(grouped@)[i]).map_values(
                    |e: (PosKey, CardView)| e.1,
                ),
            },
    );
    let ghost s0 = sorted@;
    let ghost g0 = grouped@;
    let n = sorted.len();
    let mut sorted = sorted;
    let mut grouped = grouped;
    let mut out: Vec<List> = Vec::new();
    assert(out@.map_values(|l: List| l@) =~= target.take(0));
    while sorted.len() > 0
        invariant
            n == s0.len(),
            s0.len() == g0.len(),
            target.len() == n,
            sorted@.len() <= n,
            grouped@.len() == sorted@.len(),
            sorted@ == s0.skip(n - sorted@.len()),
            grouped@ == g0.skip(n - sorted@.len()),
            out@.map_values(|l: List| l@) == target.take(n - sorted@.len()),
            forall|i: int|
                0 <= i < n ==> #[trigger] target[i] == (ListView {
                    name: lists_view(s0)[i].1.name,
                    cards: sort_by_position(groups_view(g0)[i]).map_values(
                        |e: (PosKey, CardView)| e.1,
                    ),
                }),
        decreases sorted@.len(),
    {
        let ghost k = n - sorted@.len();
        let ghost sb = sorted@;
        let ghost gb = grouped@;
        let (_, open_list) = sorted.remove(0);
        let group = grouped.remove(0);
        assert(sorted@ =~= s0.skip(k + 1)) by {
            assert(sb.drop_first() =~= s0.skip(k + 1));
        }
        assert(grouped@ =~= g0.skip(k + 1)) by {
            assert(gb.drop_first() =~= g0.skip(k + 1));
        }
        assert(sb[0] == s0[k]);
        assert(gb[0] == g0[k]);
        let cards = sorted_cards(group);
        let ghost before = out@;
        let list = List { name: open_list.name, cards };
        assert(list@ == target[k]) by {
            assert(lists_view(s0)[k].1 == s0[k].1@);
            assert(groups_view(g0)[k] == cards_view(g0[k]@));
        }
        let ghost lv = list@;
        out.push(list);
        assert(out@ =~= before.push(list));
        assert(out@.map_values(|l: List| l@) =~= target.take(k + 1)) by {
            assert(before.map_values(|l: List| l@) =~= target.take(k));
            assert(out@.map_values(|l: List| l@) =~= before.map_values(|l: List| l@).push(lv));
            assert(target.take(k + 1) =~= target.take(k).push(target[k]));
        }
    }
    assert(target.take(n as int) =~= target);
    out
}

/// Reads a Trello board export: the board's name, its open lists in order
/// of `pos` with their open cards in order of `pos`, and what was skipped
/// on the way (archived lists and cards, and cards whose list is archived
/// or missing, each of those with a warning). Positions are ordered by the
/// order keys in `keys` (a missing `pos`, or a number `keys` does not list,
/// counts as zero); equal positions keep the order of the export.
pub fn import(root: &Json, keys: &PositionKeys) -> (r: Result<(Board, ImportStats), String>)
    ensures
        match r {
            Ok((board, stats)) => spec_import(root.value(), keys@) == Ok::<
                (BoardView, StatsView),
                Seq<char>,
            >((board@, stats@)),
            Err(e) => spec_import(root.value(), keys@) == Err::<(BoardView, StatsView), Seq<char>>(
                e@,
            ),
        },
{
    let board_name = str_field_or(root, "name", "Untitled Board");
    let mut stats = ImportStats::default();
    let lists_json = match root.get("lists") {
        Some(f) => match f.as_array() {
            Some(items) => items,
            None => return Err("missing a \"lists\" array".to_owned()),
        },
        None => return Err("missing a \"lists\" array".to_owned()),
    };
    let mut closed_lists: usize = 0;
    let open = match scan_open_lists(lists_json, keys, &mut closed_lists) {
        Ok(open) => open,
        Err(e) => return Err(e),
    };
    stats.closed_lists_skipped = closed_lists;
    let ghost open_view = open@;
    let sorted = sort_by_position_exec(open);
    proof {
        lemma_sort_map(keyed(open_view), list_view());
    }
    assert(lists_view(sorted@) == sort_by_position(lists_view(open_view)));
    let cards_json = match root.get("cards") {
        Some(f) => match f.as_array() {
            Some(items) => items,
            None => return Err("missing a \"cards\" array".to_owned()),
        },
        None => return Err("missing a \"cards\" array".to_owned()),
    };
    let grouped = scan_card_entries(cards_json, &sorted, keys, &mut stats);
    proof {
        lemma_scan_cards_len(
            items_value(cards_json@),
            cards_json@.len() as int,
            lists_view(sorted@),
            keys@,
        );
        lemma_sort_len(keyed(open_view));
    }
    let ghost sorted_view = sorted@;
    let ghost grouped_view = grouped@;
    let lists = assemble(sorted, grouped);
    let board = Board { name: board_name, lists };
    proof {
        let lv = lists_view(sorted_view);
        assert(board@.lists =~= Seq::new(
            lv.len(),
            |i: int|
                ListView {
                    name: lv[i].1.name,
                    cards: sort_by_position(groups_view(grouped_view)[i]).map_values(
                        |e: (PosKey, CardView)| e.1,
                    ),
                },
        ));
    }
    Ok((board, stats))
}

proof fn lemma_scan_cards_len(
    items: Seq<JsonValue>,
    n: int,
    lists: Seq<(PosKey, OpenListView)>,
    table: KeyTable,
)
    ensures
        scan_cards(items, n, lists, table).grouped.len() == lists.len(),
    decreases n,
{
    if n > 0 {
        lemma_scan_cards_len(items, n - 1, lists, table);
        assert(scan_cards(items, n, lists, table) == card_step(
            scan_cards(items, n - 1, lists, table),
            items[n - 1],
            lists,
            table,
        ));
        let item = items[n - 1];
        match item.get("idList"@) {
            Some(f) => match f.as_str() {
                Some(id) => lemma_find_list_bounds(lists, id, 0),
                None => {},
            },
            None => {},
        }
    }
}

/// The id `export` gives the list at index `k` (from zero).
pub open spec fn list_id(k: nat) -> Seq<char> {
    "list-"@ + decimal(k + 1)
}

/// The id `export` gives card `j` of list `k` (both from zero).
pub open spec fn card_id(k: nat, j: nat) -> Seq<char> {
    "card-"@ + decimal(k + 1) + "-"@ + decimal(j + 1)
}

pub open spec fn list_entry(k: nat, l: ListView) -> JsonValue {
    JsonValue::Object(seq![("id"@, JsonValue::Str(list_id(k))), ("name"@, JsonValue::Str(l.name))])
}

pub open spec fn card_entry(k: nat, j: nat, c: CardView) -> JsonValue {
    JsonValue::Object(
        seq![
            ("id"@, JsonValue::Str(card_id(k, j))),
            ("name"@, JsonValue::Str(c.name)),
            ("desc"@, JsonValue::Str(c.desc)),
            ("idList"@, JsonValue::Str(list_id(k))),
        ],
    )
}

pub open spec fn list_entries(ls: Seq<ListView>) -> Seq<JsonValue> {
    Seq::new(ls.len(), |k: int| list_entry(k as nat, ls[k]))
}

pub open spec fn card_entries_of(k: nat, l: ListView) -> Seq<JsonValue> {
    Seq::new(l.cards.len(), |j: int| card_entry(k, j as nat, l.cards[j]))
}

/// The card entries of all lists, list by list.
pub open spec fn card_entries(ls: Seq<ListView>) -> Seq<JsonValue>
    decreases ls.len(),
{
    if ls.len() == 0 {
        Seq::empty()
    } else {
        card_entries(ls.drop_last()) + card_entries_of((ls.len() - 1) as nat, ls.last())
    }
}

/// The minimal Trello export of a board: its name, its lists with fresh
/// ids, and its cards with fresh ids pointing at their lists. Order is
/// carried by the order of the entries.
pub open spec fn export_value(b: BoardView) -> JsonValue {
    JsonValue::Object(
        seq![
            ("name"@, JsonValue::Str(b.name)),
            ("lists"@, JsonValue::Array(list_entries(b.lists))),
            ("cards"@, JsonValue::Array(card_entries(b.lists))),
        ],
    )
}

fn numbered(prefix: &str, n: usize) -> (r: String)
    ensures
        r@ == prefix@ + decimal(n as nat),
{
    let mut s = prefix.to_owned();
    s.append(usize_to_decimal(n).as_str());
    s
}

fn str_json(s: &str) -> (r: Json)
    ensures
        r.value() == JsonValue::Str(s@),
{
    Json::String(s.to_owned())
}

fn object_json(pairs: Vec<(String, Json)>) -> (r: Json)
    ensures
        r.value() == JsonValue::Object(pairs_value(pairs@)),
{
    proof {
        Json::lemma_object_value(pairs);
    }
    Json::Object(pairs)
}

fn array_json(items: Vec<Json>) -> (r: Json)
    ensures
        r.value() == JsonValue::Array(items_value(items@)),
{
    proof {
        Json::lemma_array_value(items);
    }
    Json::Array(items)
}

fn list_entry_json(k: usize, list: &List) -> (r: Json)
    requires
        k < usize::MAX,
    ensures
        r.value() == list_entry(k as nat, list@),
{
    let id = numbered("list-", k + 1);
    let mut pairs: Vec<(String, Json)> = Vec::new();
    pairs.push(("id".to_owned(), str_json(id.as_str())));
    pairs.push(("name".to_owned(), str_json(list.name.as_str())));
    let r = object_json(pairs);
    assert(pairs_value(pairs@) =~= seq![
        ("id"@, JsonValue::Str(list_id(k as nat))),
        ("name"@, JsonValue::Str(list@.name)),
    ]);
    r
}

fn card_entry_json(k: usize, j: usize, card: &Card) -> (r: Json)
    requires
        k < usize::MAX,
        j < usize::MAX,
    ensures
        r.value() == card_entry(k as nat, j as nat, card@),
{
    let mut id = numbered("card-", k + 1);
    id.append("-");
    id.append(usize_to_decimal(j + 1).as_str());
    let list = numbered("list-", k + 1);
    let mut pairs: Vec<(String, Json)> = Vec::new();
    pairs.push(("id".to_owned(), str_json(id.as_str())));
    pairs.push(("name".to_owned(), str_json(card.name.as_str())));
    pairs.push(("desc".to_owned(), str_json(card.desc.as_str())));
    pairs.push(("idList".to_owned(), str_json(list.as_str())));
    let r = object_json(pairs);
    assert(pairs_value(pairs@) =~= seq![
        ("id"@, JsonValue::Str(card_id(k as nat, j as nat))),
        ("name"@, JsonValue::Str(card@.name)),
        ("desc"@, JsonValue::Str(card@.desc)),
        ("idList"@, JsonValue::Str(list_id(k as nat))),
    ]);
    r
}

/// The export of a board as a JSON document.
pub fn export_json(board: &Board) -> (r: Json)
    ensures
        r.value() == export_value(board@),
{
    let ghost bl = board@.lists;
    let mut lists: Vec<Json> = Vec::new();
    let mut cards: Vec<Json> = Vec::new();
    let mut k: usize = 0;
    assert(bl.take(0) =~= Seq::<ListView>::empty());
    assert(items_value(lists@) =~= list_entries(bl.take(0)));
    assert(items_value(cards@) =~= card_entries(bl.take(0)));
    while k < board.lists.len()
        invariant
            k <= board.lists@.len(),
            bl == board@.lists,
            bl.len() == board.lists@.len(),
            items_value(lists@) == list_entries(bl.take(k as int)),
            items_value(cards@) == card_entries(bl.take(k as int)),
        decreases board.lists@.len() - k,
    {
        let list = &board.lists[k];
        assert(bl[k as int] == list@);
        let entry = list_entry_json(k, list);
        let ghost lbefore = lists@;
        lists.push(entry);
        assert(bl.take(k + 1).drop_last() =~= bl.take(k as int));
        assert(bl.take(k + 1).last() == list@);
        assert(items_value(lists@) =~= items_value(lbefore).push(entry.value()));
        assert(list_entries(bl.take(k + 1)) =~= list_entries(bl.take(k as int)).push(
            list_entry(k as nat, list@),
        ));
        let ghost before = card_entries(bl.take(k as int));
        let ghost mine = card_entries_of(k as nat, list@);
        let mut j: usize = 0;
        assert(items_value(cards@) =~= before + mine.take(0));
        while j < list.cards.len()
            invariant
                j <= list.cards@.len(),
                k < board.lists.len(),
                mine == card_entries_of(k as nat, list@),
                mine.len() == list.cards@.len(),
                items_value(cards@) == before + mine.take(j as int),
            decreases list.cards@.len() - j,
        {
            let card = &list.cards[j];
            assert(list@.cards[j as int] == card@);
            let entry = card_entry_json(k, j, card);
            let ghost cbefore = cards@;
            cards.push(entry);
            assert(mine.take(j + 1) =~= mine.take(j as int).push(mine[j as int]));
            assert(items_value(cards@) =~= items_value(cbefore).push(entry.value()));
            j = j + 1;
        }
        assert(mine.take(mine.len() as int) =~= mine);
        assert(card_entries(bl.take(k + 1)) == before + mine);
        k = k + 1;
    }
    assert(bl.take(bl.len() as int) =~= bl);
    let mut top: Vec<(String, Json)> = Vec::new();
    top.push(("name".to_owned(), str_json(board.name.as_str())));
    top.push(("lists".to_owned(), array_json(lists)));
    top.push(("cards".to_owned(), array_json(cards)));
    let r = object_json(top);
    assert(pairs_value(top@) =~= seq![
        ("name"@, JsonValue::Str(board@.name)),
        ("lists"@, JsonValue::Array(list_entries(bl))),
        ("cards"@, JsonValue::Array(card_entries(bl))),
    ]);
    r
}

/// The export of a board as JSON text.
pub fn export(board: &Board) -> (r: String)
    ensures
        r@ == print_value(export_value(board@)),
{
    let v = export_json(board);
    serialize(&v)
}

} // verus!
