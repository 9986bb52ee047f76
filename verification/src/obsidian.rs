//! Renders a board as a markdown file in the shape the Obsidian Kanban
//! plugin reads (a frontmatter marker, a `## list` heading per list and a
//! `- [ ] card` item per card, descriptions indented below their card), and
//! reads such a file back.
use vstd::prelude::*;
use vstd::string::*;
use vstd::utf8::encode_utf8;

use crate::json::grammar::spec_parse;
use crate::json::{parse as parse_json, ParseError};
use crate::text::{
    chars_blank, chars_eq, chars_of, ends_with, has_prefix, has_suffix, is_blank, lines, lines_of,
    lines_view, push_char, starts_with, string_of_chars, trim, trimmed,
};
use crate::trello::{Board, BoardView, Card, CardView, List, ListView};

pub mod round_trip;

verus! {

/// A text with its line breaks turned into spaces.
pub open spec fn flattened(t: Seq<char>) -> Seq<char> {
    t.map_values(|c: char| if c == '\n' || c == '\r' { ' ' } else { c })
}

pub open spec fn header_prefix() -> Seq<char> {
    "<!-- exported from trello board: "@
}

pub open spec fn header_suffix() -> Seq<char> {
    " -->"@
}

pub open spec fn frontmatter() -> Seq<char> {
    "---\n\nkanban-plugin: board\n\n---\n\n"@
}

/// Description lines, each indented by two spaces.
pub open spec fn desc_text(ls: Seq<Seq<char>>) -> Seq<char>
    decreases ls.len(),
{
    if ls.len() == 0 {
        Seq::empty()
    } else {
        desc_text(ls.drop_last()) + "  "@ + ls.last() + "\n"@
    }
}

pub open spec fn card_text(c: CardView) -> Seq<char> {
    "- [ ] "@ + flattened(c.name) + "\n"@ + if is_blank(c.desc) {
        Seq::<char>::empty()
    } else {
        desc_text(lines(c.desc))
    }
}

pub open spec fn cards_text(cs: Seq<CardView>) -> Seq<char>
    decreases cs.len(),
{
    if cs.len() == 0 {
        Seq::empty()
    } else {
        cards_text(cs.drop_last()) + card_text(cs.last())
    }
}

pub open spec fn list_text(l: ListView) -> Seq<char> {
    "## "@ + l.name + "\n\n"@ + cards_text(l.cards) + "\n"@
}

pub open spec fn lists_text(ls: Seq<ListView>) -> Seq<char>
    decreases ls.len(),
{
    if ls.len() == 0 {
        Seq::empty()
    } else {
        lists_text(ls.drop_last()) + list_text(ls.last())
    }
}

/// The markdown `write` produces for a board.
pub open spec fn board_text(b: BoardView) -> Seq<char> {
    header_prefix() + b.name + header_suffix() + "\n"@ + frontmatter() + lists_text(b.lists)
}

/// A card name on one line: line breaks become spaces.
fn single_line(text: &str) -> (r: String)
    ensures
        r@ == flattened(text@),
{
    let cs = chars_of(text);
    let mut out = String::new();
    let mut i: usize = 0;
    while i < cs.len()
        invariant
            i <= cs@.len(),
            cs@ == text@,
            out@ == flattened(cs@.take(i as int)),
        decreases cs@.len() - i,
    {
        let c = cs[i];
        if c == '\n' || c == '\r' {
            push_char(&mut out, ' ');
        } else {
            push_char(&mut out, c);
        }
        i = i + 1;
        assert(out@ =~= flattened(cs@.take(i as int)));
    }
    assert(cs@.take(cs@.len() as int) =~= cs@);
    out
}

fn push_card(out: &mut String, card: &Card)
    ensures
        final(out)@ == old(out)@ + card_text(card@),
{
    let ghost start = out@;
    out.append("- [ ] ");
    let name = single_line(card.name.as_str());
    out.append(name.as_str());
    push_char(out, '\n');
    proof {
        reveal_strlit("\n");
    }
    assert(out@ =~= start + "- [ ] "@ + flattened(card.name@) + "\n"@);
    let desc = chars_of(card.desc.as_str());
    if chars_blank(desc.as_slice()) {
        assert(out@ =~= start + card_text(card@));
        return ;
    }
    let ls = lines_of(desc.as_slice());
    let ghost lv = lines_view(ls@);
    let ghost mid = out@;
    let mut i: usize = 0;
    assert(lv.take(0) =~= Seq::<Seq<char>>::empty());
    assert(out@ =~= mid + desc_text(lv.take(0)));
    while i < ls.len()
        invariant
            i <= ls@.len(),
            lv == lines_view(ls@),
            out@ == mid + desc_text(lv.take(i as int)),
        decreases ls@.len() - i,
    {
        proof {
            reveal_strlit("\n");
        }
        let line = string_of_chars(ls[i].as_slice(), 0, ls[i].len());
        assert(ls@[i as int]@.subrange(0, ls@[i as int]@.len() as int) =~= ls@[i as int]@);
        out.append("  ");
        out.append(line.as_str());
        push_char(out, '\n');
        assert(lv.take(i + 1).drop_last() =~= lv.take(i as int));
        assert(out@ =~= mid + desc_text(lv.take(i + 1)));
        i = i + 1;
    }
    assert(lv.take(ls@.len() as int) =~= lv);
    assert(out@ =~= start + card_text(card@));
}

fn push_list(out: &mut String, list: &List)
    ensures
        final(out)@ == old(out)@ + list_text(list@),
{
    proof {
        reveal_strlit("\n");
    }
    let ghost start = out@;
    out.append("## ");
    out.append(list.name.as_str());
    out.append("\n\n");
    let ghost mid = out@;
    let ghost cv = list@.cards;
    let mut i: usize = 0;
    assert(cv.take(0) =~= Seq::<CardView>::empty());
    assert(out@ =~= mid + cards_text(cv.take(0)));
    while i < list.cards.len()
        invariant
            i <= list.cards@.len(),
            cv == list@.cards,
            cv.len() == list.cards@.len(),
            out@ == mid + cards_text(cv.take(i as int)),
        decreases list.cards@.len() - i,
    {
        push_card(out, &list.cards[i]);
        assert(cv.take(i + 1).drop_last() =~= cv.take(i as int));
        assert(cv[i as int] == list.cards@[i as int]@);
        assert(out@ =~= mid + cards_text(cv.take(i + 1)));
        i = i + 1;
    }
    push_char(out, '\n');
    assert(cv.take(cv.len() as int) =~= cv);
    assert(out@ =~= start + list_text(list@));
}

/// Renders a board as Obsidian Kanban markdown: a comment with the board's
/// name, the frontmatter, then each list with its cards.
pub fn write(board: &Board) -> (r: String)
    ensures
        r@ == board_text(board@),
{
    let mut out = String::new();
    out.append("<!-- exported from trello board: ");
    out.append(board.name.as_str());
    out.append(" -->\n");
    out.append("---\n\nkanban-plugin: board\n\n---\n\n");
    proof {
        reveal_strlit(" -->\n");
        reveal_strlit(" -->");
        reveal_strlit("\n");
    }
    let ghost mid = out@;
    assert(mid =~= header_prefix() + board.name@ + header_suffix() + "\n"@ + frontmatter());
    let ghost lv = board@.lists;
    let mut i: usize = 0;
    assert(lv.take(0) =~= Seq::<ListView>::empty());
    assert(out@ =~= mid + lists_text(lv.take(0)));
    while i < board.lists.len()
        invariant
            i <= board.lists@.len(),
            lv == board@.lists,
            lv.len() == board.lists@.len(),
            out@ == mid + lists_text(lv.take(i as int)),
        decreases board.lists@.len() - i,
    {
        push_list(&mut out, &board.lists[i]);
        assert(lv.take(i + 1).drop_last() =~= lv.take(i as int));
        assert(lv[i as int] == board.lists@[i as int]@);
        assert(out@ =~= mid + lists_text(lv.take(i + 1)));
        i = i + 1;
    }
    assert(lv.take(lv.len() as int) =~= lv);
    out
}

/// What has been read of a markdown board so far.
#[verifier::ext_equal]
pub struct ReadState {
    pub name: Seq<char>,
    pub lists: Seq<ListView>,
}

pub open spec fn start_state() -> ReadState {
    ReadState { name: "Untitled Board"@, lists: Seq::empty() }
}

/// `line` without its first `n` characters.
pub open spec fn after(line: Seq<char>, n: nat) -> Seq<char> {
    line.subrange(n as int, line.len() as int)
}

pub open spec fn unrecognized(line: Seq<char>) -> Seq<char> {
    "unrecognized line: \""@ + line + "\""@
}

pub open spec fn labels_prefix() -> Seq<char> {
    "  %%labels:"@
}

pub open spec fn labels_suffix() -> Seq<char> {
    "%%"@
}

/// Whether a line is a hidden `%%labels:...%%` line under a card.
pub open spec fn is_labels_line(line: Seq<char>) -> bool {
    has_prefix(line, labels_prefix()) && has_suffix(
        after(line, labels_prefix().len()),
        labels_suffix(),
    )
}

/// The JSON text of a labels line.
pub open spec fn labels_text(line: Seq<char>) -> Seq<char> {
    let rest = after(line, labels_prefix().len());
    rest.subrange(0, rest.len() - labels_suffix().len())
}

pub open spec fn labels_error(message: Seq<char>, pos: int) -> Seq<char> {
    "invalid %%labels%% metadata: "@ + ParseError::text_of(message, pos as nat)
}

/// A labels line read on top of `st`: it must follow a card and hold JSON;
/// the labels themselves are not kept.
pub open spec fn read_labels_line(st: ReadState, line: Seq<char>) -> Result<ReadState, Seq<char>> {
    if st.lists.len() == 0 {
        Err("found a labels line before any list heading"@)
    } else if st.lists.last().cards.len() == 0 {
        Err("found a labels line before any card"@)
    } else {
        match spec_parse(encode_utf8(labels_text(line))) {
            Ok(_) => Ok(st),
            Err((m, p)) => Err(labels_error(m, p)),
        }
    }
}

/// One line read on top of `st`.
pub open spec fn read_line(st: ReadState, line: Seq<char>) -> Result<ReadState, Seq<char>> {
    if has_prefix(line, header_prefix()) {
        let rest = after(line, header_prefix().len());
        if has_suffix(rest, header_suffix()) {
            Ok(ReadState { name: rest.subrange(0, rest.len() - header_suffix().len()), ..st })
        } else {
            Ok(st)
        }
    } else if is_blank(line) || line == "---"@ || line == "kanban-plugin: board"@ {
        Ok(st)
    } else if has_prefix(line, "## "@) {
        Ok(
            ReadState {
                lists: st.lists.push(
                    ListView { name: trim(after(line, "## "@.len())), cards: Seq::empty() },
                ),
                ..st
            },
        )
    } else if has_prefix(line, "- [ ] "@) || has_prefix(line, "- [x] "@) {
        if st.lists.len() == 0 {
            Err("found a card before any list heading"@)
        } else {
            let l = st.lists.last();
            let card = CardView { name: after(line, "- [ ] "@.len()), desc: Seq::empty() };
            Ok(
                ReadState {
                    lists: st.lists.update(
                        st.lists.len() - 1,
                        ListView { cards: l.cards.push(card), ..l },
                    ),
                    ..st
                },
            )
        }
    } else if is_labels_line(line) {
        read_labels_line(st, line)
    } else if has_prefix(line, "  "@) {
        if st.lists.len() == 0 {
            Err("found a description line before any list heading"@)
        } else if st.lists.last().cards.len() == 0 {
            Err("found a description line before any card"@)
        } else {
            let l = st.lists.last();
            let c = l.cards.last();
            let rest = after(line, "  "@.len());
            let desc = if c.desc.len() == 0 {
                rest
            } else {
                c.desc + "\n"@ + rest
            };
            Ok(
                ReadState {
                    lists: st.lists.update(
                        st.lists.len() - 1,
                        ListView {
                            cards: l.cards.update(l.cards.len() - 1, CardView { desc, ..c }),
                            ..l
                        },
                    ),
                    ..st
                },
            )
        }
    } else {
        Err(unrecognized(line))
    }
}

/// Lines read in order on top of `st`, stopping at the first error.
pub open spec fn read_lines(st: ReadState, ls: Seq<Seq<char>>) -> Result<ReadState, Seq<char>>
    decreases ls.len(),
{
    if ls.len() == 0 {
        Ok(st)
    } else {
        match read_line(st, ls[0]) {
            Ok(next) => read_lines(next, ls.drop_first()),
            Err(e) => Err(e),
        }
    }
}

/// The board a markdown file describes, or why it cannot be read.
pub open spec fn spec_read_board(markdown: Seq<char>) -> Result<BoardView, Seq<char>> {
    match read_lines(start_state(), lines(markdown)) {
        Ok(st) => Ok(BoardView { name: st.name, lists: st.lists }),
        Err(e) => Err(e),
    }
}

pub open spec fn lists_of(v: Seq<List>) -> Seq<ListView> {
    v.map_values(|l: List| l@)
}

/// Checks a labels line against what has been read so far.
fn check_labels(l: &[char], lists: &Vec<List>, markers: &Markers) -> (r: Result<(), String>)
    requires
        markers.wf(),
        is_labels_line(l@),
    ensures
        match read_labels_line(ReadState { name: Seq::empty(), lists: lists_of(lists@) }, l@) {
            Ok(_) => r is Ok,
            Err(e) => r matches Err(m) && m@ == e,
        },
{
    if lists.len() == 0 {
        return Err("found a labels line before any list heading".to_owned());
    }
    if lists[lists.len() - 1].cards.len() == 0 {
        assert(lists_of(lists@).last().cards.len() == 0);
        return Err("found a labels line before any card".to_owned());
    }
    assert(lists_of(lists@).last().cards.len() > 0);
    let n = markers.labels_prefix.len();
    let meta = string_of_chars(l, n, l.len() - markers.labels_suffix.len());
    assert(meta@ =~= labels_text(l@));
    match parse_json(meta.as_str()) {
        Ok(_) => Ok(()),
        Err(e) => {
            let mut m = "invalid %%labels%% metadata: ".to_owned();
            m.append(e.to_string().as_str());
            Err(m)
        },
    }
}

fn read_one(
    line: &Vec<char>,
    name: &mut String,
    lists: &mut Vec<List>,
    markers: &Markers,
) -> (r: Result<(), String>)
    requires
        markers.wf(),
    ensures
        match read_line(ReadState { name: old(name)@, lists: lists_of(old(lists)@) }, line@) {
            Ok(st) => r is Ok && final(name)@ == st.name && lists_of(final(lists)@) == st.lists,
            Err(e) => r matches Err(m) && m@ == e,
        },
{
    let ghost st = ReadState { name: name@, lists: lists_of(lists@) };
    let l = line.as_slice();
    if starts_with(l, markers.header_prefix.as_slice()) {
        let n = markers.header_prefix.len();
        let hs = markers.header_suffix.as_slice();
        let rest_len = l.len() - n;
        assert(l@.subrange(n as int, l@.len() as int) == after(l@, header_prefix().len()));
        if rest_len >= hs.len() && ends_with(l, hs) {
            let new_name = string_of_chars(l, n, l.len() - hs.len());
            proof {
                let rest = after(l@, header_prefix().len());
                assert(rest.subrange(rest.len() - header_suffix().len(), rest.len() as int) =~= l@.subrange(
                    l@.len() - hs@.len(),
                    l@.len() as int,
                ));
                assert(rest.subrange(0, rest.len() - header_suffix().len()) =~= l@.subrange(
                    n as int,
                    l@.len() - hs@.len(),
                ));
            }
            *name = new_name;
        } else {
            proof {
                let rest = after(l@, header_prefix().len());
                if has_suffix(rest, header_suffix()) {
                    assert(rest.subrange(rest.len() - header_suffix().len(), rest.len() as int) =~= l@.subrange(
                        l@.len() - hs@.len(),
                        l@.len() as int,
                    ));
                }
            }
        }
        return Ok(());
    }
    if chars_blank(l) || chars_eq(l, markers.rule.as_slice()) || chars_eq(l, markers.plugin.as_slice()) {
        return Ok(());
    }
    if starts_with(l, markers.heading.as_slice()) {
        let title = trimmed(vstd::slice::slice_subrange(l, markers.heading.len(), l.len()));
        let ghost before = lists@;
        lists.push(List { name: title, cards: Vec::new() });
        proof {
            let pushed = ListView { name: trim(after(l@, "## "@.len())), cards: Seq::empty() };
            assert(lists@[lists@.len() - 1]@.cards =~= Seq::<CardView>::empty());
            assert(lists_of(lists@) =~= lists_of(before).push(pushed));
        }
        return Ok(());
    }
    if starts_with(l, markers.open_item.as_slice()) || starts_with(l, markers.done_item.as_slice()) {
        let ghost before = lists@;
        let mut list = match lists.pop() {
            Some(list) => list,
            None => return Err("found a card before any list heading".to_owned()),
        };
        let ghost lb = list@;
        let card_name = string_of_chars(l, markers.open_item.len(), l.len());
        list.cards.push(Card { name: card_name, desc: String::new() });
        proof {
            let card = CardView { name: after(l@, "- [ ] "@.len()), desc: Seq::empty() };
            assert(list@ == ListView { cards: lb.cards.push(card), ..lb }) by {
                assert(list@.cards =~= lb.cards.push(card));
            }
        }
        let ghost ln = list@;
        lists.push(list);
        proof {
            assert(lists_of(before).last() == lb);
            assert(lists_of(lists@) =~= lists_of(before).update(lists_of(before).len() - 1, ln));
        }
        return Ok(());
    }
    if starts_with(l, markers.labels_prefix.as_slice()) {
        let n = markers.labels_prefix.len();
        let ls = markers.labels_suffix.as_slice();
        let rest_len = l.len() - n;
        let ghost rest = after(l@, labels_prefix().len());
        assert(l@.subrange(n as int, l@.len() as int) == rest);
        proof {
            if has_suffix(rest, labels_suffix()) {
                assert(rest.subrange(rest.len() - labels_suffix().len(), rest.len() as int)
                    =~= l@.subrange(l@.len() - ls@.len(), l@.len() as int));
            }
        }
        if rest_len >= ls.len() && ends_with(l, ls) {
            proof {
                assert(rest.subrange(rest.len() - labels_suffix().len(), rest.len() as int)
                    =~= l@.subrange(l@.len() - ls@.len(), l@.len() as int));
            }
            return check_labels(l, lists, markers);
        }
    }
    if starts_with(l, markers.indent.as_slice()) {
        let ghost before = lists@;
        let mut list = match lists.pop() {
            Some(list) => list,
            None => return Err("found a description line before any list heading".to_owned()),
        };
        let ghost lb = list@;
        assert(lists_of(before).last() == lb);
        let mut card = match list.cards.pop() {
            Some(card) => card,
            None => return Err("found a description line before any card".to_owned()),
        };
        let ghost cb = card@;
        assert(lb.cards.last() == cb);
        let rest = string_of_chars(l, markers.indent.len(), l.len());
        if !card.desc.as_str().is_empty() {
            push_char(&mut card.desc, '\n');
        }
        card.desc.append(rest.as_str());
        proof {
            reveal_strlit("\n");
            if cb.desc.len() == 0 {
                assert(card.desc@ =~= rest@);
            } else {
                assert(card.desc@ =~= cb.desc + "\n"@ + rest@);
            }
        }
        let ghost cn = card@;
        list.cards.push(card);
        let ghost ln = list@;
        proof {
            assert(ln.cards =~= lb.cards.update(lb.cards.len() - 1, cn));
        }
        lists.push(list);
        proof {
            assert(lists_of(lists@) =~= lists_of(before).update(lists_of(before).len() - 1, ln));
        }
        return Ok(());
    }
    let mut m = "unrecognized line: \"".to_owned();
    let text = string_of_chars(l, 0, l.len());
    assert(l@.subrange(0, l@.len() as int) =~= l@);
    m.append(text.as_str());
    m.append("\"");
    Err(m)
}

/// The fixed pieces of text that lines are told apart by.
struct Markers {
    header_prefix: Vec<char>,
    header_suffix: Vec<char>,
    rule: Vec<char>,
    plugin: Vec<char>,
    heading: Vec<char>,
    open_item: Vec<char>,
    done_item: Vec<char>,
    indent: Vec<char>,
    labels_prefix: Vec<char>,
    labels_suffix: Vec<char>,
}

impl Markers {
    spec fn wf(&self) -> bool {
        &&& self.header_prefix@ == header_prefix()
        &&& self.header_suffix@ == header_suffix()
        &&& self.rule@ == "---"@
        &&& self.plugin@ == "kanban-plugin: board"@
        &&& self.heading@ == "## "@
        &&& self.open_item@ == "- [ ] "@
        &&& self.done_item@ == "- [x] "@
        &&& self.indent@ == "  "@
        &&& self.labels_prefix@ == labels_prefix()
        &&& self.labels_suffix@ == labels_suffix()
        &&& "## "@.len() == 3
        &&& "- [ ] "@.len() == 6
        &&& "- [x] "@.len() == 6
        &&& "  "@.len() == 2
    }

    fn new() -> (r: Markers)
        ensures
            r.wf(),
    {
        proof {
            reveal_strlit("## ");
            reveal_strlit("- [ ] ");
            reveal_strlit("- [x] ");
            reveal_strlit("  ");
        }
        Markers {
            header_prefix: chars_of("<!-- exported from trello board: "),
            header_suffix: chars_of(" -->"),
            rule: chars_of("---"),
            plugin: chars_of("kanban-plugin: board"),
            heading: chars_of("## "),
            open_item: chars_of("- [ ] "),
            done_item: chars_of("- [x] "),
            indent: chars_of("  "),
            labels_prefix: chars_of("  %%labels:"),
            labels_suffix: chars_of("%%"),
        }
    }
}

/// Reads a markdown file written by `write` (or edited by hand in the same
/// shape) back into a board: its name from the header comment, list names
/// from headings, card names from items and descriptions from the indented
/// lines under them. A hidden `%%labels:...%%` line under a card must hold
/// JSON; labels are not kept.
pub fn parse(markdown: &str) -> (r: Result<Board, String>)
    ensures
        match r {
            Ok(b) => spec_read_board(markdown@) == Ok::<BoardView, Seq<char>>(b@),
            Err(e) => spec_read_board(markdown@) == Err::<BoardView, Seq<char>>(e@),
        },
{
    let markers = Markers::new();
    let text = chars_of(markdown);
    let ls = lines_of(text.as_slice());
    let ghost lv = lines_view(ls@);
    let mut name = "Untitled Board".to_owned();
    let mut lists: Vec<List> = Vec::new();
    assert(lists_of(lists@) =~= Seq::<ListView>::empty());
    assert(lv.skip(0) =~= lv);
    let mut i: usize = 0;
    while i < ls.len()
        invariant
            i <= ls@.len(),
            lv == lines_view(ls@),
            lv == lines(markdown@),
            markers.wf(),
            read_lines(start_state(), lv) == read_lines(
                ReadState { name: name@, lists: lists_of(lists@) },
                lv.skip(i as int),
            ),
        decreases ls@.len() - i,
    {
        let ghost st = ReadState { name: name@, lists: lists_of(lists@) };
        assert(lv.skip(i as int)[0] == ls@[i as int]@);
        assert(lv.skip(i as int).drop_first() =~= lv.skip(i + 1));
        match read_one(&ls[i], &mut name, &mut lists, &markers) {
            Ok(()) => {},
            Err(e) => return Err(e),
        }
        i = i + 1;
    }
    assert(lv.skip(ls@.len() as int) =~= Seq::<Seq<char>>::empty());
    let board = Board { name, lists };
    assert(board@.lists == lists_of(board.lists@));
    Ok(board)
}

} // verus!
