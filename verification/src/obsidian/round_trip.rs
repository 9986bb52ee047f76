//! Reading back what `write` wrote gives the same board, for boards whose
//! text survives the markdown shape.
use vstd::prelude::*;

use super::{
    after, board_text, card_text, cards_text, desc_text, flattened, frontmatter, header_prefix,
    header_suffix, is_labels_line, labels_prefix, list_text, lists_text, read_line, read_lines, spec_read_board,
    start_state, ReadState,
};
use crate::text::{
    has_prefix, holds_text, is_blank, lemma_holds_extend, lemma_holds_middle, is_white_space, lemma_trim_end_bounds,
    lemma_trim_start_bounds, lines, lines_from, newline_from, strip_cr, trim, trim_end_from,
    trim_start_from,
};
use crate::trello::{BoardView, CardView, ListView};

verus! {

/// Lines each ended by a line break.
pub open spec fn join_lines(ls: Seq<Seq<char>>) -> Seq<char>
    decreases ls.len(),
{
    if ls.len() == 0 {
        Seq::empty()
    } else {
        join_lines(ls.drop_last()) + ls.last() + seq!['\n']
    }
}

pub proof fn lemma_join_concat(a: Seq<Seq<char>>, b: Seq<Seq<char>>)
    ensures
        join_lines(a + b) == join_lines(a) + join_lines(b),
    decreases b.len(),
{
    if b.len() == 0 {
        assert(a + b =~= a);
        assert(join_lines(a) + join_lines(b) =~= join_lines(a));
    } else {
        lemma_join_concat(a, b.drop_last());
        assert((a + b).drop_last() =~= a + b.drop_last());
        assert(join_lines(a + b) =~= join_lines(a) + join_lines(b));
    }
}

pub proof fn lemma_join_one(l: Seq<char>)
    ensures
        join_lines(seq![l]) == l + seq!['\n'],
{
    assert(seq![l].drop_last() =~= Seq::<Seq<char>>::empty());
    assert(join_lines(seq![l].drop_last()) =~= Seq::<char>::empty());
    assert(join_lines(seq![l]) =~= l + seq!['\n']);
}

/// A line that comes back from `lines` as it went in.
pub open spec fn plain_line(l: Seq<char>) -> bool {
    &&& forall|i: int| 0 <= i < l.len() ==> l[i] != '\n'
    &&& !(l.len() > 0 && l.last() == '\r')
}

proof fn lemma_newline_shift(s: Seq<char>, k: int, j: int)
    requires
        0 <= k <= j <= s.len(),
    ensures
        newline_from(s, j) - k == newline_from(s.subrange(k, s.len() as int), j - k),
    decreases s.len() - j,
{
    if j < s.len() && s[j] != '\n' {
        lemma_newline_shift(s, k, j + 1);
    }
}

proof fn lemma_lines_shift(s: Seq<char>, k: int, j: int)
    requires
        0 <= k <= j <= s.len(),
    ensures
        lines_from(s, j) == lines_from(s.subrange(k, s.len() as int), j - k),
    decreases s.len() - j,
{
    let t = s.subrange(k, s.len() as int);
    if j < s.len() {
        lemma_newline_shift(s, k, j);
        crate::text::lemma_newline_from(s, j);
        let e = newline_from(s, j);
        if e < s.len() {
            lemma_lines_shift(s, k, e + 1);
            assert(s.subrange(j, e) =~= t.subrange(j - k, e - k));
        } else {
            assert(s.subrange(j, s.len() as int) =~= t.subrange(j - k, t.len() as int));
        }
    }
}

/// Splitting joined plain lines gives them back.
pub proof fn lemma_lines_join(ls: Seq<Seq<char>>)
    requires
        forall|i: int| 0 <= i < ls.len() ==> plain_line(#[trigger] ls[i]),
    ensures
        lines(join_lines(ls)) == ls,
    decreases ls.len(),
{
    if ls.len() == 0 {
        assert(lines(join_lines(ls)) =~= ls);
    } else {
        let l0 = ls[0];
        let n = l0.len() as int;
        let rest = ls.drop_first();
        assert(ls =~= seq![l0] + rest);
        lemma_join_concat(seq![l0], rest);
        lemma_join_one(l0);
        let s = join_lines(ls);
        let r = join_lines(rest);
        assert(s =~= l0 + seq!['\n'] + r);
        lemma_lines_join(rest);
        assert(plain_line(l0));
        assert forall|i: int| 0 <= i < l0.len() implies s[i] != '\n' by {
            assert(s[i] == l0[i]);
        }
        assert(s[l0.len() as int] == '\n');
        lemma_first_newline(s, 0, l0.len() as int);
        assert(s.subrange(0, l0.len() as int) =~= l0);
        assert(strip_cr(l0) == l0);
        lemma_lines_shift(s, n + 1, n + 1);
        assert(s.subrange(n + 1, s.len() as int) =~= r);
        assert(lines_from(s, 0) =~= seq![l0] + lines_from(s, n + 1));
        assert(lines(s) =~= ls);
    }
}

proof fn lemma_first_newline(s: Seq<char>, j: int, e: int)
    requires
        0 <= j <= e < s.len(),
        s[e] == '\n',
        forall|i: int| j <= i < e ==> s[i] != '\n',
    ensures
        newline_from(s, j) == e,
    decreases e - j,
{
    if j < e {
        lemma_first_newline(s, j + 1, e);
    }
}

/// The lines `write` produces, one by one.
pub open spec fn indent_all(ls: Seq<Seq<char>>) -> Seq<Seq<char>> {
    ls.map_values(|l: Seq<char>| "  "@ + l)
}

pub open spec fn card_lines(c: CardView) -> Seq<Seq<char>> {
    seq!["- [ ] "@ + flattened(c.name)] + if is_blank(c.desc) {
        Seq::<Seq<char>>::empty()
    } else {
        indent_all(lines(c.desc))
    }
}

pub open spec fn cards_lines(cs: Seq<CardView>) -> Seq<Seq<char>>
    decreases cs.len(),
{
    if cs.len() == 0 {
        Seq::empty()
    } else {
        cards_lines(cs.drop_last()) + card_lines(cs.last())
    }
}

pub open spec fn list_lines(l: ListView) -> Seq<Seq<char>> {
    seq!["## "@ + l.name, Seq::<char>::empty()] + cards_lines(l.cards) + seq![Seq::<char>::empty()]
}

pub open spec fn lists_lines(ls: Seq<ListView>) -> Seq<Seq<char>>
    decreases ls.len(),
{
    if ls.len() == 0 {
        Seq::empty()
    } else {
        lists_lines(ls.drop_last()) + list_lines(ls.last())
    }
}

pub open spec fn front_lines() -> Seq<Seq<char>> {
    seq![
        "---"@,
        Seq::<char>::empty(),
        "kanban-plugin: board"@,
        Seq::<char>::empty(),
        "---"@,
        Seq::<char>::empty(),
    ]
}

pub open spec fn header_line(name: Seq<char>) -> Seq<char> {
    header_prefix() + name + header_suffix()
}

pub open spec fn board_lines(b: BoardView) -> Seq<Seq<char>> {
    seq![header_line(b.name)] + front_lines() + lists_lines(b.lists)
}

proof fn lemma_desc_text(ls: Seq<Seq<char>>)
    ensures
        desc_text(ls) == join_lines(indent_all(ls)),
    decreases ls.len(),
{
    reveal_strlit("\n");
    if ls.len() == 0 {
        assert(indent_all(ls) =~= Seq::<Seq<char>>::empty());
    } else {
        lemma_desc_text(ls.drop_last());
        assert(indent_all(ls).drop_last() =~= indent_all(ls.drop_last()));
        assert(desc_text(ls) =~= join_lines(indent_all(ls)));
    }
}

proof fn lemma_card_text(c: CardView)
    ensures
        card_text(c) == join_lines(card_lines(c)),
{
    reveal_strlit("\n");
    let first = "- [ ] "@ + flattened(c.name);
    let rest = if is_blank(c.desc) {
        Seq::<Seq<char>>::empty()
    } else {
        indent_all(lines(c.desc))
    };
    lemma_join_concat(seq![first], rest);
    lemma_join_one(first);
    if !is_blank(c.desc) {
        lemma_desc_text(lines(c.desc));
    }
    assert(card_text(c) =~= join_lines(card_lines(c)));
}

proof fn lemma_cards_text(cs: Seq<CardView>)
    ensures
        cards_text(cs) == join_lines(cards_lines(cs)),
    decreases cs.len(),
{
    if cs.len() > 0 {
        lemma_cards_text(cs.drop_last());
        lemma_card_text(cs.last());
        lemma_join_concat(cards_lines(cs.drop_last()), card_lines(cs.last()));
    }
}

proof fn lemma_list_text(l: ListView)
    ensures
        list_text(l) == join_lines(list_lines(l)),
{
    reveal_strlit("\n");
    reveal_strlit("\n\n");
    let head = seq!["## "@ + l.name, Seq::<char>::empty()];
    let tail = seq![Seq::<char>::empty()];
    lemma_join_concat(head + cards_lines(l.cards), tail);
    lemma_join_concat(head, cards_lines(l.cards));
    lemma_join_one(Seq::<char>::empty());
    lemma_join_concat(seq!["## "@ + l.name], seq![Seq::<char>::empty()]);
    assert(seq!["## "@ + l.name] + seq![Seq::<char>::empty()] =~= head);
    lemma_join_one("## "@ + l.name);
    lemma_cards_text(l.cards);
    assert(list_text(l) =~= join_lines(list_lines(l)));
}

proof fn lemma_lists_text(ls: Seq<ListView>)
    ensures
        lists_text(ls) == join_lines(lists_lines(ls)),
    decreases ls.len(),
{
    if ls.len() > 0 {
        lemma_lists_text(ls.drop_last());
        lemma_list_text(ls.last());
        lemma_join_concat(lists_lines(ls.drop_last()), list_lines(ls.last()));
    }
}

proof fn lemma_front_text()
    ensures
        frontmatter() == join_lines(front_lines()),
{
    reveal_strlit("---\n\nkanban-plugin: board\n\n---\n\n");
    reveal_strlit("---");
    reveal_strlit("kanban-plugin: board");
    let f = front_lines();
    assert(join_lines(f) =~= "---"@ + seq!['\n'] + seq!['\n'] + "kanban-plugin: board"@ + seq![
        '\n',
    ] + seq!['\n'] + "---"@ + seq!['\n'] + seq!['\n']) by {
        reveal_with_fuel(join_lines, 7);
        assert(f.drop_last().drop_last().drop_last().drop_last().drop_last().drop_last()
            =~= Seq::<Seq<char>>::empty());
    }
    assert(frontmatter() =~= join_lines(f));
}

/// `write`'s text is its lines, each ended by a line break.
pub proof fn lemma_board_text(b: BoardView)
    ensures
        board_text(b) == join_lines(board_lines(b)),
{
    reveal_strlit("\n");
    lemma_front_text();
    lemma_lists_text(b.lists);
    lemma_join_one(header_line(b.name));
    lemma_join_concat(seq![header_line(b.name)], front_lines());
    lemma_join_concat(seq![header_line(b.name)] + front_lines(), lists_lines(b.lists));
    assert(board_text(b) =~= join_lines(board_lines(b)));
}

/// Lines joined with line breaks between them.
pub open spec fn join_newline(ls: Seq<Seq<char>>) -> Seq<char>
    decreases ls.len(),
{
    if ls.len() == 0 {
        Seq::empty()
    } else if ls.len() == 1 {
        ls[0]
    } else {
        join_newline(ls.drop_last()) + seq!['\n'] + ls.last()
    }
}

pub proof fn lemma_read_concat(st: ReadState, a: Seq<Seq<char>>, b: Seq<Seq<char>>)
    ensures
        read_lines(st, a + b) == match read_lines(st, a) {
            Ok(next) => read_lines(next, b),
            Err(e) => Err(e),
        },
    decreases a.len(),
{
    if a.len() == 0 {
        assert(a + b =~= b);
    } else {
        assert((a + b)[0] == a[0]);
        assert((a + b).drop_first() =~= a.drop_first() + b);
        match read_line(st, a[0]) {
            Ok(next) => lemma_read_concat(next, a.drop_first(), b),
            Err(e) => {},
        }
    }
}

proof fn lemma_read_one(st: ReadState, l: Seq<char>)
    ensures
        read_lines(st, seq![l]) == read_line(st, l),
{
    assert(seq![l].drop_first() =~= Seq::<Seq<char>>::empty());
    match read_line(st, l) {
        Ok(next) => {
            assert(read_lines(next, Seq::<Seq<char>>::empty()) == Ok::<ReadState, Seq<char>>(next));
        },
        Err(e) => {},
    }
}

proof fn lemma_not_prefix(x: Seq<char>, p: Seq<char>)
    requires
        x.len() > 0,
        p.len() > 0,
        x[0] != p[0],
    ensures
        !has_prefix(x, p),
{
    if has_prefix(x, p) {
        assert(x.subrange(0, p.len() as int)[0] == x[0]);
    }
}

proof fn lemma_prefix(p: Seq<char>, rest: Seq<char>)
    ensures
        has_prefix(p + rest, p),
        after(p + rest, p.len()) == rest,
{
    assert((p + rest).subrange(0, p.len() as int) =~= p);
    assert(after(p + rest, p.len()) =~= rest);
}

proof fn reveal_markers()
    ensures
        header_prefix().len() == 33,
        header_prefix()[0] == '<',
        forall|i: int| 0 <= i < header_prefix().len() ==> header_prefix()[i] != '\n',
        header_suffix() =~= seq![' ', '-', '-', '>'],
        "---"@ =~= seq!['-', '-', '-'],
        "kanban-plugin: board"@.len() == 20,
        "kanban-plugin: board"@[0] == 'k',
        "kanban-plugin: board"@[19] == 'd',
        forall|i: int| 0 <= i < 20 ==> "kanban-plugin: board"@[i] != '\n',
        "## "@ =~= seq!['#', '#', ' '],
        "- [ ] "@ =~= seq!['-', ' ', '[', ' ', ']', ' '],
        "- [x] "@ =~= seq!['-', ' ', '[', 'x', ']', ' '],
        "  "@ =~= seq![' ', ' '],
        "\n"@ =~= seq!['\n'],
{
    reveal_strlit("<!-- exported from trello board: ");
    reveal_strlit(" -->");
    reveal_strlit("---");
    reveal_strlit("kanban-plugin: board");
    reveal_strlit("## ");
    reveal_strlit("- [ ] ");
    reveal_strlit("- [x] ");
    reveal_strlit("  ");
    reveal_strlit("\n");
}

proof fn lemma_read_header(st: ReadState, name: Seq<char>)
    ensures
        read_line(st, header_line(name)) == Ok::<ReadState, Seq<char>>(ReadState { name, ..st }),
{
    reveal_markers();
    let h = header_line(name);
    assert(h =~= header_prefix() + (name + header_suffix()));
    lemma_prefix(header_prefix(), name + header_suffix());
    let rest = name + header_suffix();
    assert(rest.subrange(rest.len() - 4, rest.len() as int) =~= header_suffix());
    assert(rest.subrange(0, rest.len() - 4) =~= name);
}

proof fn lemma_read_front(st: ReadState)
    ensures
        read_lines(st, front_lines()) == Ok::<ReadState, Seq<char>>(st),
{
    reveal_markers();
    let f = front_lines();
    let e = Seq::<char>::empty();
    assert(!has_prefix("---"@, header_prefix()));
    assert(!has_prefix(e, header_prefix()));
    assert(is_blank(e));
    assert(!has_prefix("kanban-plugin: board"@, header_prefix()));
    assert(read_line(st, "---"@) == Ok::<ReadState, Seq<char>>(st));
    assert(read_line(st, e) == Ok::<ReadState, Seq<char>>(st));
    assert(read_line(st, "kanban-plugin: board"@) == Ok::<ReadState, Seq<char>>(st));
    reveal_with_fuel(read_lines, 7);
    assert(f.drop_first().drop_first().drop_first().drop_first().drop_first().drop_first()
        =~= Seq::<Seq<char>>::empty());
}

proof fn lemma_read_blank(st: ReadState)
    ensures
        read_line(st, Seq::<char>::empty()) == Ok::<ReadState, Seq<char>>(st),
{
    reveal_markers();
    assert(!has_prefix(Seq::<char>::empty(), header_prefix()));
    assert(is_blank(Seq::<char>::empty()));
}

/// A list name that a heading line gives back as it is.
pub open spec fn heading_name_survives(name: Seq<char>) -> bool {
    &&& forall|i: int| 0 <= i < name.len() ==> name[i] != '\n'
    &&& trim(name) == name
}

proof fn lemma_read_heading(st: ReadState, name: Seq<char>)
    requires
        trim(name) == name,
    ensures
        read_line(st, "## "@ + name) == Ok::<ReadState, Seq<char>>(
            ReadState { lists: st.lists.push(ListView { name, cards: Seq::empty() }), ..st },
        ),
{
    reveal_markers();
    let x = "## "@ + name;
    assert(x[0] == '#');
    lemma_not_prefix(x, header_prefix());
    assert(!is_white_space(x[0]));
    assert(!is_blank(x));
    assert(x != "---"@) by {
        assert(x[0] != ("---"@)[0]);
    }
    assert(x != "kanban-plugin: board"@) by {
        assert(x[0] != ("kanban-plugin: board"@)[0]);
    }
    lemma_prefix("## "@, name);
}

/// A card whose name and description come back as they are from the
/// lines `write` gives it.
pub open spec fn card_survives(c: CardView) -> bool {
    &&& forall|i: int| 0 <= i < c.name.len() ==> c.name[i] != '\n' && c.name[i] != '\r'
    &&& desc_survives(c.desc)
}

/// A description line that reads back as itself once indented.
pub open spec fn desc_line_survives(l: Seq<char>) -> bool {
    &&& plain_line(l)
    &&& !is_blank(l)
    &&& !is_labels_line("  "@ + l)
}

/// A description that comes back as it is: empty, or lines that each hold
/// something other than white space, none ending in a carriage return or
/// reading as a labels line, and that join back into the description.
pub open spec fn desc_survives(d: Seq<char>) -> bool {
    d.len() == 0 || (join_newline(lines(d)) == d && forall|i: int|
        0 <= i < lines(d).len() ==> desc_line_survives(#[trigger] lines(d)[i]))
}

pub open spec fn list_survives(l: ListView) -> bool {
    &&& heading_name_survives(l.name)
    &&& forall|j: int| 0 <= j < l.cards.len() ==> card_survives(#[trigger] l.cards[j])
}

/// A board whose every name and description comes back as it is.
pub open spec fn board_survives(b: BoardView) -> bool {
    &&& forall|i: int| 0 <= i < b.name.len() ==> b.name[i] != '\n'
    &&& forall|k: int| 0 <= k < b.lists.len() ==> list_survives(#[trigger] b.lists[k])
}

pub open spec fn push_card(st: ReadState, c: CardView) -> ReadState {
    let l = st.lists.last();
    ReadState {
        lists: st.lists.update(st.lists.len() - 1, ListView { cards: l.cards.push(c), ..l }),
        ..st
    }
}

pub open spec fn set_last_desc(st: ReadState, d: Seq<char>) -> ReadState {
    let l = st.lists.last();
    let c = l.cards.last();
    ReadState {
        lists: st.lists.update(
            st.lists.len() - 1,
            ListView { cards: l.cards.update(l.cards.len() - 1, CardView { desc: d, ..c }), ..l },
        ),
        ..st
    }
}

proof fn lemma_flattened_id(name: Seq<char>)
    requires
        forall|i: int| 0 <= i < name.len() ==> name[i] != '\n' && name[i] != '\r',
    ensures
        flattened(name) == name,
{
    assert(flattened(name) =~= name);
}

proof fn lemma_read_card_line(st: ReadState, name: Seq<char>)
    requires
        st.lists.len() > 0,
        forall|i: int| 0 <= i < name.len() ==> name[i] != '\n' && name[i] != '\r',
    ensures
        read_line(st, "- [ ] "@ + flattened(name)) == Ok::<ReadState, Seq<char>>(
            push_card(st, CardView { name, desc: Seq::empty() }),
        ),
{
    reveal_markers();
    lemma_flattened_id(name);
    let x = "- [ ] "@ + name;
    assert(x[0] == '-');
    assert(x[1] == ' ');
    lemma_not_prefix(x, header_prefix());
    assert(!is_white_space(x[0]));
    assert(!is_blank(x));
    assert(x != "---"@) by {
        assert(x[1] != ("---"@)[1]);
    }
    assert(x != "kanban-plugin: board"@) by {
        assert(x[0] != ("kanban-plugin: board"@)[0]);
    }
    lemma_not_prefix(x, "## "@);
    lemma_prefix("- [ ] "@, name);
}

proof fn lemma_read_desc_line(st: ReadState, l: Seq<char>)
    requires
        st.lists.len() > 0,
        st.lists.last().cards.len() > 0,
        !is_blank(l),
        !is_labels_line("  "@ + l),
    ensures
        read_line(st, "  "@ + l) == Ok::<ReadState, Seq<char>>(
            set_last_desc(
                st,
                if st.lists.last().cards.last().desc.len() == 0 {
                    l
                } else {
                    st.lists.last().cards.last().desc + seq!['\n'] + l
                },
            ),
        ),
{
    reveal_markers();
    let x = "  "@ + l;
    assert(x[0] == ' ');
    lemma_not_prefix(x, header_prefix());
    assert(!is_blank(x)) by {
        let i = choose|i: int| 0 <= i < l.len() && !is_white_space(l[i]);
        assert(x[i + 2] == l[i]);
    }
    assert(x != "---"@) by {
        assert(x[0] != ("---"@)[0]);
    }
    assert(x != "kanban-plugin: board"@) by {
        assert(x[0] != ("kanban-plugin: board"@)[0]);
    }
    lemma_not_prefix(x, "## "@);
    lemma_not_prefix(x, "- [ ] "@);
    lemma_not_prefix(x, "- [x] "@);
    lemma_prefix("  "@, l);
}

proof fn lemma_join_newline_nonempty(ls: Seq<Seq<char>>)
    requires
        ls.len() > 0,
        ls[0].len() > 0,
    ensures
        join_newline(ls).len() > 0,
{
}

proof fn lemma_read_desc_lines(st: ReadState, ls: Seq<Seq<char>>)
    requires
        st.lists.len() > 0,
        st.lists.last().cards.len() > 0,
        st.lists.last().cards.last().desc.len() == 0,
        forall|i: int| 0 <= i < ls.len() ==> !is_blank(#[trigger] ls[i]) && !is_labels_line(
            "  "@ + ls[i],
        ),
    ensures
        read_lines(st, indent_all(ls)) == Ok::<ReadState, Seq<char>>(
            set_last_desc(st, join_newline(ls)),
        ),
    decreases ls.len(),
{
    if ls.len() == 0 {
        assert(indent_all(ls) =~= Seq::<Seq<char>>::empty());
        assert(set_last_desc(st, join_newline(ls)) =~~= st);
    } else {
        let prev = ls.drop_last();
        lemma_read_desc_lines(st, prev);
        assert(indent_all(ls) =~= indent_all(prev) + seq!["  "@ + ls.last()]);
        lemma_read_concat(st, indent_all(prev), seq!["  "@ + ls.last()]);
        let st1 = set_last_desc(st, join_newline(prev));
        lemma_read_one(st1, "  "@ + ls.last());
        assert(!is_blank(ls[ls.len() - 1]));
        assert(!is_labels_line("  "@ + ls[ls.len() - 1]));
        lemma_read_desc_line(st1, ls.last());
        if prev.len() == 0 {
            assert(set_last_desc(st1, ls.last()) =~= set_last_desc(st, join_newline(ls)));
        } else {
            assert(!is_blank(prev[0]));
            assert(prev[0].len() > 0);
            lemma_join_newline_nonempty(prev);
            assert(set_last_desc(st1, join_newline(prev) + seq!['\n'] + ls.last())
                =~~= set_last_desc(st, join_newline(ls)));
        }
    }
}

proof fn lemma_desc_not_blank(d: Seq<char>)
    requires
        desc_survives(d),
        d.len() > 0,
    ensures
        !is_blank(d),
{
    let ls = lines(d);
    if ls.len() == 0 {
        assert(join_newline(ls) =~= Seq::<char>::empty());
    } else {
        assert(!is_blank(ls[0]));
        let i = choose|i: int| 0 <= i < ls[0].len() && !is_white_space(ls[0][i]);
        lemma_join_newline_prefix(ls);
        assert(d.subrange(0, ls[0].len() as int)[i] == d[i]);
    }
}

proof fn lemma_join_newline_prefix(ls: Seq<Seq<char>>)
    requires
        ls.len() > 0,
    ensures
        ls[0].len() <= join_newline(ls).len(),
        join_newline(ls).subrange(0, ls[0].len() as int) == ls[0],
    decreases ls.len(),
{
    if ls.len() == 1 {
        assert(join_newline(ls).subrange(0, ls[0].len() as int) =~= ls[0]);
    } else {
        let prev = ls.drop_last();
        lemma_join_newline_prefix(prev);
        assert(prev[0] == ls[0]);
        assert(join_newline(ls).subrange(0, ls[0].len() as int) =~= join_newline(prev).subrange(
            0,
            ls[0].len() as int,
        ));
    }
}

proof fn lemma_read_card(st: ReadState, c: CardView)
    requires
        st.lists.len() > 0,
        card_survives(c),
    ensures
        read_lines(st, card_lines(c)) == Ok::<ReadState, Seq<char>>(push_card(st, c)),
{
    let first = "- [ ] "@ + flattened(c.name);
    let st1 = push_card(st, CardView { name: c.name, desc: Seq::empty() });
    lemma_read_card_line(st, c.name);
    lemma_read_one(st, first);
    if is_blank(c.desc) {
        if c.desc.len() > 0 {
            lemma_desc_not_blank(c.desc);
        }
        assert(card_lines(c) =~= seq![first]);
        assert(st1 =~~= push_card(st, c));
    } else {
        let ls = lines(c.desc);
        assert(card_lines(c) =~= seq![first] + indent_all(ls));
        lemma_read_concat(st, seq![first], indent_all(ls));
        assert forall|i: int| 0 <= i < ls.len() implies !is_blank(#[trigger] ls[i])
            && !is_labels_line("  "@ + ls[i]) by {
            if c.desc.len() == 0 {
                assert(ls =~= Seq::<Seq<char>>::empty());
            }
        }
        lemma_read_desc_lines(st1, ls);
        if c.desc.len() == 0 {
            assert(ls =~= Seq::<Seq<char>>::empty());
            assert(is_blank(c.desc));
        }
        assert(join_newline(ls) == c.desc);
        assert(set_last_desc(st1, c.desc) =~~= push_card(st, c));
    }
}

pub open spec fn with_last_cards(st: ReadState, cs: Seq<CardView>) -> ReadState {
    let l = st.lists.last();
    ReadState {
        lists: st.lists.update(st.lists.len() - 1, ListView { cards: l.cards + cs, ..l }),
        ..st
    }
}

proof fn lemma_read_cards(st: ReadState, cs: Seq<CardView>)
    requires
        st.lists.len() > 0,
        forall|j: int| 0 <= j < cs.len() ==> card_survives(#[trigger] cs[j]),
    ensures
        read_lines(st, cards_lines(cs)) == Ok::<ReadState, Seq<char>>(with_last_cards(st, cs)),
    decreases cs.len(),
{
    if cs.len() == 0 {
        assert(with_last_cards(st, cs) =~= st);
    } else {
        let prev = cs.drop_last();
        lemma_read_cards(st, prev);
        lemma_read_concat(st, cards_lines(prev), card_lines(cs.last()));
        let st1 = with_last_cards(st, prev);
        assert(card_survives(cs[cs.len() - 1]));
        lemma_read_card(st1, cs.last());
        assert(push_card(st1, cs.last()) =~~= with_last_cards(st, cs));
    }
}

proof fn lemma_read_list(st: ReadState, l: ListView)
    requires
        list_survives(l),
    ensures
        read_lines(st, list_lines(l)) == Ok::<ReadState, Seq<char>>(
            ReadState { lists: st.lists.push(l), ..st },
        ),
{
    let e = Seq::<char>::empty();
    let head = "## "@ + l.name;
    let st1 = ReadState { lists: st.lists.push(ListView { name: l.name, cards: Seq::empty() }), ..st };
    lemma_read_heading(st, l.name);
    lemma_read_blank(st1);
    lemma_read_concat(st, seq![head], seq![e]);
    lemma_read_one(st, head);
    lemma_read_one(st1, e);
    assert(seq![head] + seq![e] =~= seq![head, e]);
    lemma_read_cards(st1, l.cards);
    lemma_read_concat(st, seq![head, e], cards_lines(l.cards));
    let st2 = with_last_cards(st1, l.cards);
    lemma_read_blank(st2);
    lemma_read_one(st2, e);
    lemma_read_concat(st, seq![head, e] + cards_lines(l.cards), seq![e]);
    assert(st2 =~= ReadState { lists: st.lists.push(l), ..st });
}

proof fn lemma_read_lists(st: ReadState, ls: Seq<ListView>)
    requires
        forall|k: int| 0 <= k < ls.len() ==> list_survives(#[trigger] ls[k]),
    ensures
        read_lines(st, lists_lines(ls)) == Ok::<ReadState, Seq<char>>(
            ReadState { lists: st.lists + ls, ..st },
        ),
    decreases ls.len(),
{
    if ls.len() == 0 {
        assert(ReadState { lists: st.lists + ls, ..st } =~= st);
    } else {
        let prev = ls.drop_last();
        lemma_read_lists(st, prev);
        lemma_read_concat(st, lists_lines(prev), list_lines(ls.last()));
        let st1 = ReadState { lists: st.lists + prev, ..st };
        assert(list_survives(ls[ls.len() - 1]));
        lemma_read_list(st1, ls.last());
        assert(ReadState { lists: st1.lists.push(ls.last()), ..st1 } =~= ReadState {
            lists: st.lists + ls,
            ..st
        });
    }
}

pub open spec fn all_plain(ls: Seq<Seq<char>>) -> bool {
    forall|i: int| 0 <= i < ls.len() ==> plain_line(#[trigger] ls[i])
}

proof fn lemma_all_plain_concat(a: Seq<Seq<char>>, b: Seq<Seq<char>>)
    requires
        all_plain(a),
        all_plain(b),
    ensures
        all_plain(a + b),
{
    assert forall|i: int| 0 <= i < (a + b).len() implies plain_line(#[trigger] (a + b)[i]) by {
        if i < a.len() {
            assert((a + b)[i] == a[i]);
        } else {
            assert((a + b)[i] == b[i - a.len()]);
        }
    }
}

proof fn lemma_trimmed_last(s: Seq<char>)
    requires
        trim(s) == s,
        s.len() > 0,
    ensures
        !is_white_space(s.last()),
{
    lemma_trim_start_bounds(s, 0);
    let a = trim_start_from(s, 0);
    lemma_trim_end_bounds(s, a, s.len() as int);
    let e = trim_end_from(s, a, s.len() as int);
    assert(trim(s).len() == e - a);
    if is_white_space(s.last()) {
        assert(a == 0);
        lemma_trim_end_bounds(s, 0, s.len() - 1);
    }
}

proof fn lemma_plain_concat(p: Seq<char>, x: Seq<char>)
    requires
        forall|i: int| 0 <= i < p.len() ==> p[i] != '\n',
        forall|i: int| 0 <= i < x.len() ==> x[i] != '\n',
        x.len() > 0 ==> x.last() != '\r',
        x.len() == 0 ==> p.len() > 0 && p.last() != '\r',
    ensures
        plain_line(p + x),
{
    assert forall|i: int| 0 <= i < (p + x).len() implies (p + x)[i] != '\n' by {
        if i < p.len() {
            assert((p + x)[i] == p[i]);
        } else {
            assert((p + x)[i] == x[i - p.len()]);
        }
    }
    if x.len() > 0 {
        assert((p + x).last() == x.last());
    } else {
        assert(p + x =~= p);
    }
}

proof fn lemma_card_plain(c: CardView)
    requires
        card_survives(c),
    ensures
        all_plain(card_lines(c)),
{
    reveal_markers();
    let sl = flattened(c.name);
    assert forall|i: int| 0 <= i < sl.len() implies sl[i] != '\n' by {}
    if sl.len() > 0 {
        assert(sl.last() == sl[sl.len() - 1]);
    }
    lemma_plain_concat("- [ ] "@, sl);
    let first = seq!["- [ ] "@ + sl];
    assert(all_plain(first));
    if is_blank(c.desc) {
        assert(card_lines(c) =~= first + Seq::<Seq<char>>::empty());
        assert(all_plain(card_lines(c)));
    } else {
        let ls = lines(c.desc);
        assert(c.desc.len() > 0);
        assert forall|i: int| 0 <= i < indent_all(ls).len() implies plain_line(
            #[trigger] indent_all(ls)[i],
        ) by {
            assert(plain_line(ls[i]) && !is_blank(ls[i]));
            assert(ls[i].len() > 0);
            lemma_plain_concat("  "@, ls[i]);
        }
        lemma_all_plain_concat(first, indent_all(ls));
    }
}

proof fn lemma_cards_plain(cs: Seq<CardView>)
    requires
        forall|j: int| 0 <= j < cs.len() ==> card_survives(#[trigger] cs[j]),
    ensures
        all_plain(cards_lines(cs)),
    decreases cs.len(),
{
    if cs.len() > 0 {
        lemma_cards_plain(cs.drop_last());
        assert(card_survives(cs[cs.len() - 1]));
        lemma_card_plain(cs.last());
        lemma_all_plain_concat(cards_lines(cs.drop_last()), card_lines(cs.last()));
    }
}

proof fn lemma_list_plain(l: ListView)
    requires
        list_survives(l),
    ensures
        all_plain(list_lines(l)),
{
    reveal_markers();
    if l.name.len() > 0 {
        lemma_trimmed_last(l.name);
    }
    lemma_plain_concat("## "@, l.name);
    let head = seq!["## "@ + l.name, Seq::<char>::empty()];
    assert(all_plain(head));
    lemma_cards_plain(l.cards);
    lemma_all_plain_concat(head, cards_lines(l.cards));
    assert(all_plain(seq![Seq::<char>::empty()]));
    lemma_all_plain_concat(head + cards_lines(l.cards), seq![Seq::<char>::empty()]);
}

proof fn lemma_lists_plain(ls: Seq<ListView>)
    requires
        forall|k: int| 0 <= k < ls.len() ==> list_survives(#[trigger] ls[k]),
    ensures
        all_plain(lists_lines(ls)),
    decreases ls.len(),
{
    if ls.len() > 0 {
        lemma_lists_plain(ls.drop_last());
        assert(list_survives(ls[ls.len() - 1]));
        lemma_list_plain(ls.last());
        lemma_all_plain_concat(lists_lines(ls.drop_last()), list_lines(ls.last()));
    }
}

/// Reading back what `write` wrote gives the board that was written, for
/// every board whose names hold no line break, whose list names carry no
/// surrounding white space, whose card names hold no carriage return, and
/// whose descriptions are empty or made of lines that each hold something
/// other than white space, do not end in a carriage return and do not read
/// as a hidden labels line.
#[verifier::spinoff_prover]
#[verifier::rlimit(30)]
pub proof fn write_then_read(b: BoardView)
    requires
        board_survives(b),
    ensures
        spec_read_board(board_text(b)) == Ok::<BoardView, Seq<char>>(b),
{
    reveal_markers();
    lemma_board_text(b);
    let h = header_line(b.name);
    lemma_plain_concat(header_prefix(), b.name + header_suffix());
    assert(h =~= header_prefix() + (b.name + header_suffix()));
    assert forall|i: int| 0 <= i < (b.name + header_suffix()).len() implies (b.name
        + header_suffix())[i] != '\n' by {
        if i < b.name.len() {
            assert((b.name + header_suffix())[i] == b.name[i]);
        } else {
            assert((b.name + header_suffix())[i] == header_suffix()[i - b.name.len()]);
        }
    }
    assert(all_plain(seq![h]));
    let f = front_lines();
    assert(plain_line(f[0]));
    assert(("kanban-plugin: board"@).last() == 'd');
    assert(plain_line(f[2]));
    assert(all_plain(f));
    lemma_all_plain_concat(seq![h], f);
    lemma_lists_plain(b.lists);
    lemma_all_plain_concat(seq![h] + f, lists_lines(b.lists));
    lemma_lines_join(board_lines(b));
    let st0 = start_state();
    let st1 = ReadState { name: b.name, ..st0 };
    lemma_read_header(st0, b.name);
    lemma_read_one(st0, h);
    lemma_read_front(st1);
    lemma_read_concat(st0, seq![h], f);
    lemma_read_lists(st1, b.lists);
    lemma_read_concat(st0, seq![h] + f, lists_lines(b.lists));
    assert(st1.lists + b.lists =~= b.lists);
}

/// Where `a` ends in a line break, finding the next line break from a
/// position in `a` does not look past `a`.
proof fn lemma_newline_in_prefix(a: Seq<char>, c: Seq<char>, j: int)
    requires
        a.len() > 0,
        a.last() == '\n',
        0 <= j < a.len(),
    ensures
        newline_from(a + c, j) == newline_from(a, j),
        newline_from(a, j) < a.len(),
    decreases a.len() - j,
{
    assert((a + c)[j] == a[j]);
    if a[j] != '\n' {
        assert(j + 1 < a.len());
        lemma_newline_in_prefix(a, c, j + 1);
    }
}

proof fn lemma_lines_from_prefix(a: Seq<char>, c: Seq<char>, j: int)
    requires
        a.len() == 0 || a.last() == '\n',
        0 <= j <= a.len(),
    ensures
        lines_from(a + c, j) == lines_from(a, j) + lines_from(a + c, a.len() as int),
    decreases a.len() - j,
{
    let s = a + c;
    if j == a.len() {
        assert(lines_from(a, j) =~= Seq::<Seq<char>>::empty());
        assert(lines_from(a, j) + lines_from(s, j) =~= lines_from(s, j));
    } else {
        lemma_newline_in_prefix(a, c, j);
        crate::text::lemma_newline_from(a, j);
        let e = newline_from(a, j);
        assert(s.subrange(j, e) =~= a.subrange(j, e));
        lemma_lines_from_prefix(a, c, e + 1);
        assert(lines_from(s, j) =~= seq![strip_cr(a.subrange(j, e))] + lines_from(s, e + 1));
        assert(lines_from(a, j) =~= seq![strip_cr(a.subrange(j, e))] + lines_from(a, e + 1));
    }
}

/// Text that ends in a line break splits into lines apart from what follows.
pub proof fn lemma_lines_concat(a: Seq<char>, c: Seq<char>)
    requires
        a.len() == 0 || a.last() == '\n',
    ensures
        lines(a + c) == lines(a) + lines(c),
{
    lemma_lines_from_prefix(a, c, 0);
    lemma_lines_shift(a + c, a.len() as int, a.len() as int);
    assert((a + c).subrange(a.len() as int, (a + c).len() as int) =~= c);
}

/// Whether the reader passes over a line without a trace: blank lines and
/// the frontmatter lines.
pub open spec fn skipped_line(x: Seq<char>) -> bool {
    &&& plain_line(x)
    &&& (is_blank(x) || x == "---"@ || x == "kanban-plugin: board"@)
}

proof fn lemma_not_header(x: Seq<char>)
    requires
        skipped_line(x),
    ensures
        !has_prefix(x, header_prefix()),
{
    reveal_markers();
    if x.len() > 0 {
        if x == "---"@ {
            assert(x[0] == '-');
        } else if x == "kanban-plugin: board"@ {
            assert(x[0] == 'k');
        } else {
            assert(is_white_space(x[0]));
        }
        lemma_not_prefix(x, header_prefix());
    }
}

proof fn lemma_read_skipped(st: ReadState, x: Seq<char>)
    requires
        skipped_line(x),
    ensures
        read_line(st, x) == Ok::<ReadState, Seq<char>>(st),
{
    lemma_not_header(x);
}

/// A blank line or a frontmatter line put anywhere between the lines of a
/// markdown board changes nothing that is read from it, board or error.
pub proof fn skipped_line_changes_nothing(a: Seq<char>, x: Seq<char>, b: Seq<char>)
    requires
        a.len() == 0 || a.last() == '\n',
        skipped_line(x),
    ensures
        spec_read_board(a + x + seq!['\n'] + b) == spec_read_board(a + b),
{
    let xl = x + seq!['\n'];
    lemma_join_one(x);
    assert(forall|i: int| 0 <= i < seq![x].len() ==> plain_line(#[trigger] seq![x][i]));
    lemma_lines_join(seq![x]);
    assert(lines(xl) == seq![x]);
    lemma_lines_concat(xl, b);
    lemma_lines_concat(a, xl + b);
    lemma_lines_concat(a, b);
    assert(a + x + seq!['\n'] + b =~= a + (xl + b));
    let la = lines(a);
    let lb = lines(b);
    assert(lines(a + x + seq!['\n'] + b) == la + (seq![x] + lb));
    lemma_read_concat(start_state(), la, seq![x] + lb);
    lemma_read_concat(start_state(), la, lb);
    match read_lines(start_state(), la) {
        Ok(st) => {
            lemma_read_concat(st, seq![x], lb);
            lemma_read_one(st, x);
            lemma_read_skipped(st, x);
        },
        Err(_) => {},
    }
}

proof fn lemma_join_front(x: Seq<char>, rest: Seq<Seq<char>>)
    requires
        rest.len() > 0,
    ensures
        join_newline(seq![x] + rest) == x + seq!['\n'] + join_newline(rest),
    decreases rest.len(),
{
    let all = seq![x] + rest;
    if rest.len() == 1 {
        assert(all.drop_last() =~= seq![x]);
        assert(join_newline(all.drop_last()) == x);
        assert(all.last() == rest[0]);
        assert(join_newline(rest) == rest[0]);
        assert(join_newline(all) == join_newline(all.drop_last()) + seq!['\n'] + all.last());
    } else {
        lemma_join_front(x, rest.drop_last());
        assert(all.drop_last() =~= seq![x] + rest.drop_last());
        assert(join_newline(all) =~= x + seq!['\n'] + join_newline(rest));
    }
}

/// The lines of text without carriage returns that does not end in a line
/// break join back into the text, and hold no line break or carriage return.
proof fn lemma_lines_rejoin(d: Seq<char>, j: int)
    requires
        0 <= j < d.len(),
        d.last() != '\n',
        forall|i: int| 0 <= i < d.len() ==> d[i] != '\r',
    ensures
        join_newline(lines_from(d, j)) == d.subrange(j, d.len() as int),
        forall|i: int| 0 <= i < lines_from(d, j).len() ==> plain_line(#[trigger] lines_from(d, j)[i]),
    decreases d.len() - j,
{
    crate::text::lemma_newline_from(d, j);
    let e = newline_from(d, j);
    let ls = lines_from(d, j);
    if e >= d.len() {
        let l = d.subrange(j, d.len() as int);
        assert(ls =~= seq![l]);
        assert(plain_line(l)) by {
            assert forall|i: int| 0 <= i < l.len() implies l[i] != '\n' by {
                assert(l[i] == d[j + i]);
            }
        }
    } else {
        let l = d.subrange(j, e);
        assert(e + 1 < d.len());
        assert(l.len() == 0 || l.last() == d[e - 1]);
        assert(strip_cr(l) == l);
        lemma_lines_rejoin(d, e + 1);
        let rest = lines_from(d, e + 1);
        assert(ls =~= seq![l] + rest);
        assert(rest.len() > 0);
        lemma_join_front(l, rest);
        assert(d.subrange(j, d.len() as int) =~= l + seq!['\n'] + d.subrange(e + 1, d.len() as int));
        assert(plain_line(l)) by {
            assert forall|i: int| 0 <= i < l.len() implies l[i] != '\n' by {
                assert(l[i] == d[j + i]);
            }
        }
        assert forall|i: int| 0 <= i < ls.len() implies plain_line(#[trigger] ls[i]) by {
            if i > 0 {
                assert(ls[i] == rest[i - 1]);
            }
        }
    }
}

/// Text on one line: no line break or carriage return.
pub open spec fn one_line(s: Seq<char>) -> bool {
    forall|i: int| 0 <= i < s.len() ==> s[i] != '\n' && s[i] != '\r'
}

/// A description without carriage returns, not ending in a line break, none
/// of whose lines is blank or starts with `%%labels:`.
pub open spec fn plain_desc(d: Seq<char>) -> bool {
    &&& forall|i: int| 0 <= i < d.len() ==> d[i] != '\r'
    &&& !(d.len() > 0 && d.last() == '\n')
    &&& forall|i: int|
        0 <= i < lines(d).len() ==> !is_blank(#[trigger] lines(d)[i]) && !has_prefix(
            lines(d)[i],
            "%%labels:"@,
        )
}

/// A board whose names are each on one line, whose list names carry no
/// surrounding white space, and whose descriptions are plain.
pub open spec fn plain_board(b: BoardView) -> bool {
    &&& one_line(b.name)
    &&& forall|k: int|
        0 <= k < b.lists.len() ==> {
            let l = #[trigger] b.lists[k];
            &&& one_line(l.name)
            &&& trim(l.name) == l.name
            &&& forall|j: int|
                0 <= j < l.cards.len() ==> one_line((#[trigger] l.cards[j]).name) && plain_desc(
                    l.cards[j].desc,
                )
        }
}

proof fn lemma_not_labels(l: Seq<char>)
    requires
        !has_prefix(l, "%%labels:"@),
    ensures
        !is_labels_line("  "@ + l),
{
    reveal_strlit("  %%labels:");
    reveal_strlit("%%labels:");
    reveal_strlit("  ");
    let x = "  "@ + l;
    if has_prefix(x, labels_prefix()) {
        assert(l.subrange(0, 9) =~= "%%labels:"@) by {
            assert forall|i: int| 0 <= i < 9 implies l.subrange(0, 9)[i] == ("%%labels:"@)[i] by {
                assert(x.subrange(0, 11)[i + 2] == x[i + 2]);
                assert(x[i + 2] == l[i]);
            }
        }
    }
}

proof fn lemma_plain_desc(d: Seq<char>)
    requires
        plain_desc(d),
    ensures
        desc_survives(d),
{
    if d.len() > 0 {
        lemma_lines_rejoin(d, 0);
        assert(d.subrange(0, d.len() as int) =~= d);
        assert forall|i: int| 0 <= i < lines(d).len() implies desc_line_survives(
            #[trigger] lines(d)[i],
        ) by {
            lemma_not_labels(lines(d)[i]);
        }
    }
}

/// Reading back what `write` wrote gives the board that was written, for
/// every board whose names are each on one line, whose list names carry no
/// surrounding white space, and whose descriptions have no carriage return,
/// do not end in a line break, and have no line that is blank or starts
/// with `%%labels:`.
pub proof fn plain_board_reads_back(b: BoardView)
    requires
        plain_board(b),
    ensures
        spec_read_board(board_text(b)) == Ok::<BoardView, Seq<char>>(b),
{
    assert forall|k: int| 0 <= k < b.lists.len() implies list_survives(#[trigger] b.lists[k]) by {
        let l = b.lists[k];
        assert forall|j: int| 0 <= j < l.cards.len() implies card_survives(#[trigger] l.cards[j]) by {
            lemma_plain_desc(l.cards[j].desc);
        }
    }
    write_then_read(b);
}

/// How `write` gives a card: its item line, then, unless the description is
/// blank, every line of the description in order, each indented by two
/// spaces and ended by a line break.
pub open spec fn card_as_written(c: CardView) -> Seq<char> {
    "- [ ] "@ + flattened(c.name) + "\n"@ + if is_blank(c.desc) {
        Seq::<char>::empty()
    } else {
        join_lines(indent_all(lines(c.desc)))
    }
}

proof fn lemma_cards_hold(cs: Seq<CardView>, j: int)
    requires
        0 <= j < cs.len(),
    ensures
        holds_text(cards_text(cs), card_as_written(cs[j])),
    decreases cs.len(),
{
    let c = cs[j];
    if !is_blank(c.desc) {
        lemma_desc_text(lines(c.desc));
    }
    assert(card_text(c) == card_as_written(c));
    if j == cs.len() - 1 {
        lemma_holds_middle(cards_text(cs.drop_last()), card_text(c), Seq::<char>::empty());
        assert(cards_text(cs) =~= cards_text(cs.drop_last()) + card_text(c) + Seq::<char>::empty());
    } else {
        lemma_cards_hold(cs.drop_last(), j);
        lemma_holds_extend(
            Seq::<char>::empty(),
            cards_text(cs.drop_last()),
            card_text(cs.last()),
            card_as_written(c),
        );
        assert(cards_text(cs) =~= Seq::<char>::empty() + cards_text(cs.drop_last()) + card_text(
            cs.last(),
        ));
    }
}

proof fn lemma_lists_hold(ls: Seq<ListView>, k: int, j: int)
    requires
        0 <= k < ls.len(),
        0 <= j < ls[k].cards.len(),
    ensures
        holds_text(lists_text(ls), card_as_written(ls[k].cards[j])),
    decreases ls.len(),
{
    let piece = card_as_written(ls[k].cards[j]);
    if k == ls.len() - 1 {
        let l = ls[k];
        lemma_cards_hold(l.cards, j);
        lemma_holds_extend("## "@ + l.name + "\n\n"@, cards_text(l.cards), "\n"@, piece);
        assert(list_text(l) =~= "## "@ + l.name + "\n\n"@ + cards_text(l.cards) + "\n"@);
        lemma_holds_extend(lists_text(ls.drop_last()), list_text(l), Seq::<char>::empty(), piece);
        assert(lists_text(ls) =~= lists_text(ls.drop_last()) + list_text(l) + Seq::<char>::empty());
    } else {
        lemma_lists_hold(ls.drop_last(), k, j);
        lemma_holds_extend(
            Seq::<char>::empty(),
            lists_text(ls.drop_last()),
            list_text(ls.last()),
            piece,
        );
        assert(lists_text(ls) =~= Seq::<char>::empty() + lists_text(ls.drop_last()) + list_text(
            ls.last(),
        ));
    }
}

/// The text `write` gives a board holds every card of every list as its item
/// line followed, unless its description is blank, by every line of the
/// description in order, each indented by two spaces and ended by a line
/// break; no description line is left out.
pub proof fn write_shows_every_card(b: BoardView, k: int, j: int)
    requires
        0 <= k < b.lists.len(),
        0 <= j < b.lists[k].cards.len(),
    ensures
        holds_text(board_text(b), card_as_written(b.lists[k].cards[j])),
{
    lemma_lists_hold(b.lists, k, j);
    let front = header_prefix() + b.name + header_suffix() + "\n"@ + frontmatter();
    lemma_holds_extend(front, lists_text(b.lists), Seq::<char>::empty(), card_as_written(b.lists[k].cards[j]));
    assert(board_text(b) =~= front + lists_text(b.lists) + Seq::<char>::empty());
}

} // verus!
