use lib::obsidian;
use lib::obsidian::parse;
use lib::trello::{Board, Card, List};

fn board(name: &str, lists: Vec<(&str, Vec<(&str, &str)>)>) -> Board {
    Board {
        name: name.to_string(),
        lists: lists
            .into_iter()
            .map(|(n, cards)| List {
                name: n.to_string(),
                cards: cards
                    .into_iter()
                    .map(|(c, d)| Card { name: c.to_string(), desc: d.to_string() })
                    .collect(),
            })
            .collect(),
    }
}

fn shape(b: &Board) -> (String, Vec<(String, Vec<(String, String)>)>) {
    (
        b.name.clone(),
        b.lists
            .iter()
            .map(|l| (l.name.clone(), l.cards.iter().map(|c| (c.name.clone(), c.desc.clone())).collect()))
            .collect(),
    )
}

#[test]
fn writes_the_kanban_shape() {
    let b = board(
        "Project",
        vec![
            ("To do", vec![("Write the JSON parser", "")]),
            ("In progress", vec![("Wire up the CLI", "first pass, no error handling yet")]),
        ],
    );
    assert_eq!(
        obsidian::write(&b),
        "<!-- exported from trello board: Project -->\n---\n\nkanban-plugin: board\n\n---\n\n## To do\n\n- [ ] Write the JSON parser\n\n## In progress\n\n- [ ] Wire up the CLI\n  first pass, no error handling yet\n\n"
    );
}

#[test]
fn card_names_are_kept_on_one_line_and_blank_descriptions_dropped() {
    let b = board("B", vec![("L", vec![("two\nlines\r", "   \n\t"), ("c", "a\r\nb\n")])]);
    assert_eq!(
        obsidian::write(&b),
        "<!-- exported from trello board: B -->\n---\n\nkanban-plugin: board\n\n---\n\n## L\n\n- [ ] two lines \n- [ ] c\n  a\n  b\n\n"
    );
}

#[test]
fn written_boards_read_back() {
    let b = board(
        "My board",
        vec![
            ("To do", vec![("a", ""), ("b", "one\ntwo  \n  three")]),
            ("", vec![]),
            ("Done", vec![("- [ ] nested", "x")]),
        ],
    );
    let back = parse(&obsidian::write(&b)).unwrap();
    assert_eq!(shape(&back), shape(&b));
}

#[test]
fn reads_hand_written_files() {
    let md = "---\nkanban-plugin: board\n---\n\n##   Backlog  \r\n- [x] done item\n  line one\n  line two\n- [ ] open item\n";
    let b = parse(md).unwrap();
    assert_eq!(
        shape(&b),
        (
            "Untitled Board".to_string(),
            vec![(
                "Backlog".to_string(),
                vec![
                    ("done item".to_string(), "line one\nline two".to_string()),
                    ("open item".to_string(), "".to_string()),
                ]
            )]
        )
    );
}

#[test]
fn header_without_closing_keeps_default_name() {
    let b = parse("<!-- exported from trello board: x\n## L\n").unwrap();
    assert_eq!(b.name, "Untitled Board");
    assert_eq!(b.lists.len(), 1);
}

#[test]
fn read_errors() {
    let cases: Vec<(&str, &str)> = vec![
        ("- [ ] card\n", "found a card before any list heading"),
        ("  desc\n", "found a description line before any list heading"),
        ("## L\n  desc\n", "found a description line before any card"),
        ("## L\nplain text\n", "unrecognized line: \"plain text\""),
    ];
    for (md, message) in cases {
        assert_eq!(parse(md).err().unwrap(), message, "markdown {:?}", md);
    }
}

#[test]
fn labels_lines_are_checked_and_dropped() {
    let md = "## L\n- [ ] c\n  %%labels:[{\"name\":\"x\",\"color\":\"red\"}]%%\n  real description\n";
    let b = parse(md).unwrap();
    assert_eq!(
        shape(&b),
        (
            "Untitled Board".to_string(),
            vec![("L".to_string(), vec![("c".to_string(), "real description".to_string())])]
        )
    );
    let unclosed = parse("## L\n- [ ] c\n  %%labels:x\n").unwrap();
    assert_eq!(unclosed.lists[0].cards[0].desc, "%%labels:x");
}

#[test]
fn labels_line_errors() {
    let cases: Vec<(&str, &str)> = vec![
        ("  %%labels:[]%%\n", "found a labels line before any list heading"),
        ("## L\n  %%labels:[]%%\n", "found a labels line before any card"),
        ("## L\n- [ ] c\n  %%labels:[%%\n", "invalid %%labels%% metadata: unexpected end of input (at byte 1)"),
        ("## L\n- [ ] c\n  %%labels:%%\n", "invalid %%labels%% metadata: unexpected end of input (at byte 0)"),
    ];
    for (md, message) in cases {
        assert_eq!(parse(md).err().unwrap(), message, "markdown {:?}", md);
    }
}

#[test]
fn blank_and_frontmatter_lines_are_skipped_anywhere() {
    let md = "## L\n- [ ] c\n  a\n  b\n";
    let base = shape(&parse(md).unwrap());
    for inserted in ["", "   ", "---", "kanban-plugin: board"] {
        for cut in [0, 5, 13, 17, md.len()] {
            let with = format!("{}{}\n{}", &md[..cut], inserted, &md[cut..]);
            assert_eq!(shape(&parse(&with).unwrap()), base, "{:?}", with);
        }
    }
    let bad = "- [ ] early\n";
    assert_eq!(parse(&format!("---\n{}", bad)).err(), parse(bad).err());
}

#[test]
fn plain_boards_read_back() {
    let b = board(
        "Plain board",
        vec![("One", vec![("card", "first line\nsecond line"), ("empty", "")]), ("Two", vec![])],
    );
    assert_eq!(shape(&parse(&obsidian::write(&b)).unwrap()), shape(&b));
}
