use lib::json::{number_tokens, parse, Json};
use lib::position::PositionKeys;
use lib::trello::{export, import, Board, Card, ImportStats, List};

fn order_key(x: f64) -> u64 {
    let x = if x == 0.0 { 0.0 } else { x };
    let bits = x.to_bits();
    if bits >> 63 == 1 {
        !bits
    } else {
        bits | (1u64 << 63)
    }
}

fn float_keys(root: &Json) -> PositionKeys {
    let mut keys = PositionKeys::new(order_key(0.0));
    for token in number_tokens(root) {
        let value: f64 = std::str::from_utf8(&token).unwrap().parse().unwrap();
        keys.add(&token, order_key(value));
    }
    keys
}

fn import_floats(root: &Json) -> Result<(Board, ImportStats), String> {
    import(root, &float_keys(root))
}

fn names(board: &Board) -> Vec<(String, Vec<(String, String)>)> {
    board
        .lists
        .iter()
        .map(|l| (l.name.clone(), l.cards.iter().map(|c| (c.name.clone(), c.desc.clone())).collect()))
        .collect()
}

const EXPORT: &str = r#"{
  "name": "Project",
  "lists": [
    {"id": "l2", "name": "In progress", "closed": false, "pos": 32768},
    {"id": "l1", "name": "To do", "closed": false, "pos": 16384},
    {"id": "l3", "name": "Old", "closed": true, "pos": 1}
  ],
  "cards": [
    {"id": "c1", "name": "Wire up the CLI", "desc": "first pass, no error handling yet", "idList": "l2", "pos": 5},
    {"id": "c2", "name": "Write the JSON parser", "desc": "", "idList": "l1", "pos": 2.5},
    {"id": "c3", "name": "Archived", "idList": "l1", "closed": true},
    {"id": "c4", "name": "Lost", "idList": "l3"},
    {"id": "c5", "name": "Nowhere"},
    {"id": "c6", "name": "Earlier", "idList": "l1", "pos": 1e0}
  ]
}"#;

#[test]
fn imports_open_lists_and_cards_in_position_order() {
    let root = parse(EXPORT).unwrap();
    let (board, stats) = import_floats(&root).unwrap();
    assert_eq!(board.name, "Project");
    assert_eq!(
        names(&board),
        vec![
            (
                "To do".to_string(),
                vec![
                    ("Earlier".to_string(), "".to_string()),
                    ("Write the JSON parser".to_string(), "".to_string()),
                ]
            ),
            (
                "In progress".to_string(),
                vec![("Wire up the CLI".to_string(), "first pass, no error handling yet".to_string())]
            ),
        ]
    );
    assert_eq!(stats.closed_lists_skipped, 1);
    assert_eq!(stats.closed_cards_skipped, 1);
    assert_eq!(stats.orphaned_cards_skipped, 2);
    assert_eq!(
        stats.warnings,
        vec![
            "card \"Lost\" references list id \"l3\" which is archived or missing; skipped".to_string(),
            "card \"Nowhere\" has no idList; skipped".to_string(),
        ]
    );
}

#[test]
fn defaults_for_missing_names() {
    let root = parse(r#"{"lists":[{"id":"a"}],"cards":[{"idList":"a"}]}"#).unwrap();
    let (board, stats) = import_floats(&root).unwrap();
    assert_eq!(board.name, "Untitled Board");
    assert_eq!(names(&board), vec![("Untitled List".to_string(), vec![("Untitled Card".to_string(), "".to_string())])]);
    assert_eq!(stats.orphaned_cards_skipped, 0);
    assert!(stats.warnings.is_empty());
}

#[test]
fn positions_compare_by_value() {
    let root = parse(
        r#"{"lists":[
            {"id":"a","name":"ten","pos":1e1},
            {"id":"b","name":"minus","pos":-3},
            {"id":"c","name":"nine and a half","pos":9.50},
            {"id":"d","name":"zero","pos":-0.0},
            {"id":"e","name":"none"},
            {"id":"f","name":"tiny","pos":0.001},
            {"id":"g","name":"hundred","pos":100}
        ],"cards":[]}"#,
    )
    .unwrap();
    let (board, _) = import_floats(&root).unwrap();
    let order: Vec<String> = board.lists.iter().map(|l| l.name.clone()).collect();
    assert_eq!(order, vec!["minus", "zero", "none", "tiny", "nine and a half", "ten", "hundred"]);
}

#[test]
fn equal_positions_keep_document_order() {
    let root = parse(r#"{"lists":[{"id":"a","name":"A","pos":2},{"id":"b","name":"B","pos":2.0},{"id":"c","name":"C","pos":1}],"cards":[]}"#).unwrap();
    let (board, _) = import_floats(&root).unwrap();
    let order: Vec<String> = board.lists.iter().map(|l| l.name.clone()).collect();
    assert_eq!(order, vec!["C", "A", "B"]);
}

#[test]
fn import_errors() {
    let cases: Vec<(&str, &str)> = vec![
        (r#"{"cards":[]}"#, "missing a \"lists\" array"),
        (r#"{"lists":{},"cards":[]}"#, "missing a \"lists\" array"),
        (r#"{"lists":[]}"#, "missing a \"cards\" array"),
        (r#"{"lists":[{"name":"x"}],"cards":[]}"#, "a list entry is missing \"id\""),
        (r#"{"lists":[{"id":3}]}"#, "a list entry is missing \"id\""),
        ("[]", "missing a \"lists\" array"),
    ];
    for (doc, message) in cases {
        let root = parse(doc).unwrap();
        assert_eq!(import_floats(&root).err().unwrap(), message, "document {}", doc);
    }
}

#[test]
fn archived_lists_need_no_id() {
    let root = parse(r#"{"lists":[{"closed":true}],"cards":[]}"#).unwrap();
    let (board, stats) = import_floats(&root).unwrap();
    assert!(board.lists.is_empty());
    assert_eq!(stats.closed_lists_skipped, 1);
}

fn sample_board() -> Board {
    Board {
        name: "Board \"one\"".to_string(),
        lists: vec![
            List {
                name: "To do".to_string(),
                cards: vec![
                    Card { name: "Write the JSON parser".to_string(), desc: "".to_string() },
                    Card { name: "Tabs\tand \\ slashes".to_string(), desc: "two\nlines".to_string() },
                ],
            },
            List { name: "Empty".to_string(), cards: vec![] },
            List {
                name: "Done".to_string(),
                cards: vec![Card { name: "Ship".to_string(), desc: "ünï ✓".to_string() }],
            },
        ],
    }
}

#[test]
fn export_text() {
    let board = Board {
        name: "B".to_string(),
        lists: vec![List { name: "L".to_string(), cards: vec![Card { name: "C".to_string(), desc: "d".to_string() }] }],
    };
    assert_eq!(
        export(&board),
        r#"{"name":"B","lists":[{"id":"list-1","name":"L"}],"cards":[{"id":"card-1-1","name":"C","desc":"d","idList":"list-1"}]}"#
    );
}

#[test]
fn export_then_import_gives_the_board_back() {
    let board = sample_board();
    let text = export(&board);
    let (back, stats) = import_floats(&parse(&text).unwrap()).unwrap();
    assert_eq!(back.name, board.name);
    assert_eq!(names(&back), names(&board));
    assert_eq!(stats.closed_lists_skipped + stats.closed_cards_skipped + stats.orphaned_cards_skipped, 0);
    assert!(stats.warnings.is_empty());
}

#[test]
fn every_entry_is_accounted_for() {
    let root = parse(EXPORT).unwrap();
    let (board, stats) = import_floats(&root).unwrap();
    let lists = root.get("lists").unwrap().as_array().unwrap().len();
    let cards = root.get("cards").unwrap().as_array().unwrap().len();
    let kept: usize = board.lists.iter().map(|l| l.cards.len()).sum();
    assert_eq!(board.lists.len() + stats.closed_lists_skipped, lists);
    assert_eq!(kept + stats.closed_cards_skipped + stats.orphaned_cards_skipped, cards);
    assert_eq!(stats.warnings.len(), stats.orphaned_cards_skipped);
}

#[test]
fn positions_equal_as_floats_keep_document_order() {
    let root = parse(
        r#"{"lists":[
            {"id":"a","name":"A","pos":2e400},
            {"id":"b","name":"B","pos":1e400},
            {"id":"c","name":"C","pos":1.00000000000000001},
            {"id":"d","name":"D","pos":1},
            {"id":"e","name":"E","pos":1e-401},
            {"id":"f","name":"F","pos":-0.0},
            {"id":"g","name":"G"},
            {"id":"h","name":"H","pos":-1e400}
        ],"cards":[]}"#,
    )
    .unwrap();
    let (board, _) = import_floats(&root).unwrap();
    let order: Vec<String> = board.lists.iter().map(|l| l.name.clone()).collect();
    assert_eq!(order, vec!["H", "E", "F", "G", "C", "D", "A", "B"]);
}

#[test]
fn unlisted_numbers_count_as_zero() {
    let root = parse(r#"{"lists":[{"id":"a","name":"A","pos":5},{"id":"b","name":"B","pos":-5}],"cards":[]}"#).unwrap();
    let mut keys = PositionKeys::new(10);
    keys.add(b"-5", 20);
    let (board, _) = import(&root, &keys).unwrap();
    let order: Vec<String> = board.lists.iter().map(|l| l.name.clone()).collect();
    assert_eq!(order, vec!["A", "B"]);
}

#[test]
fn number_tokens_in_document_order() {
    let root = parse(r#"{"a":[1,{"b":-2.5e3,"c":"3"}],"d":0,"e":[true,null,7E1]}"#).unwrap();
    let tokens: Vec<Vec<u8>> = number_tokens(&root);
    assert_eq!(tokens, vec![b"1".to_vec(), b"-2.5e3".to_vec(), b"0".to_vec(), b"7E1".to_vec()]);
}
