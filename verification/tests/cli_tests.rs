use lib::cli::{card_count, format_json_report, format_text_report, parse_args, Command};
use lib::trello::{Board, Card, ImportStats, List};

fn strings(args: &[&str]) -> Vec<String> {
    args.iter().map(|a| a.to_string()).collect()
}

#[test]
fn arguments() {
    match parse_args(&strings(&["in.json", "out.md", "--json"])).unwrap() {
        Command::Convert(a) => {
            assert_eq!(a.input, "in.json");
            assert_eq!(a.output, "out.md");
            assert!(a.json_output);
            assert!(!a.reverse);
        }
        Command::Help => panic!("expected a conversion"),
    }
    match parse_args(&strings(&["--reverse", "in.md", "out.json"])).unwrap() {
        Command::Convert(a) => {
            assert_eq!(a.input, "in.md");
            assert!(a.reverse);
            assert!(!a.json_output);
        }
        Command::Help => panic!("expected a conversion"),
    }
    assert!(matches!(parse_args(&strings(&["a", "-h"])), Ok(Command::Help)));
    assert!(matches!(parse_args(&strings(&["--help", "a", "b", "c"])), Ok(Command::Help)));
    let e = parse_args(&strings(&["only-one"])).err().unwrap();
    assert_eq!(e, "expected exactly two positional arguments: <input.json> <output.md>");
    assert!(parse_args(&strings(&["a", "b", "c"])).is_err());
    assert!(parse_args(&strings(&[])).is_err());
}

fn stats(lists: usize, cards: usize, orphans: usize, warnings: &[&str]) -> ImportStats {
    ImportStats {
        closed_lists_skipped: lists,
        closed_cards_skipped: cards,
        orphaned_cards_skipped: orphans,
        warnings: strings(warnings),
    }
}

#[test]
fn text_report() {
    assert_eq!(
        format_text_report("trello-export.json", "board.md", 4, 27, &stats(0, 3, 0, &[])),
        "converted trello-export.json -> board.md\n  lists converted: 4\n  cards converted: 27\n  archived cards skipped: 3\n"
    );
    assert_eq!(
        format_text_report("a", "b", 1, 0, &stats(2, 0, 1, &["w1", "w2"])),
        "converted a -> b\n  lists converted: 1\n  cards converted: 0\n  archived lists skipped: 2\n  orphaned cards skipped: 1\n  warning: w1\n  warning: w2\n"
    );
}

#[test]
fn json_report() {
    assert_eq!(
        format_json_report("trello-export.json", "board.md", 4, 27, &stats(0, 3, 0, &[])),
        "{\"input\":\"trello-export.json\",\"output\":\"board.md\",\"lists_converted\":4,\"cards_converted\":27,\"closed_lists_skipped\":0,\"closed_cards_skipped\":3,\"orphaned_cards_skipped\":0,\"warnings\":[]}"
    );
    assert_eq!(
        format_json_report("a\"b", "c", 0, 0, &stats(0, 0, 2, &["card \"x\" has no idList; skipped", "w"])),
        "{\"input\":\"a\\\"b\",\"output\":\"c\",\"lists_converted\":0,\"cards_converted\":0,\"closed_lists_skipped\":0,\"closed_cards_skipped\":0,\"orphaned_cards_skipped\":2,\"warnings\":[\"card \\\"x\\\" has no idList; skipped\",\"w\"]}"
    );
}

fn card() -> Card {
    Card { name: "c".to_string(), desc: "".to_string() }
}

#[test]
fn counts_cards() {
    let b = Board {
        name: "b".to_string(),
        lists: vec![
            List { name: "l".to_string(), cards: (0..3).map(|_| card()).collect() },
            List { name: "m".to_string(), cards: vec![] },
            List { name: "n".to_string(), cards: (0..2).map(|_| card()).collect() },
        ],
    };
    assert_eq!(card_count(&b), 5);
}

#[test]
fn default_stats_are_empty() {
    let s = ImportStats::default();
    assert_eq!(s.closed_lists_skipped + s.closed_cards_skipped + s.orphaned_cards_skipped, 0);
    assert!(s.warnings.is_empty());
}

#[test]
fn json_report_reads_back_as_its_fields() {
    let text = format_json_report("in \"x\".json", "out\n.md", 2, 5, &stats(1, 0, 1, &["w \\ 1", "two"]));
    let v = lib::json::parse(&text).unwrap();
    assert_eq!(v.get("input").unwrap().as_str(), Some("in \"x\".json"));
    assert_eq!(v.get("output").unwrap().as_str(), Some("out\n.md"));
    assert_eq!(v.get("lists_converted").unwrap().as_number().unwrap().as_bytes(), b"2");
    assert_eq!(v.get("cards_converted").unwrap().as_number().unwrap().as_bytes(), b"5");
    assert_eq!(v.get("closed_lists_skipped").unwrap().as_number().unwrap().as_bytes(), b"1");
    assert_eq!(v.get("orphaned_cards_skipped").unwrap().as_number().unwrap().as_bytes(), b"1");
    let warnings = v.get("warnings").unwrap().as_array().unwrap();
    assert_eq!(warnings.len(), 2);
    assert_eq!(warnings[0].as_str(), Some("w \\ 1"));
    assert_eq!(warnings[1].as_str(), Some("two"));
}
