//! The command line's decisions: what the arguments ask for, and the
//! summary printed after a conversion.
use vstd::prelude::*;
use vstd::string::*;

use vstd::utf8::{encode_utf8, is_ascii_chars, is_ascii_chars_encode_utf8};

use crate::json::emit::print_value;
use crate::json::grammar::{digits_end, is_digit, is_number_token, spec_parse};
use crate::json::round_trip::{print_then_parse, printable};
use crate::json::{items_value, pairs_value, serialize, Json, JsonNumber, JsonValue};
use crate::text::{decimal, digit_char, holds_text, lemma_holds_middle, str_eq, usize_to_decimal};
use crate::trello::{total_cards, Board, ImportStats, StatsView};

verus! {

/// What a run converts, and how it reports.
pub struct Args {
    pub input: String,
    pub output: String,
    pub json_output: bool,
    pub reverse: bool,
}

/// What the arguments ask for.
pub enum Command {
    Help,
    Convert(Args),
}

pub open spec fn is_help(a: Seq<char>) -> bool {
    a == "--help"@ || a == "-h"@
}

pub open spec fn is_flag(a: Seq<char>) -> bool {
    a == "--json"@ || a == "--reverse"@
}

/// The arguments that are neither flags nor a request for help, in order.
pub open spec fn positional(args: Seq<Seq<char>>) -> Seq<Seq<char>>
    decreases args.len(),
{
    if args.len() == 0 {
        Seq::empty()
    } else {
        let rest = positional(args.drop_last());
        if is_flag(args.last()) || is_help(args.last()) {
            rest
        } else {
            rest.push(args.last())
        }
    }
}

pub open spec fn usage_error() -> Seq<char> {
    "expected exactly two positional arguments: <input.json> <output.md>"@
}

pub open spec fn args_view(args: Seq<String>) -> Seq<Seq<char>> {
    args.map_values(|a: String| a@)
}

/// Reads the arguments after the program name: help wherever it is asked
/// for, else exactly two positional arguments (input, then output) and
/// the `--json` and `--reverse` flags.
pub fn parse_args(args: &Vec<String>) -> (r: Result<Command, String>)
    ensures
        (exists|i: int| 0 <= i < args@.len() && is_help(#[trigger] args@[i]@)) ==> r matches Ok(
            Command::Help,
        ),
        !(exists|i: int| 0 <= i < args@.len() && is_help(#[trigger] args@[i]@)) ==> match r {
            Ok(Command::Convert(a)) => {
                &&& positional(args_view(args@)) =~= seq![a.input@, a.output@]
                &&& a.json_output == (exists|i: int|
                    0 <= i < args@.len() && #[trigger] args@[i]@ == "--json"@)
                &&& a.reverse == (exists|i: int|
                    0 <= i < args@.len() && #[trigger] args@[i]@ == "--reverse"@)
            },
            Ok(Command::Help) => false,
            Err(e) => positional(args_view(args@)).len() != 2 && e@ == usage_error(),
        },
{
    let ghost av = args_view(args@);
    let mut json_output = false;
    let mut reverse = false;
    let mut positional_args: Vec<String> = Vec::new();
    let mut i: usize = 0;
    assert(av.take(0) =~= Seq::<Seq<char>>::empty());
    assert(args_view(positional_args@) =~= positional(av.take(0)));
    while i < args.len()
        invariant
            i <= args@.len(),
            av == args_view(args@),
            forall|j: int| 0 <= j < i ==> !is_help(#[trigger] args@[j]@),
            args_view(positional_args@) == positional(av.take(i as int)),
            json_output == (exists|j: int| 0 <= j < i && #[trigger] args@[j]@ == "--json"@),
            reverse == (exists|j: int| 0 <= j < i && #[trigger] args@[j]@ == "--reverse"@),
        decreases args@.len() - i,
    {
        let arg = args[i].as_str();
        proof {
            reveal_strlit("--json");
            reveal_strlit("--reverse");
        }
        assert(av.take(i + 1).drop_last() =~= av.take(i as int));
        assert(av.take(i + 1).last() == args@[i as int]@);
        if str_eq(arg, "--help") || str_eq(arg, "-h") {
            return Ok(Command::Help);
        }
        if str_eq(arg, "--json") {
            json_output = true;
        } else if str_eq(arg, "--reverse") {
            reverse = true;
        } else {
            let ghost before = positional_args@;
            positional_args.push(args[i].clone());
            assert(args_view(positional_args@) =~= args_view(before).push(args@[i as int]@));
        }
        i = i + 1;
    }
    assert(av.take(args@.len() as int) =~= av);
    if positional_args.len() != 2 {
        return Err(
            "expected exactly two positional arguments: <input.json> <output.md>".to_owned(),
        );
    }
    let output = positional_args.pop().unwrap();
    let input = positional_args.pop().unwrap();
    Ok(Command::Convert(Args { input, output, json_output, reverse }))
}

/// How many cards a board holds (capped at `usize::MAX`).
pub fn card_count(board: &Board) -> (r: usize)
    ensures
        r == (if total_cards(board@.lists) <= usize::MAX {
            total_cards(board@.lists)
        } else {
            usize::MAX as nat
        }),
{
    let ghost lv = board@.lists;
    let mut total: usize = 0;
    let mut i: usize = 0;
    while i < board.lists.len()
        invariant
            i <= board.lists@.len(),
            lv == board@.lists,
            lv.len() == board.lists@.len(),
            total == (if total_cards(lv.take(i as int)) <= usize::MAX {
                total_cards(lv.take(i as int))
            } else {
                usize::MAX as nat
            }),
        decreases board.lists@.len() - i,
    {
        assert(lv.take(i + 1).drop_last() =~= lv.take(i as int));
        assert(lv[i as int].cards.len() == board.lists@[i as int].cards@.len());
        total = total.saturating_add(board.lists[i].cards.len());
        i = i + 1;
    }
    assert(lv.take(lv.len() as int) =~= lv);
    total
}

pub open spec fn count_line(label: Seq<char>, n: nat) -> Seq<char> {
    "  "@ + label + ": "@ + decimal(n) + "\n"@
}

pub open spec fn skip_line(label: Seq<char>, n: nat) -> Seq<char> {
    if n > 0 {
        count_line(label, n)
    } else {
        Seq::empty()
    }
}

pub open spec fn warning_lines(ws: Seq<Seq<char>>) -> Seq<char>
    decreases ws.len(),
{
    if ws.len() == 0 {
        Seq::empty()
    } else {
        warning_lines(ws.drop_last()) + "  warning: "@ + ws.last() + "\n"@
    }
}

/// The plain-text summary of a conversion.
pub open spec fn text_report(
    input: Seq<char>,
    output: Seq<char>,
    lists: nat,
    cards: nat,
    st: StatsView,
) -> Seq<char> {
    "converted "@ + input + " -> "@ + output + "\n"@ + count_line("lists converted"@, lists)
        + count_line("cards converted"@, cards) + skip_line(
        "archived lists skipped"@,
        st.closed_lists_skipped,
    ) + skip_line("archived cards skipped"@, st.closed_cards_skipped) + skip_line(
        "orphaned cards skipped"@,
        st.orphaned_cards_skipped,
    ) + warning_lines(st.warnings)
}

fn push_count_line(out: &mut String, label: &str, n: usize)
    ensures
        final(out)@ == old(out)@ + count_line(label@, n as nat),
{
    out.append("  ");
    out.append(label);
    out.append(": ");
    let digits = usize_to_decimal(n);
    out.append(digits.as_str());
    out.append("\n");
}

fn push_skip_line(out: &mut String, label: &str, n: usize)
    ensures
        final(out)@ == old(out)@ + skip_line(label@, n as nat),
{
    if n > 0 {
        push_count_line(out, label, n);
    } else {
        assert(old(out)@ + skip_line(label@, n as nat) =~= old(out)@);
    }
}

/// The summary printed after a conversion, one line per fact.
pub fn format_text_report(
    input: &str,
    output: &str,
    lists: usize,
    cards: usize,
    stats: &ImportStats,
) -> (r: String)
    ensures
        r@ == text_report(input@, output@, lists as nat, cards as nat, stats@),
{
    let mut out = "converted ".to_owned();
    out.append(input);
    out.append(" -> ");
    out.append(output);
    out.append("\n");
    push_count_line(&mut out, "lists converted", lists);
    push_count_line(&mut out, "cards converted", cards);
    push_skip_line(&mut out, "archived lists skipped", stats.closed_lists_skipped);
    push_skip_line(&mut out, "archived cards skipped", stats.closed_cards_skipped);
    push_skip_line(&mut out, "orphaned cards skipped", stats.orphaned_cards_skipped);
    let ghost mid = out@;
    let ghost ws = stats@.warnings;
    let mut i: usize = 0;
    assert(ws.take(0) =~= Seq::<Seq<char>>::empty());
    assert(out@ =~= mid + warning_lines(ws.take(0)));
    while i < stats.warnings.len()
        invariant
            i <= stats.warnings@.len(),
            ws == stats@.warnings,
            ws.len() == stats.warnings@.len(),
            out@ == mid + warning_lines(ws.take(i as int)),
        decreases stats.warnings@.len() - i,
    {
        out.append("  warning: ");
        out.append(stats.warnings[i].as_str());
        out.append("\n");
        assert(ws.take(i + 1).drop_last() =~= ws.take(i as int));
        assert(ws[i as int] == stats.warnings@[i as int]@);
        assert(out@ =~= mid + warning_lines(ws.take(i + 1)));
        i = i + 1;
    }
    assert(ws.take(ws.len() as int) =~= ws);
    assert(out@ =~= text_report(input@, output@, lists as nat, cards as nat, stats@));
    out
}

/// A count as the summary writes it: a JSON number with its decimal digits.
pub open spec fn count_value(n: nat) -> JsonValue {
    JsonValue::Number(encode_utf8(decimal(n)))
}

pub open spec fn warnings_value(ws: Seq<Seq<char>>) -> JsonValue {
    JsonValue::Array(ws.map_values(|w: Seq<char>| JsonValue::Str(w)))
}

/// The machine-readable summary of a conversion: one JSON object with the
/// input and output names, the counts and the warnings.
pub open spec fn report_value(
    input: Seq<char>,
    output: Seq<char>,
    lists: nat,
    cards: nat,
    st: StatsView,
) -> JsonValue {
    JsonValue::Object(
        seq![
            ("input"@, JsonValue::Str(input)),
            ("output"@, JsonValue::Str(output)),
            ("lists_converted"@, count_value(lists)),
            ("cards_converted"@, count_value(cards)),
            ("closed_lists_skipped"@, count_value(st.closed_lists_skipped)),
            ("closed_cards_skipped"@, count_value(st.closed_cards_skipped)),
            ("orphaned_cards_skipped"@, count_value(st.orphaned_cards_skipped)),
            ("warnings"@, warnings_value(st.warnings)),
        ],
    )
}

fn count_json(n: usize) -> (r: Json)
    ensures
        r.value() == count_value(n as nat),
{
    let text = usize_to_decimal(n);
    let bytes = vstd::slice::slice_to_vec(text.as_str().as_bytes());
    Json::Number(JsonNumber::from_bytes(bytes))
}

fn member(key: &str, value: Json) -> (r: (String, Json))
    ensures
        r.0@ == key@,
        r.1 == value,
{
    (key.to_owned(), value)
}

/// The summary as JSON text, written compactly; texts are escaped with
/// `escape`.
pub fn format_json_report(
    input: &str,
    output: &str,
    lists: usize,
    cards: usize,
    stats: &ImportStats,
) -> (r: String)
    ensures
        r@ == print_value(report_value(input@, output@, lists as nat, cards as nat, stats@)),
{
    let ghost ws = stats@.warnings;
    let mut warnings: Vec<Json> = Vec::new();
    let mut i: usize = 0;
    while i < stats.warnings.len()
        invariant
            i <= stats.warnings@.len(),
            ws == stats@.warnings,
            ws.len() == stats.warnings@.len(),
            items_value(warnings@) == ws.take(i as int).map_values(
                |w: Seq<char>| JsonValue::Str(w),
            ),
        decreases stats.warnings@.len() - i,
    {
        let ghost before = warnings@;
        warnings.push(Json::String(stats.warnings[i].as_str().to_owned()));
        assert(ws[i as int] == stats.warnings@[i as int]@);
        assert(items_value(warnings@) =~= items_value(before).push(
            JsonValue::Str(ws[i as int]),
        ));
        assert(ws.take(i + 1).map_values(|w: Seq<char>| JsonValue::Str(w)) =~= ws.take(
            i as int,
        ).map_values(|w: Seq<char>| JsonValue::Str(w)).push(JsonValue::Str(ws[i as int])));
        i = i + 1;
    }
    assert(ws.take(ws.len() as int) =~= ws);
    proof {
        Json::lemma_array_value(warnings);
    }
    let warnings = Json::Array(warnings);
    let mut pairs: Vec<(String, Json)> = Vec::new();
    pairs.push(member("input", Json::String(input.to_owned())));
    pairs.push(member("output", Json::String(output.to_owned())));
    pairs.push(member("lists_converted", count_json(lists)));
    pairs.push(member("cards_converted", count_json(cards)));
    pairs.push(member("closed_lists_skipped", count_json(stats.closed_lists_skipped)));
    pairs.push(member("closed_cards_skipped", count_json(stats.closed_cards_skipped)));
    pairs.push(member("orphaned_cards_skipped", count_json(stats.orphaned_cards_skipped)));
    pairs.push(member("warnings", warnings));
    proof {
        Json::lemma_object_value(pairs);
    }
    assert(pairs_value(pairs@) =~= report_value(
        input@,
        output@,
        lists as nat,
        cards as nat,
        stats@,
    )->Object_0);
    serialize(&Json::Object(pairs))
}

proof fn lemma_digits_end_all(t: Seq<u8>, i: int)
    requires
        0 <= i <= t.len(),
        forall|j: int| 0 <= j < t.len() ==> is_digit(#[trigger] t[j]),
    ensures
        digits_end(t, i) == t.len(),
    decreases t.len() - i,
{
    if i < t.len() {
        lemma_digits_end_all(t, i + 1);
    }
}

proof fn lemma_decimal_digits(n: nat)
    ensures
        decimal(n).len() > 0,
        forall|i: int| 0 <= i < decimal(n).len() ==> '0' <= #[trigger] decimal(n)[i] <= '9',
    decreases n,
{
    let d = n % 10;
    assert(digit_char(d) as u32 == d + 0x30);
    if n >= 10 {
        lemma_decimal_digits(n / 10);
    }
}

/// A count is written as a number token.
proof fn lemma_count_token(n: nat)
    ensures
        is_number_token(encode_utf8(decimal(n))),
{
    let d = decimal(n);
    lemma_decimal_digits(n);
    assert(is_ascii_chars(d));
    is_ascii_chars_encode_utf8(d);
    let t = encode_utf8(d);
    assert forall|j: int| 0 <= j < t.len() implies is_digit(#[trigger] t[j]) by {
        assert(d[j] as u8 == t[j]);
        assert('0' <= d[j] <= '9');
    }
    lemma_digits_end_all(t, 0);
    lemma_digits_end_all(t, t.len() as int);
}

/// The machine-readable summary is JSON that reads back as the summary: the
/// input and output names, the counts and the warnings.
pub proof fn json_report_reads_back(
    input: Seq<char>,
    output: Seq<char>,
    lists: nat,
    cards: nat,
    st: StatsView,
)
    ensures
        spec_parse(encode_utf8(print_value(report_value(input, output, lists, cards, st)))) == Ok::<
            JsonValue,
            (Seq<char>, int),
        >(report_value(input, output, lists, cards, st)),
{
    let v = report_value(input, output, lists, cards, st);
    lemma_count_token(lists);
    lemma_count_token(cards);
    lemma_count_token(st.closed_lists_skipped);
    lemma_count_token(st.closed_cards_skipped);
    lemma_count_token(st.orphaned_cards_skipped);
    let items = st.warnings.map_values(|x: Seq<char>| JsonValue::Str(x));
    assert forall|i: int| 0 <= i < items.len() implies printable(#[trigger] items[i]) by {
        assert(items[i] is Str);
    }
    assert(printable(warnings_value(st.warnings)));
    if let JsonValue::Object(pairs) = v {
        assert forall|i: int| 0 <= i < pairs.len() implies printable(#[trigger] pairs[i].1) by {
            if i == 2 {
                assert(pairs[i].1 == count_value(lists));
            }
        }
    }
    print_then_parse(v);
}

/// The text summary always names the input and output and shows the list
/// and card counts, and it shows every skipped count that is not zero, on a
/// line of its own with the count itself.
pub proof fn text_report_shows_counts(
    input: Seq<char>,
    output: Seq<char>,
    lists: nat,
    cards: nat,
    st: StatsView,
)
    ensures
        holds_text(
            text_report(input, output, lists, cards, st),
            "converted "@ + input + " -> "@ + output + "\n"@,
        ),
        holds_text(
            text_report(input, output, lists, cards, st),
            "  lists converted: "@ + decimal(lists) + "\n"@,
        ),
        holds_text(
            text_report(input, output, lists, cards, st),
            "  cards converted: "@ + decimal(cards) + "\n"@,
        ),
        st.closed_lists_skipped > 0 ==> holds_text(
            text_report(input, output, lists, cards, st),
            "  archived lists skipped: "@ + decimal(st.closed_lists_skipped) + "\n"@,
        ),
        st.closed_cards_skipped > 0 ==> holds_text(
            text_report(input, output, lists, cards, st),
            "  archived cards skipped: "@ + decimal(st.closed_cards_skipped) + "\n"@,
        ),
        st.orphaned_cards_skipped > 0 ==> holds_text(
            text_report(input, output, lists, cards, st),
            "  orphaned cards skipped: "@ + decimal(st.orphaned_cards_skipped) + "\n"@,
        ),
{
    reveal_strlit("  ");
    reveal_strlit(": ");
    reveal_strlit("\n");
    reveal_strlit("lists converted");
    reveal_strlit("  lists converted: ");
    reveal_strlit("cards converted");
    reveal_strlit("  cards converted: ");
    reveal_strlit("archived lists skipped");
    reveal_strlit("  archived lists skipped: ");
    reveal_strlit("archived cards skipped");
    reveal_strlit("  archived cards skipped: ");
    reveal_strlit("orphaned cards skipped");
    reveal_strlit("  orphaned cards skipped: ");
    let head = "converted "@ + input + " -> "@ + output + "\n"@;
    let l1 = count_line("lists converted"@, lists);
    let l2 = count_line("cards converted"@, cards);
    let s1 = skip_line("archived lists skipped"@, st.closed_lists_skipped);
    let s2 = skip_line("archived cards skipped"@, st.closed_cards_skipped);
    let s3 = skip_line("orphaned cards skipped"@, st.orphaned_cards_skipped);
    let w = warning_lines(st.warnings);
    let t = text_report(input, output, lists, cards, st);
    assert(t == head + l1 + l2 + s1 + s2 + s3 + w);
    assert(l1 =~= "  lists converted: "@ + decimal(lists) + "\n"@);
    assert(l2 =~= "  cards converted: "@ + decimal(cards) + "\n"@);
    assert(t =~= Seq::<char>::empty() + head + (l1 + l2 + s1 + s2 + s3 + w));
    lemma_holds_middle(Seq::<char>::empty(), head, l1 + l2 + s1 + s2 + s3 + w);
    assert(t =~= head + l1 + (l2 + s1 + s2 + s3 + w));
    lemma_holds_middle(head, l1, l2 + s1 + s2 + s3 + w);
    assert(t =~= (head + l1) + l2 + (s1 + s2 + s3 + w));
    lemma_holds_middle(head + l1, l2, s1 + s2 + s3 + w);
    if st.closed_lists_skipped > 0 {
        assert(s1 =~= "  archived lists skipped: "@ + decimal(st.closed_lists_skipped) + "\n"@);
        assert(t =~= (head + l1 + l2) + s1 + (s2 + s3 + w));
        lemma_holds_middle(head + l1 + l2, s1, s2 + s3 + w);
    }
    if st.closed_cards_skipped > 0 {
        assert(s2 =~= "  archived cards skipped: "@ + decimal(st.closed_cards_skipped) + "\n"@);
        assert(t =~= (head + l1 + l2 + s1) + s2 + (s3 + w));
        lemma_holds_middle(head + l1 + l2 + s1, s2, s3 + w);
    }
    if st.orphaned_cards_skipped > 0 {
        assert(s3 =~= "  orphaned cards skipped: "@ + decimal(st.orphaned_cards_skipped) + "\n"@);
        assert(t =~= (head + l1 + l2 + s1 + s2) + s3 + w);
        lemma_holds_middle(head + l1 + l2 + s1 + s2, s3, w);
    }
}

} // verus!
