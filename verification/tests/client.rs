use kvstore::client::{
    check_printable, choose_op, complete_key, elapsed_reading, error, format_group, format_groups,
    format_result, get_prompt, handle_cmd, handle_done, handle_op, next_step, tokenize, OpStep,
    Step,
};
use kvstore::gateway::{CommandResult, OperationResult, Status};

fn extract_key_number(key: &str) -> u64 {
    key.trim_start_matches("usertable_user").parse().unwrap()
}

fn form_key(number: u64) -> String {
    format!("usertable_user{number}")
}

fn op(id: u32, content: &str, has_err: bool) -> OperationResult {
    OperationResult {
        id,
        content: content.to_string(),
        has_err,
    }
}

fn result(status: Status, ops: Vec<OperationResult>) -> CommandResult {
    CommandResult {
        status,
        content: String::new(),
        has_err: false,
        ops,
    }
}

fn format(results: Vec<CommandResult>) -> String {
    assert!(check_printable(&results));
    format_result(Ok(results), &extract_key_number, &form_key)
}

fn strings(texts: &[&str]) -> Vec<String> {
    texts.iter().map(|t| t.to_string()).collect()
}

const LOW: &str =
    "SCAN usertable_user1 usertable_user9 BEGIN\n  usertable_user9 i\n  usertable_user1 a\nSCAN END";
const HIGH: &str =
    "SCAN usertable_user10 usertable_user20 BEGIN\n  usertable_user10 j\nSCAN END";

#[test]
fn client_tokens_are_split_at_spaces() {
    assert_eq!(tokenize("op  get 5 "), vec!["op", "get", "5"]);
    assert_eq!(tokenize("a\tb c"), vec!["a\tb", "c"]);
    assert!(tokenize("   ").is_empty());
}

#[test]
fn client_quotes_keep_spaces_in_a_token() {
    assert_eq!(tokenize("op put 1 \"two words\""), vec!["op", "put", "1", "two words"]);
    assert_eq!(tokenize("a\"b c\"d e"), vec!["ab cd", "e"]);
    assert_eq!(tokenize("\"\" x \"open end"), vec!["", "x", "open end"]);
}

#[test]
fn client_empty_quotes_are_a_token() {
    assert_eq!(tokenize("PUT k \"\""), vec!["PUT", "k", ""]);
    assert_eq!(tokenize("a\"\" \"\"\"\" b"), vec!["a", "", "b"]);
    assert_eq!(tokenize("a \""), vec!["a"]);
    assert_eq!(tokenize("\" \""), vec![" "]);
    match handle_op(&tokenize("op put 5 \"\""), None) {
        OpStep::Execute { name, args } => {
            assert_eq!(name, "PUT");
            assert_eq!(args, vec!["usertable_user5", ""]);
        }
        step => panic!("{step:?}"),
    }
}

#[test]
fn client_quoted_tokens_are_found_again() {
    let tokens = vec!["a b", " ", "", "c", ""];
    let line: Vec<String> = tokens.iter().map(|t| format!("\"{t}\"")).collect();
    assert_eq!(tokenize(&line.join(" ")), tokens);
}

#[test]
fn client_error_is_prefixed() {
    assert_eq!(error("invalid operation"), "ERROR invalid operation");
}

#[test]
fn prompt_shows_the_next_operation() {
    assert_eq!(get_prompt(None), ">> ");
    assert_eq!(get_prompt(Some(0)), "[op 0]>> ");
    assert_eq!(get_prompt(Some(u32::MAX)), "[op 4294967295]>> ");
}

#[test]
fn starting_a_command_is_reported() {
    assert_eq!(handle_cmd(Ok(())), "COMMAND");
    assert_eq!(handle_cmd(Err("busy".to_string())), "ERROR busy");
}

#[test]
fn done_stands_alone() {
    assert_eq!(handle_done(&strings(&["done"])), None);
    assert_eq!(
        handle_done(&strings(&["done", "now"])),
        Some("ERROR invalid DONE command".to_string())
    );
}

#[test]
fn keys_are_completed_once() {
    assert_eq!(complete_key("5"), "usertable_user5");
    assert_eq!(complete_key(&complete_key("5")), "usertable_user5");
    assert_eq!(complete_key("usertable_use"), "usertable_userusertable_use");
}

#[test]
fn operations_are_executed_at_once_without_a_command() {
    for (line, expected, given) in [
        (vec!["op", "get", "5"], "GET", vec!["usertable_user5"]),
        (vec!["op", "Delete", "usertable_user5"], "DELETE", vec!["usertable_user5"]),
        (vec!["op", "put", "5", "6"], "PUT", vec!["usertable_user5", "6"]),
        (vec!["op", "SWAP", "5", "6"], "SWAP", vec!["usertable_user5", "6"]),
        (vec!["op", "scan", "5", "6"], "SCAN", vec!["usertable_user5", "usertable_user6"]),
    ] {
        match handle_op(&strings(&line), None) {
            OpStep::Execute { name, args } => {
                assert_eq!(name, expected);
                assert_eq!(args, given);
            }
            step => panic!("{step:?}"),
        }
    }
}

#[test]
fn operations_are_added_to_a_command() {
    match handle_op(&strings(&["op", "get", "5"]), Some(17)) {
        OpStep::Add { name, args, reply } => {
            assert_eq!(name, "GET");
            assert_eq!(args, vec!["usertable_user5"]);
            assert_eq!(reply, "OP 17");
        }
        step => panic!("{step:?}"),
    }
}

#[test]
fn operations_with_the_wrong_number_of_arguments_are_refused() {
    for line in [
        vec!["op", "get"],
        vec!["op", "get", "5", "6"],
        vec!["op", "put", "5"],
        vec!["op", "scan", "5", "6", "7"],
    ] {
        match handle_op(&strings(&line), Some(1)) {
            OpStep::Reply(t) => assert_eq!(t, "ERROR invalid operation"),
            step => panic!("{step:?}"),
        }
    }
    assert!(matches!(
        choose_op("PUT".to_string(), &strings(&["op", "put", "1"]), None),
        OpStep::Reply(_)
    ));
}

#[test]
fn lines_without_an_operation_end_the_client() {
    for next_op_id in [None, Some(1)] {
        assert!(matches!(
            handle_op(&strings(&["op"]), next_op_id),
            OpStep::Panic(t) if t == "no operation on the line"
        ));
        assert!(matches!(
            handle_op(&strings(&["op", "fetch", "5"]), next_op_id),
            OpStep::Panic(t) if t == "unknown operation: FETCH"
        ));
    }
    assert!(matches!(
        choose_op("get".to_string(), &strings(&["op", "get", "1"]), None),
        OpStep::Panic(_)
    ));
}

#[test]
fn client_lines_are_told_apart_in_any_letter_case() {
    assert!(matches!(next_step("", false), Step::Skip));
    assert!(matches!(next_step("\"\" x", false), Step::Skip));
    assert!(matches!(next_step("CMD x", false), Step::Cmd));
    assert!(matches!(next_step("Op get 5", false), Step::Op(t) if t == ["Op", "get", "5"]));
    assert!(matches!(next_step("done", true), Step::Done(t) if t == ["done"]));
    assert!(matches!(next_step("CLEAR", false), Step::Clear));
    assert!(matches!(next_step("exit", false), Step::Exit));
    assert!(matches!(next_step("Quit", false), Step::Exit));
    assert!(
        matches!(next_step(" what now", false), Step::Reply(t) if t == "ERROR unknown command:  what now")
    );
}

#[test]
fn first_word_is_read_by_its_letters_only() {
    for c in (0..128u8).map(char::from) {
        let is_op = matches!(next_step(&format!("O\"{c}\""), false), Step::Op(_));
        assert_eq!(is_op, c == 'p' || c == 'P');
    }
}

#[test]
fn time_is_switched_on_and_off() {
    assert!(
        matches!(next_step("time", false), Step::Time { measure_time: true, reply } if reply == "TIME: true")
    );
    assert!(
        matches!(next_step("time", true), Step::Time { measure_time: false, reply } if reply == "TIME: false")
    );
}

#[test]
fn elapsed_time_is_shown_in_its_largest_unit() {
    let reading = |secs, nanos| {
        let (number, unit) = elapsed_reading(secs, nanos);
        format!("{number} {unit}")
    };
    assert_eq!(reading(2, 5_000_000), "2.5 s");
    assert_eq!(reading(0, 12_345_678), "12.12345 ms");
    assert_eq!(reading(0, 345_678), "345.345678 µs");
    assert_eq!(reading(0, 999), "999 ns");
    assert_eq!(reading(0, 0), "0 ns");
}

#[test]
fn results_are_printed_by_id_with_the_verdict_last() {
    let results = vec![
        result(Status::Committed, vec![op(10, "PUT b", false), op(2, "GET a", true)]),
        result(Status::Committed, vec![op(3, "GET c", false)]),
    ];
    assert_eq!(format(results), "2> ERROR GET a\n3> GET c\n10> PUT b\nCOMMITTED");
}

#[test]
fn empty_results_are_only_a_verdict() {
    assert_eq!(format(vec![]), "COMMITTED");
    assert_eq!(
        format(vec![result(Status::Committed, vec![]), result(Status::Aborted, vec![])]),
        "ABORTED"
    );
}

#[test]
fn status_without_a_meaning_does_not_abort() {
    for aborted in [false, true] {
        let status = Status::Unrecognized { aborted };
        let results = vec![result(status, vec![op(1, "GET a", false)])];
        assert_eq!(format(results), "1> GET a\nCOMMITTED");
    }
}

#[test]
fn command_that_could_not_be_sent_is_an_error() {
    assert_eq!(
        format_result(Err("offline".to_string()), &extract_key_number, &form_key),
        "ERROR offline"
    );
}

#[test]
fn scans_of_several_partitions_are_printed_as_one() {
    let merged = "0> SCAN usertable_user1 usertable_user20 BEGIN\n    usertable_user1 a\n    usertable_user9 i\n    usertable_user10 j\nSCAN END\nCOMMITTED"
        .replace("    ", "  ");
    let one = result(Status::Committed, vec![op(0, HIGH, false)]);
    let two = result(Status::Committed, vec![op(0, LOW, false)]);
    assert_eq!(format(vec![one, two]), merged);
    let one = result(Status::Committed, vec![op(0, LOW, false)]);
    let two = result(Status::Committed, vec![op(0, HIGH, false)]);
    assert_eq!(format(vec![one, two]), merged);
}

#[test]
fn entry_that_stands_alone_may_have_any_first_word() {
    let content = "SCAN usertable_user1 usertable_user9 BEGIN\n  Error: timeout\nSCAN END";
    assert_eq!(
        format(vec![result(Status::Committed, vec![op(1, content, true)])]),
        "1> ERROR SCAN usertable_user1 usertable_user9 BEGIN\n  Error: timeout\nSCAN END\nCOMMITTED"
    );
}

#[test]
fn order_of_three_partitions_does_not_matter() {
    let middle = "SCAN usertable_user3 usertable_user4 BEGIN\nusertable_user3 c\nSCAN END";
    let scan = |contents: [&str; 3]| {
        let part = |c: &&str| result(Status::Committed, vec![op(0, c, false)]);
        format(contents.iter().map(part).collect())
    };
    let expected = scan([LOW, middle, HIGH]);
    for contents in [
        [LOW, HIGH, middle],
        [middle, LOW, HIGH],
        [middle, HIGH, LOW],
        [HIGH, LOW, middle],
        [HIGH, middle, LOW],
    ] {
        assert_eq!(scan(contents), expected);
    }
    assert!(expected.ends_with("\nCOMMITTED"));
}

#[test]
fn keys_are_not_read_without_a_scan() {
    let results = vec![result(Status::Aborted, vec![op(4, "PUT x", false), op(2, "GET a", true)])];
    assert_eq!(
        format_result(Ok(results), &|_: &str| unreachable!(), &|_: u64| unreachable!()),
        "2> ERROR GET a\n4> PUT x\nABORTED"
    );
}

#[test]
fn scan_with_an_error_is_printed_as_an_error() {
    let results = vec![
        result(Status::Aborted, vec![op(1, LOW, true)]),
        result(Status::Committed, vec![op(1, "no header\n  usertable_user3 c\n\nSCAN END", false)]),
    ];
    assert_eq!(
        format(results),
        "1> ERROR SCAN usertable_user1 usertable_user9 BEGIN\n  usertable_user1 a\n  usertable_user3 c\n  usertable_user9 i\nSCAN END\nABORTED"
    );
}

#[test]
fn results_that_cannot_be_printed_are_found() {
    let twice = vec![result(Status::Committed, vec![op(1, "GET a", false), op(1, "GET a", false)])];
    assert!(!check_printable(&twice));
    let headless = vec![result(Status::Committed, vec![op(1, "SCAN x", false)])];
    assert!(!check_printable(&headless));
    let below = vec![result(Status::Committed, vec![op(1, "\nSCAN a b BEGIN", false)])];
    assert!(!check_printable(&below));
    let sound = vec![result(Status::Committed, vec![op(1, LOW, false), op(1, "SCAN", false)])];
    assert!(check_printable(&sound));
}

#[test]
fn groups_are_printed_in_any_order() {
    let ops = vec![op(1, "one", false), op(2, "two", true)];
    assert_eq!(
        format_groups(&vec![2, 1], &ops, &extract_key_number, &form_key),
        vec!["2> ERROR two", "1> one"]
    );
    assert_eq!(
        format_group(7, &vec![op(1, "x", false)], &extract_key_number, &form_key),
        "7> x"
    );
}
