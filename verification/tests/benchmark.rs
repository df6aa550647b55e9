use kvstore::benchmark::{
    choose_step, error, execute_command, handle_result, handle_scan_results,
    handle_single_command_result, next_step, tokenize, Attempt, Step, MAX_RETRIES,
};
use kvstore::gateway::{CommandResult, OperationResult, Status};

fn extract_key(key: &str) -> Option<u64> {
    key.strip_prefix("usertable_user")?.parse().ok()
}

fn form_key(table: &str, number: u64) -> String {
    format!("{table}{number}")
}

fn op(content: &str) -> OperationResult {
    OperationResult {
        id: 0,
        content: content.to_string(),
        has_err: false,
    }
}

fn result(status: Status, ops: Vec<OperationResult>) -> CommandResult {
    CommandResult {
        status,
        content: String::new(),
        has_err: false,
        ops,
    }
}

fn committed(content: &str) -> CommandResult {
    result(Status::Committed, vec![op(content)])
}

fn failed(content: &str) -> CommandResult {
    CommandResult {
        status: Status::Committed,
        content: content.to_string(),
        has_err: true,
        ops: vec![],
    }
}

fn scan(results: &[CommandResult]) -> Result<String, String> {
    handle_scan_results(results, &extract_key, &form_key)
}

const LOW: &str = "SCAN usertable_user1 usertable_user4 BEGIN\n  usertable_user4 d\n  usertable_user1 a\nSCAN END";
const HIGH: &str =
    "SCAN usertable_user5 usertable_user12 BEGIN\n  usertable_user12 l\n  usertable_user5 e\nSCAN END";

#[test]
fn benchmark_tokens_are_split_at_white_space() {
    assert_eq!(tokenize("PUT  usertable_user1\tv\u{a0}w"), vec!["PUT", "usertable_user1", "v", "w"]);
    assert!(tokenize(" \t\u{3000} ").is_empty());
    assert!(tokenize("").is_empty());
}

#[test]
fn benchmark_tokens_agree_with_std_on_every_character() {
    for c in (0..=0x10ffff).filter_map(char::from_u32) {
        let line = format!("a{c}b");
        let expected: Vec<String> = line.split_whitespace().map(String::from).collect();
        assert_eq!(tokenize(&line), expected);
    }
}

#[test]
fn benchmark_words_joined_by_spaces_are_found_again() {
    let words = vec!["SWAP", "usertable_user7", "x\"y", "\u{00e9}"];
    assert_eq!(tokenize(&words.join(" ")), words);
}

#[test]
fn benchmark_error_is_prefixed() {
    assert_eq!(error("no route"), "ERROR no route");
}

#[test]
fn single_result_is_its_content() {
    assert_eq!(
        handle_single_command_result(&committed("GET usertable_user1 v")),
        Ok("GET usertable_user1 v".to_string())
    );
}

#[test]
fn single_aborted_result_is_aborted() {
    assert_eq!(
        handle_single_command_result(&result(Status::Aborted, vec![op("x")])),
        Ok("Aborted".to_string())
    );
}

#[test]
fn status_without_a_meaning_is_read_as_it_is_decoded() {
    let aborted = Status::Unrecognized { aborted: true };
    let committed = Status::Unrecognized { aborted: false };
    assert_eq!(
        handle_single_command_result(&result(aborted, vec![op("x")])),
        Ok("Aborted".to_string())
    );
    assert_eq!(
        handle_single_command_result(&result(committed, vec![op("x")])),
        Ok("x".to_string())
    );
    assert_eq!(
        scan(&[result(aborted, vec![op(LOW)])]),
        scan(&[result(committed, vec![op(LOW)])])
    );
    assert_ne!(scan(&[result(aborted, vec![op(LOW)])]), Ok("Aborted".to_string()));
}

#[test]
fn single_failed_result_says_why() {
    assert_eq!(handle_single_command_result(&failed("bad")), Err("bad".to_string()));
    assert_eq!(handle_single_command_result(&failed("")), Err("Command failed".to_string()));
}

#[test]
fn single_result_has_one_operation() {
    assert_eq!(
        handle_single_command_result(&result(Status::Committed, vec![])),
        Err("Expected 1 operation result, got 0".to_string())
    );
    let many: Vec<OperationResult> = (0..12).map(|_| op("x")).collect();
    assert_eq!(
        handle_single_command_result(&result(Status::Aborted, many)),
        Err("Expected 1 operation result, got 12".to_string())
    );
}

#[test]
fn scan_results_are_merged_and_sorted_by_number() {
    let merged = "SCAN usertable_user1 usertable_user12 BEGIN\nusertable_user1 a\nusertable_user4 d\nusertable_user5 e\nusertable_user12 l\nSCAN END";
    assert_eq!(scan(&[committed(HIGH), committed(LOW)]), Ok(merged.to_string()));
    assert_eq!(scan(&[committed(LOW), committed(HIGH)]), Ok(merged.to_string()));
}

#[test]
fn scan_results_may_come_in_any_order() {
    let middle = "SCAN usertable_user5 usertable_user5 BEGIN\nusertable_user6 f\n";
    let merged = |contents: [&str; 3]| scan(&contents.map(committed));
    let expected = merged([LOW, middle, HIGH]);
    assert!(expected.is_ok());
    for contents in [
        [LOW, HIGH, middle],
        [middle, LOW, HIGH],
        [middle, HIGH, LOW],
        [HIGH, LOW, middle],
        [HIGH, middle, LOW],
    ] {
        assert_eq!(merged(contents), expected);
    }
}

#[test]
fn scan_reads_only_the_keys_that_it_needs() {
    let only_headers = |key: &str| {
        assert!(key == "usertable_user1" || key == "usertable_user2", "{key}");
        extract_key(key)
    };
    let content = "SCAN usertable_user1 usertable_user2 BEGIN\n  lone entry\nSCAN END";
    assert_eq!(
        handle_scan_results(&[committed(content)], &only_headers, &form_key),
        Ok("SCAN usertable_user1 usertable_user2 BEGIN\nlone entry\nSCAN END".to_string())
    );
    let none = |_: &str| unreachable!();
    assert_eq!(
        handle_scan_results(&[committed("a\nb 1\na 2")], &none, &form_key),
        Ok("SCAN BEGIN\nSCAN END".to_string())
    );
    assert_eq!(
        handle_scan_results(&[committed(LOW), failed("gone")], &none, &form_key),
        Err("gone".to_string())
    );
}

#[test]
fn scan_writes_only_its_first_and_last_key() {
    let two_keys = |table: &str, number: u64| {
        assert_eq!(table, "usertable_user");
        assert!(number == 1 || number == 12, "{number}");
        form_key(table, number)
    };
    assert!(handle_scan_results(&[committed(HIGH), committed(LOW)], &extract_key, &two_keys)
        .is_ok_and(|t| t.starts_with("SCAN usertable_user1 usertable_user12 BEGIN\n")));
    let no_key = |_: &str, _: u64| unreachable!();
    let half = "SCAN usertable_user1 end BEGIN\nb\na\n";
    assert_eq!(
        handle_scan_results(&[committed(half)], &extract_key, &no_key),
        Ok("SCAN BEGIN\nSCAN END".to_string())
    );
}

#[test]
fn scan_entries_with_unreadable_keys_are_sorted_by_text() {
    let content = "SCAN usertable_user1 usertable_user2 BEGIN\nb 1\na 2\nSCAN END";
    assert_eq!(
        scan(&[committed(content)]),
        Ok("SCAN usertable_user1 usertable_user2 BEGIN\na 2\nb 1\nSCAN END".to_string())
    );
}

#[test]
fn scan_entries_with_the_same_key_keep_their_order() {
    let content = "SCAN usertable_user1 usertable_user2 BEGIN\nusertable_user2 z\nusertable_user1 b\nusertable_user1 a\n";
    assert_eq!(
        scan(&[committed(content)]),
        Ok("SCAN usertable_user1 usertable_user2 BEGIN\nusertable_user1 b\nusertable_user1 a\nusertable_user2 z\nSCAN END".to_string())
    );
}

#[test]
fn scan_without_readable_keys_is_empty() {
    let empty = Ok("SCAN BEGIN\nSCAN END".to_string());
    assert_eq!(scan(&[]), empty);
    assert_eq!(scan(&[committed("SCAN a b BEGIN\nSCAN END"), committed("")]), empty);
    assert_eq!(scan(&[result(Status::Aborted, vec![]), committed("SCAN a")]), empty);
}

#[test]
fn scan_leaves_out_results_without_one_sound_operation() {
    let mut bad = op(HIGH);
    bad.has_err = true;
    let merged = scan(&[
        committed(LOW),
        result(Status::Committed, vec![bad]),
        result(Status::Committed, vec![op(HIGH), op(HIGH)]),
    ]);
    assert_eq!(
        merged,
        Ok("SCAN usertable_user1 usertable_user4 BEGIN\nusertable_user1 a\nusertable_user4 d\nSCAN END".to_string())
    );
}

#[test]
fn scan_reads_lines_that_end_in_carriage_returns() {
    let content = "  SCAN usertable_user3 usertable_user3 BEGIN\r\n\r\n   \r\nusertable_user3 c\r\nx SCAN END y\r\n";
    assert_eq!(
        scan(&[committed(content)]),
        Ok("SCAN usertable_user3 usertable_user3 BEGIN\nusertable_user3 c\nSCAN END".to_string())
    );
}

#[test]
fn scan_with_an_aborted_partition_is_aborted() {
    assert_eq!(
        scan(&[committed(LOW), result(Status::Aborted, vec![op(HIGH)])]),
        Ok("Aborted".to_string())
    );
}

#[test]
fn scan_failures_are_joined() {
    assert_eq!(
        scan(&[failed("one"), committed(LOW), failed("two")]),
        Err("one\ntwo".to_string())
    );
    assert_eq!(scan(&[failed("")]), Err("Command failed".to_string()));
    assert_eq!(scan(&[failed(""), failed("")]), Err("\n".to_string()));
}

#[test]
fn results_are_handled_by_their_number() {
    let handle = |r| handle_result(r, &extract_key, &form_key);
    assert_eq!(handle(Ok(vec![])), Err("No command results returned".to_string()));
    assert_eq!(handle(Ok(vec![committed("v")])), Ok("v".to_string()));
    assert_eq!(
        handle(Ok(vec![committed(LOW), failed("gone")])),
        Err("gone".to_string())
    );
    assert_eq!(handle(Err("offline".to_string())), Err("ERROR offline".to_string()));
}

#[test]
fn aborted_command_is_sent_again_up_to_the_limit() {
    let mut retries = 0;
    let mut attempts = 0;
    let message = loop {
        attempts += 1;
        match execute_command(Ok("Aborted".to_string()), retries) {
            Attempt::Retry(n) => retries = n,
            Attempt::Done(t) => panic!("{t}"),
            Attempt::Panic(message) => break message,
        }
    };
    assert_eq!(attempts, MAX_RETRIES + 1);
    assert_eq!(attempts, 11);
    assert_eq!(message, "Command still aborted after 10 retries");
}

#[test]
fn answered_command_is_done() {
    assert!(matches!(execute_command(Ok("v".to_string()), 10), Attempt::Done(t) if t == "v"));
    assert!(matches!(execute_command(Ok("aborted".to_string()), 0), Attempt::Done(_)));
    assert!(matches!(execute_command(Err("e".to_string()), 0), Attempt::Panic(t) if t == "e"));
}

fn complaint(line: &str) -> String {
    match next_step(line) {
        Step::Complain(t) => t,
        step => panic!("{step:?}"),
    }
}

#[test]
fn benchmark_lines_are_executed_in_any_letter_case() {
    for (line, expected, given) in [
        ("put usertable_user1 v", "PUT", vec!["usertable_user1", "v"]),
        ("Scan a b", "SCAN", vec!["a", "b"]),
        ("SWAP a b", "SWAP", vec!["a", "b"]),
        ("get a", "GET", vec!["a"]),
        ("dElEtE a", "DELETE", vec!["a"]),
        ("\u{017f}can a b", "SCAN", vec!["a", "b"]),
    ] {
        match next_step(line) {
            Step::Execute { name, args } => {
                assert_eq!(name, expected);
                assert_eq!(args, given);
            }
            step => panic!("{step:?}"),
        }
    }
}

#[test]
fn benchmark_lines_with_the_wrong_number_of_arguments_are_refused() {
    assert_eq!(complaint("PUT a"), "PUT/SCAN/SWAP requires 2 arguments: <key> <value>");
    assert_eq!(complaint("scan a b c"), "PUT/SCAN/SWAP requires 2 arguments: <key> <value>");
    assert_eq!(complaint("get"), "GET requires 1 argument: <key>");
    assert_eq!(complaint("delete a b"), "DELETE requires 1 argument: <key>");
    assert_eq!(complaint(" fetch a"), "Unknown command:  fetch a");
}

#[test]
fn benchmark_stops_and_skips() {
    assert!(matches!(next_step("stop now"), Step::Stop));
    assert!(matches!(next_step("   "), Step::Skip));
    assert!(matches!(choose_step("STOP".to_string(), vec![], ""), Step::Stop));
}
