use kvstore::entries::{sort_entries, Entry};
use kvstore::scan::read_answer;
use kvstore::text::{
    comes_before, decimal_text, has_part, has_prefix, join_texts, same_text, split_lines,
    split_words, trimmed, trimmed_start,
};

const SAMPLES: [&str; 12] = [
    "",
    " ",
    "\n",
    "\r\n",
    "a",
    "a\r",
    "a\n\nb\r\nc",
    " a b ",
    "\u{2003}x\u{85}\r\r\n",
    "é z",
    "SCAN END",
    "xSCAN ENDy",
];

#[test]
fn text_functions_agree_with_std() {
    for s in SAMPLES {
        assert_eq!(split_lines(s), s.lines().collect::<Vec<_>>());
        assert_eq!(split_words(s), s.split_whitespace().collect::<Vec<_>>());
        assert_eq!(trimmed(s), s.trim());
        assert_eq!(trimmed_start(s), s.trim_start());
        for t in SAMPLES {
            assert_eq!(has_prefix(s, t), s.starts_with(t));
            assert_eq!(has_part(s, t), s.contains(t));
            assert_eq!(same_text(s, t), s == t);
            assert_eq!(comes_before(s, t), s < t);
        }
    }
}

#[test]
fn texts_are_joined() {
    let parts: Vec<String> = SAMPLES.iter().map(|s| s.to_string()).collect();
    assert_eq!(join_texts(&parts, "\n"), SAMPLES.join("\n"));
    assert_eq!(join_texts(&vec![], "\n"), "");
}

#[test]
fn numbers_are_written_in_decimal() {
    for n in [0, 9, 10, 99, 100, 1_234_567_890, u64::MAX] {
        assert_eq!(decimal_text(n), n.to_string());
    }
}

#[test]
fn answer_is_read() {
    let answer = read_answer("SCAN a b BEGIN\n  x 1 \n\nSCAN END\n");
    assert_eq!(answer.keys, Some(("a".to_string(), "b".to_string())));
    assert_eq!(answer.body, vec!["x 1", "SCAN END"]);
    assert_eq!(read_answer("SCAN a").keys, None);
    assert_eq!(read_answer("SCANS a b").keys, None);
    assert!(read_answer("").body.is_empty());
}

fn entry(number: Option<u64>, word: &str, line: &str) -> Entry {
    Entry {
        number,
        word: word.to_string(),
        line: line.to_string(),
    }
}

#[test]
fn entries_are_sorted_by_number_or_by_text() {
    let sorted = sort_entries(vec![
        entry(Some(10), "k10", "k10 a"),
        entry(Some(9), "k9", "k9 b"),
        entry(Some(10), "k10", "k10 c"),
        entry(Some(2), "k2", "k2 d"),
    ]);
    let lines: Vec<String> = sorted.into_iter().map(|e| e.line).collect();
    assert_eq!(lines, vec!["k2 d", "k9 b", "k10 a", "k10 c"]);
    let sorted = sort_entries(vec![
        entry(None, "k9", "k9 b"),
        entry(None, "k10", "k10 a"),
        entry(Some(1), "k1", "k1 c"),
    ]);
    let lines: Vec<String> = sorted.into_iter().map(|e| e.line).collect();
    assert_eq!(lines, vec!["k1 c", "k10 a", "k9 b"]);
}

#[test]
fn letter_case_of_ascii_is_turned_letter_by_letter() {
    let all: String = (0..128u8).map(char::from).collect();
    assert_eq!(all.to_uppercase(), all.to_ascii_uppercase());
    assert_eq!(all.to_lowercase(), all.to_ascii_lowercase());
}
