//! What a merged scan is.
use crate::entries;
use crate::scan;
use crate::text;
use vstd::prelude::*;

verus! {

/// Whether `lines` lists `entries` in the order of their keys: each as often as it is there, no
/// line before one that belongs ahead of it, and lines with the same first word as they came.
pub open spec fn lists_in_order(
    lines: Seq<Seq<char>>,
    entries: Seq<Seq<char>>,
    read: spec_fn(Seq<char>) -> Option<u64>,
) -> bool {
    &&& lines.to_multiset() == entries.to_multiset()
    &&& lines.len() == entries.len()
    &&& forall|i: int, j: int|
        0 <= i && j == i + 1 && j < lines.len() ==> match (
            read(entries::first_word(#[trigger] lines[i])),
            read(entries::first_word(#[trigger] lines[j])),
        ) {
            (Some(x), Some(y)) => x <= y,
            _ => !text::text_less(entries::first_word(lines[j]), entries::first_word(lines[i])),
        }
    &&& forall|w: Seq<char>| #[trigger]
        lines.filter(led_by(w)) == entries.filter(led_by(w))
}

/// Whether the first word of a line is `w`.
pub open spec fn led_by(w: Seq<char>) -> spec_fn(Seq<char>) -> bool {
    |l: Seq<char>| entries::first_word(l) == w
}

/// Whether `m` is the least number that the headers of answers name first.
pub open spec fn is_start(
    contents: Seq<Seq<char>>,
    read: spec_fn(Seq<char>) -> Option<u64>,
    m: u64,
) -> bool {
    &&& exists|i: int|
        0 <= i < contents.len() && scan::first_number(#[trigger] contents[i], read) == Some(m)
    &&& forall|i: int|
        0 <= i < contents.len() ==> (scan::first_number(#[trigger] contents[i], read) matches Some(
            n,
        ) ==> m <= n)
}

/// Whether `m` is the greatest number that the headers of answers name last.
pub open spec fn is_end(
    contents: Seq<Seq<char>>,
    read: spec_fn(Seq<char>) -> Option<u64>,
    m: u64,
) -> bool {
    &&& exists|i: int|
        0 <= i < contents.len() && scan::last_number(#[trigger] contents[i], read) == Some(m)
    &&& forall|i: int|
        0 <= i < contents.len() ==> (scan::last_number(#[trigger] contents[i], read) matches Some(
            n,
        ) ==> m >= n)
}

/// Whether `t` prints a scan from the key `start` to the key `end`, one line for each of `lines`.
pub open spec fn prints_scan(
    t: Seq<char>,
    start: Seq<char>,
    end: Seq<char>,
    lines: Seq<Seq<char>>,
) -> bool {
    t == "SCAN "@ + start + " "@ + end + " BEGIN"@ + lines.map_values(
        |l: Seq<char>| "\n"@ + l,
    ).flatten() + "\nSCAN END"@
}

/// The printed lines list the lines in the order of their keys.
pub proof fn printed_lines_list_in_order(
    lines: Seq<Seq<char>>,
    read: spec_fn(Seq<char>) -> Option<u64>,
)
    ensures
        lists_in_order(entries::printed_lines(lines, read), lines, read),
{
    broadcast use vstd::seq_lib::group_to_multiset_ensures;

    let out = entries::printed_lines(lines, read);
    entries::printed_lines_are_the_lines(lines, read);
    assert(out.len() == out.to_multiset().len());
    assert(lines.len() == lines.to_multiset().len());
    entries::printed_neighbours_are_in_order(lines, read);
    assert forall|w: Seq<char>| #[trigger]
        out.filter(led_by(w)) == lines.filter(led_by(w)) by {
        entries::printed_lines_keep_the_order_of_a_word(lines, read, w);
        assert(led_by(w) == (|l: Seq<char>| entries::first_word(l) == w));
    }
}

} // verus!
