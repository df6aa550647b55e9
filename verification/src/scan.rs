//! What a partition answers to a scan: a header line that names the first and the last key, and
//! below it one line for each entry. And how the answers of several partitions become one.
use crate::entries;
use crate::gather;
use crate::text;
use vstd::prelude::*;

verus! {

/// The two keys that a scan's header line names: its second and its third word.
pub open spec fn header_keys(line: Seq<char>) -> Option<(Seq<char>, Seq<char>)> {
    let parts = text::words(line);
    if text::starts_with(text::trim(line), "SCAN "@) && parts.len() >= 3 {
        Some((parts[1], parts[2]))
    } else {
        None
    }
}

/// The two keys that the header of an answer names, where its first line is a header.
pub open spec fn bound_keys(content: Seq<char>) -> Option<(Seq<char>, Seq<char>)> {
    let all = text::lines(content);
    if all.len() > 0 {
        header_keys(all[0])
    } else {
        None
    }
}

/// Whether the header of an answer names the key `word`.
pub open spec fn names_key(content: Seq<char>, word: Seq<char>) -> bool {
    bound_keys(content) matches Some(keys) && (keys.0 == word || keys.1 == word)
}

/// The numbers of the first keys that the answers' headers name, where they can be read.
pub open spec fn start_numbers(
    contents: Seq<Seq<char>>,
    read: spec_fn(Seq<char>) -> Option<u64>,
) -> Seq<u64>
    decreases contents.len(),
{
    if contents.len() == 0 {
        Seq::empty()
    } else {
        let before = start_numbers(contents.drop_last(), read);
        match bound_keys(contents.last()) {
            Some(keys) => match read(keys.0) {
                Some(n) => before.push(n),
                None => before,
            },
            None => before,
        }
    }
}

/// The numbers of the last keys that the answers' headers name, where they can be read.
pub open spec fn end_numbers(
    contents: Seq<Seq<char>>,
    read: spec_fn(Seq<char>) -> Option<u64>,
) -> Seq<u64>
    decreases contents.len(),
{
    if contents.len() == 0 {
        Seq::empty()
    } else {
        let before = end_numbers(contents.drop_last(), read);
        match bound_keys(contents.last()) {
            Some(keys) => match read(keys.1) {
                Some(n) => before.push(n),
                None => before,
            },
            None => before,
        }
    }
}

/// Those of `lines` that are more than white space, trimmed.
pub open spec fn filled(lines: Seq<Seq<char>>) -> Seq<Seq<char>>
    decreases lines.len(),
{
    if lines.len() == 0 {
        Seq::empty()
    } else if text::trim(lines.last()).len() > 0 {
        filled(lines.drop_last()).push(text::trim(lines.last()))
    } else {
        filled(lines.drop_last())
    }
}

/// What an answer holds below its first line: the lines that are more than white space, trimmed.
pub open spec fn body(content: Seq<char>) -> Seq<Seq<char>> {
    let all = text::lines(content);
    if all.len() > 0 {
        filled(all.drop_first())
    } else {
        Seq::empty()
    }
}

/// Which lines below a header are marks and no entries.
#[derive(Clone, Copy, Debug, PartialEq, Eq, Structural)]
pub enum Marks {
    /// Those that hold `SCAN END` anywhere.
    End,
    /// Those that start with `SCAN `.
    Any,
}

/// Whether a line is a mark.
pub open spec fn is_mark(marks: Marks, line: Seq<char>) -> bool {
    match marks {
        Marks::End => text::contains(line, "SCAN END"@),
        Marks::Any => text::starts_with(line, "SCAN "@),
    }
}

/// Those of `lines` that are no marks.
pub open spec fn without_marks(lines: Seq<Seq<char>>, marks: Marks) -> Seq<Seq<char>>
    decreases lines.len(),
{
    if lines.len() == 0 {
        Seq::empty()
    } else if is_mark(marks, lines.last()) {
        without_marks(lines.drop_last(), marks)
    } else {
        without_marks(lines.drop_last(), marks).push(lines.last())
    }
}

/// The entries of the answers, each a line, answer by answer.
pub open spec fn entry_lines(contents: Seq<Seq<char>>, marks: Marks) -> Seq<Seq<char>>
    decreases contents.len(),
{
    if contents.len() == 0 {
        Seq::empty()
    } else {
        entry_lines(contents.drop_last(), marks) + without_marks(body(contents.last()), marks)
    }
}

/// A scan as it is printed: its header, its entries, its end.
pub open spec fn scan_text(start: Seq<char>, end: Seq<char>, lines: Seq<Seq<char>>) -> Seq<char> {
    text::join(
        seq!["SCAN "@ + start + " "@ + end + " BEGIN"@] + lines + seq!["SCAN END"@],
        "\n"@,
    )
}

/// The least of some numbers.
pub open spec fn least(ns: Seq<u64>) -> Option<u64>
    decreases ns.len(),
{
    if ns.len() == 0 {
        None
    } else {
        match least(ns.drop_last()) {
            Some(m) => Some(if ns.last() < m { ns.last() } else { m }),
            None => Some(ns.last()),
        }
    }
}

/// The greatest of some numbers.
pub open spec fn greatest(ns: Seq<u64>) -> Option<u64>
    decreases ns.len(),
{
    if ns.len() == 0 {
        None
    } else {
        match greatest(ns.drop_last()) {
            Some(m) => Some(if ns.last() > m { ns.last() } else { m }),
            None => Some(ns.last()),
        }
    }
}

/// The least number is one of the numbers and no greater than any of them.
pub proof fn least_is_lower_bound(ns: Seq<u64>)
    ensures
        least(ns) is Some <==> ns.len() > 0,
        least(ns) matches Some(m) ==> ns.contains(m) && forall|i: int|
            0 <= i < ns.len() ==> m <= #[trigger] ns[i],
    decreases ns.len(),
{
    if ns.len() > 0 {
        let front = ns.drop_last();
        least_is_lower_bound(front);
        assert(ns[ns.len() - 1] == ns.last());
        if let Some(m) = least(front) {
            let k = choose|k: int| 0 <= k < front.len() && front[k] == m;
            assert(ns[k] == m);
            assert forall|i: int| 0 <= i < ns.len() implies least(ns)->0 <= #[trigger] ns[i] by {
                if i < front.len() {
                    assert(front[i] == ns[i]);
                }
            }
        }
    }
}

/// The greatest number is one of the numbers and no less than any of them.
pub proof fn greatest_is_upper_bound(ns: Seq<u64>)
    ensures
        greatest(ns) is Some <==> ns.len() > 0,
        greatest(ns) matches Some(m) ==> ns.contains(m) && forall|i: int|
            0 <= i < ns.len() ==> m >= #[trigger] ns[i],
    decreases ns.len(),
{
    if ns.len() > 0 {
        let front = ns.drop_last();
        greatest_is_upper_bound(front);
        assert(ns[ns.len() - 1] == ns.last());
        if let Some(m) = greatest(front) {
            let k = choose|k: int| 0 <= k < front.len() && front[k] == m;
            assert(ns[k] == m);
            assert forall|i: int| 0 <= i < ns.len() implies greatest(ns)->0 >= #[trigger] ns[i] by {
                if i < front.len() {
                    assert(front[i] == ns[i]);
                }
            }
        }
    }
}

/// The lesser of a number seen so far and the next one, as far as there are any.
pub open spec fn lower(seen: Option<u64>, n: Option<u64>) -> Option<u64> {
    match (seen, n) {
        (Some(a), Some(b)) => Some(if b < a { b } else { a }),
        (None, n) => n,
        (seen, None) => seen,
    }
}

/// The greater of a number seen so far and the next one, as far as there are any.
pub open spec fn higher(seen: Option<u64>, n: Option<u64>) -> Option<u64> {
    match (seen, n) {
        (Some(a), Some(b)) => Some(if b > a { b } else { a }),
        (None, n) => n,
        (seen, None) => seen,
    }
}

/// The lesser of a number seen so far and the next one, as far as there are any.
pub fn lesser(seen: Option<u64>, n: Option<u64>) -> (m: Option<u64>)
    ensures
        m == lower(seen, n),
{
    match (seen, n) {
        (Some(a), Some(b)) => Some(if b < a { b } else { a }),
        (None, n) => n,
        (seen, None) => seen,
    }
}

/// The greater of a number seen so far and the next one, as far as there are any.
pub fn greater(seen: Option<u64>, n: Option<u64>) -> (m: Option<u64>)
    ensures
        m == higher(seen, n),
{
    match (seen, n) {
        (Some(a), Some(b)) => Some(if b > a { b } else { a }),
        (None, n) => n,
        (seen, None) => seen,
    }
}

/// What `read_key` may say of the number in a key.
pub open spec fn gives<R: Fn(&str) -> Option<u64>>(read_key: R) -> spec_fn(
    Seq<char>,
    Option<u64>,
) -> bool {
    |w: Seq<char>, n: Option<u64>| exists|k: &str| k@ == w && #[trigger] read_key.ensures((k,), n)
}

/// The first keys that the answers' headers name.
pub open spec fn first_keys(contents: Seq<Seq<char>>) -> Seq<Option<Seq<char>>> {
    contents.map_values(
        |c: Seq<char>|
            match bound_keys(c) {
                Some(keys) => Some(keys.0),
                None => None,
            },
    )
}

/// The last keys that the answers' headers name.
pub open spec fn last_keys(contents: Seq<Seq<char>>) -> Seq<Option<Seq<char>>> {
    contents.map_values(
        |c: Seq<char>|
            match bound_keys(c) {
                Some(keys) => Some(keys.1),
                None => None,
            },
    )
}

/// Whether the numbers `ns` may be read in `keys`, each in the key at its place.
pub open spec fn may_be_read(
    keys: Seq<Option<Seq<char>>>,
    may: spec_fn(Seq<char>, Option<u64>) -> bool,
    ns: Seq<Option<u64>>,
) -> bool {
    &&& ns.len() == keys.len()
    &&& forall|i: int|
        0 <= i < keys.len() ==> match keys[i] {
            Some(key) => may(key, #[trigger] ns[i]),
            None => ns[i] is None,
        }
}

/// The least of the numbers that are there.
pub open spec fn lowest(ns: Seq<Option<u64>>) -> Option<u64>
    decreases ns.len(),
{
    if ns.len() == 0 {
        None
    } else {
        lower(lowest(ns.drop_last()), ns.last())
    }
}

/// The greatest of the numbers that are there.
pub open spec fn highest(ns: Seq<Option<u64>>) -> Option<u64>
    decreases ns.len(),
{
    if ns.len() == 0 {
        None
    } else {
        higher(highest(ns.drop_last()), ns.last())
    }
}

/// Whether the least number of the first keys that the answers' headers name may be `start`, when
/// `may` says which numbers may be read in a key.
pub open spec fn may_start(
    contents: Seq<Seq<char>>,
    may: spec_fn(Seq<char>, Option<u64>) -> bool,
    start: Option<u64>,
) -> bool {
    exists|ns: Seq<Option<u64>>| #[trigger]
        may_be_read(first_keys(contents), may, ns) && start == lowest(ns)
}

/// Whether the greatest number of the last keys that the answers' headers name may be `end`, when
/// `may` says which numbers may be read in a key.
pub open spec fn may_end(
    contents: Seq<Seq<char>>,
    may: spec_fn(Seq<char>, Option<u64>) -> bool,
    end: Option<u64>,
) -> bool {
    exists|ns: Seq<Option<u64>>| #[trigger]
        may_be_read(last_keys(contents), may, ns) && end == highest(ns)
}

/// Whether both a first and a last key may be found that can be read, with these numbers.
pub open spec fn may_span(
    contents: Seq<Seq<char>>,
    may: spec_fn(Seq<char>, Option<u64>) -> bool,
    start: u64,
    end: u64,
) -> bool {
    may_start(contents, may, Some(start)) && may_end(contents, may, Some(end))
}

/// Whether the header of any answer names the key `word`.
pub open spec fn some_names_key(contents: Seq<Seq<char>>, word: Seq<char>) -> bool {
    exists|i: int| 0 <= i < contents.len() && names_key(#[trigger] contents[i], word)
}

/// Whether `word` may be read as a key to merge answers: a header names it, or it is the first
/// word of an entry that is to be put into order, which is done only where both a first and a
/// last key were found.
pub open spec fn reads_key(
    contents: Seq<Seq<char>>,
    marks: Marks,
    may: spec_fn(Seq<char>, Option<u64>) -> bool,
    word: Seq<char>,
) -> bool {
    ||| some_names_key(contents, word)
    ||| entries::is_read(entry_lines(contents, marks), word) && exists|start: u64, end: u64|
        may_span(contents, may, start, end)
}

/// Whether a key with the number `n` may be written to print merged answers: it is the first or
/// the last.
pub open spec fn forms_number(
    contents: Seq<Seq<char>>,
    may: spec_fn(Seq<char>, Option<u64>) -> bool,
    n: u64,
) -> bool {
    exists|start: u64, end: u64| #[trigger]
        may_span(contents, may, start, end) && (n == start || n == end)
}

proof fn read_numbers_have_bounds(
    contents: Seq<Seq<char>>,
    read: spec_fn(Seq<char>) -> Option<u64>,
    ns: Seq<Option<u64>>,
    ms: Seq<Option<u64>>,
)
    requires
        may_be_read(first_keys(contents), |w: Seq<char>, n: Option<u64>| n == read(w), ns),
        may_be_read(last_keys(contents), |w: Seq<char>, n: Option<u64>| n == read(w), ms),
    ensures
        lowest(ns) == least(start_numbers(contents, read)),
        highest(ms) == greatest(end_numbers(contents, read)),
    decreases contents.len(),
{
    if contents.len() > 0 {
        let front = contents.drop_last();
        assert(first_keys(front) == first_keys(contents).drop_last());
        assert(last_keys(front) == last_keys(contents).drop_last());
        read_numbers_have_bounds(front, read, ns.drop_last(), ms.drop_last());
        assert(first_keys(contents).last() == first_keys(contents)[contents.len() - 1]);
        assert(ns.last() == ns[contents.len() - 1]);
        assert(ms.last() == ms[contents.len() - 1]);
        if let Some(n) = ns.last() {
            let before = start_numbers(front, read);
            assert(before.push(n).drop_last() == before);
        }
        if let Some(m) = ms.last() {
            let before = end_numbers(front, read);
            assert(before.push(m).drop_last() == before);
        }
    }
}

/// Where keys are read by `read`, the bounds of merged answers are the least and the greatest of
/// the numbers in their headers.
pub proof fn bounds_are_determined(
    contents: Seq<Seq<char>>,
    may: spec_fn(Seq<char>, Option<u64>) -> bool,
    read: spec_fn(Seq<char>) -> Option<u64>,
    start: Option<u64>,
    end: Option<u64>,
)
    requires
        forall|w: Seq<char>, n: Option<u64>| #[trigger] may(w, n) ==> n == read(w),
        may_start(contents, may, start),
        may_end(contents, may, end),
    ensures
        start == least(start_numbers(contents, read)),
        end == greatest(end_numbers(contents, read)),
{
    let ns = choose|ns: Seq<Option<u64>>| #[trigger]
        may_be_read(first_keys(contents), may, ns) && start == lowest(ns);
    let ms = choose|ms: Seq<Option<u64>>| #[trigger]
        may_be_read(last_keys(contents), may, ms) && end == highest(ms);
    read_numbers_have_bounds(contents, read, ns, ms);
}

proof fn some_number_bounds(ns: Seq<Option<u64>>, i: int)
    requires
        0 <= i < ns.len(),
        ns[i] is Some,
    ensures
        lowest(ns) is Some,
        highest(ns) is Some,
    decreases ns.len(),
{
    if i < ns.len() - 1 {
        some_number_bounds(ns.drop_last(), i);
    }
}

/// Where every key can be read and there is a header, both bounds are found.
pub proof fn header_gives_bounds(
    contents: Seq<Seq<char>>,
    may: spec_fn(Seq<char>, Option<u64>) -> bool,
    start: Option<u64>,
    end: Option<u64>,
    i: int,
)
    requires
        forall|w: Seq<char>, n: Option<u64>| #[trigger] may(w, n) ==> n is Some,
        0 <= i < contents.len(),
        bound_keys(contents[i]) is Some,
        may_start(contents, may, start),
        may_end(contents, may, end),
    ensures
        start is Some,
        end is Some,
{
    let ns = choose|ns: Seq<Option<u64>>| #[trigger]
        may_be_read(first_keys(contents), may, ns) && start == lowest(ns);
    let ms = choose|ms: Seq<Option<u64>>| #[trigger]
        may_be_read(last_keys(contents), may, ms) && end == highest(ms);
    assert(ns[i] is Some && ms[i] is Some);
    some_number_bounds(ns, i);
    some_number_bounds(ms, i);
}

/// What may be found where less may be read may also be found where more may be.
pub proof fn bounds_stay_possible(
    contents: Seq<Seq<char>>,
    less: spec_fn(Seq<char>, Option<u64>) -> bool,
    more: spec_fn(Seq<char>, Option<u64>) -> bool,
    start: Option<u64>,
    end: Option<u64>,
)
    requires
        forall|w: Seq<char>, n: Option<u64>| #[trigger] less(w, n) ==> more(w, n),
        may_start(contents, less, start),
        may_end(contents, less, end),
    ensures
        may_start(contents, more, start),
        may_end(contents, more, end),
{
    let ns = choose|ns: Seq<Option<u64>>| #[trigger]
        may_be_read(first_keys(contents), less, ns) && start == lowest(ns);
    let ms = choose|ms: Seq<Option<u64>>| #[trigger]
        may_be_read(last_keys(contents), less, ms) && end == highest(ms);
    assert(may_be_read(first_keys(contents), more, ns));
    assert(may_be_read(last_keys(contents), more, ms));
}

/// What an answer to a scan says.
#[derive(Debug)]
pub struct Answer {
    /// The two keys of its header, where it has one.
    pub keys: Option<(String, String)>,
    /// Its lines below the first that are more than white space, trimmed.
    pub body: Vec<String>,
}

/// Reads an answer to a scan.
pub fn read_answer(content: &str) -> (a: Answer)
    ensures
        match (a.keys, bound_keys(content@)) {
            (Some(k), Some(b)) => k.0@ == b.0 && k.1@ == b.1,
            (None, None) => true,
            _ => false,
        },
        text::texts(a.body@) == body(content@),
        forall|i: int| 0 <= i < a.body@.len() ==> text::words(#[trigger] a.body@[i]@).len() > 0,
{
    let all = text::split_lines(content);
    let ghost ls = text::lines(content@);
    assert(ls.len() == all@.len());
    if all.len() == 0 {
        let body: Vec<String> = Vec::new();
        assert(text::texts(body@) == Seq::<Seq<char>>::empty());
        return Answer { keys: None, body };
    }
    assert(ls[0] == all@[0]@);
    let parts = text::split_words(all[0].as_str());
    assert(parts@.len() == text::words(ls[0]).len());
    let head = text::trimmed(all[0].as_str());
    let keys = if text::has_prefix(head.as_str(), "SCAN ") && parts.len() >= 3 {
        assert(text::words(ls[0])[1] == parts@[1]@);
        assert(text::words(ls[0])[2] == parts@[2]@);
        Some((parts[1].clone(), parts[2].clone()))
    } else {
        None
    };
    let mut body: Vec<String> = Vec::new();
    let ghost rest = ls.drop_first();
    assert(text::texts(body@) == Seq::<Seq<char>>::empty());
    for i in 1..all.len()
        invariant
            ls == text::texts(all@),
            rest == ls.drop_first(),
            all@.len() >= 1,
            text::texts(body@) == filled(rest.take(i - 1)),
            forall|j: int| 0 <= j < body@.len() ==> text::words(#[trigger] body@[j]@).len() > 0,
    {
        let t = text::trimmed(all[i].as_str());
        assert(rest.take(i as int).drop_last() == rest.take(i - 1));
        assert(rest.take(i as int).last() == all@[i as int]@);
        if !t.as_str().is_empty() {
            let ghost before = text::texts(body@);
            proof {
                text::trimmed_text_has_word(all@[i as int]@);
            }
            body.push(t);
            assert(text::texts(body@) == before.push(t@));
        }
    }
    assert(rest.take(all@.len() - 1) == rest);
    Answer { keys, body }
}

/// Adds the entries among `body` to those found before.
fn add_entries(found: &mut Vec<String>, body: Vec<String>, marks: Marks)
    ensures
        text::texts(final(found)@) == text::texts(old(found)@) + without_marks(
            text::texts(body@),
            marks,
        ),
{
    let ghost all = text::texts(body@);
    let ghost before = text::texts(found@);
    assert(before + Seq::<Seq<char>>::empty() == before);
    for line in it: body
        invariant
            all == text::texts(it.seq()),
            text::texts(found@) == before + without_marks(all.take(it.index() as int), marks),
    {
        let ghost i = it.index() as int;
        let ghost so_far = text::texts(found@);
        assert(all.take(i + 1).drop_last() == all.take(i));
        assert(all.take(i + 1).last() == line@);
        let skipped = match marks {
            Marks::End => text::has_part(line.as_str(), "SCAN END"),
            Marks::Any => text::has_prefix(line.as_str(), "SCAN "),
        };
        if !skipped {
            found.push(line);
            assert(text::texts(found@) == so_far.push(line@));
        }
    }
    assert(all.take(all.len() as int) == all);
}

/// What the answers of several partitions come to.
#[derive(Debug)]
pub struct Merged {
    /// The least number of the first keys that their headers name.
    pub start: Option<u64>,
    /// The greatest number of the last keys that their headers name.
    pub end: Option<u64>,
    /// Their entries, answer by answer.
    pub lines: Vec<String>,
}

/// Merges the answers of several partitions.
pub fn merge<R: Fn(&str) -> Option<u64>>(
    contents: &Vec<String>,
    marks: Marks,
    read_key: &R,
) -> (m: Merged)
    requires
        forall|k: &str|
            some_names_key(text::texts(contents@), k@) ==> #[trigger] read_key.requires((k,)),
    ensures
        may_start(text::texts(contents@), gives(*read_key), m.start),
        may_end(text::texts(contents@), gives(*read_key), m.end),
        text::texts(m.lines@) == entry_lines(text::texts(contents@), marks),
{
    let ghost all = text::texts(contents@);
    let ghost may = gives(*read_key);
    let ghost mut ns: Seq<Option<u64>> = Seq::empty();
    let ghost mut ms: Seq<Option<u64>> = Seq::empty();
    let mut start: Option<u64> = None;
    let mut end: Option<u64> = None;
    let mut lines: Vec<String> = Vec::new();
    assert(text::texts(lines@) == Seq::<Seq<char>>::empty());
    for i in 0..contents.len()
        invariant
            all == text::texts(contents@),
            may == gives(*read_key),
            forall|k: &str| some_names_key(all, k@) ==> #[trigger] read_key.requires((k,)),
            may_be_read(first_keys(all.take(i as int)), may, ns),
            may_be_read(last_keys(all.take(i as int)), may, ms),
            start == lowest(ns),
            end == highest(ms),
            text::texts(lines@) == entry_lines(all.take(i as int), marks),
    {
        let ghost after = all.take(i + 1);
        assert(after.drop_last() == all.take(i as int));
        assert(after.last() == contents@[i as int]@);
        let answer = read_answer(contents[i].as_str());
        let mut n: Option<u64> = None;
        let mut m: Option<u64> = None;
        if let Some((start_key, end_key)) = &answer.keys {
            assert(names_key(all[i as int], start_key@));
            assert(names_key(all[i as int], end_key@));
            n = read_key(start_key.as_str());
            m = read_key(end_key.as_str());
            assert(may(start_key@, n));
            assert(may(end_key@, m));
        }
        start = lesser(start, n);
        end = greater(end, m);
        proof {
            assert(ns.push(n).drop_last() == ns);
            assert(ms.push(m).drop_last() == ms);
            ns = ns.push(n);
            ms = ms.push(m);
        }
        add_entries(&mut lines, answer.body, marks);
    }
    assert(all.take(all.len() as int) == all);
    Merged { start, end, lines }
}

/// Prints a scan.
pub fn print_scan(start: &str, end: &str, lines: Vec<String>) -> (t: String)
    ensures
        t@ == scan_text(start@, end@, text::texts(lines@)),
{
    let mut header = "SCAN ".to_owned();
    header.append(start);
    header.append(" ");
    header.append(end);
    header.append(" BEGIN");
    let ghost all = text::texts(lines@);
    let mut printed: Vec<String> = Vec::new();
    printed.push(header);
    assert(text::texts(printed@) == seq![header@] + all.take(0));
    for line in it: lines
        invariant
            all == text::texts(it.seq()),
            text::texts(printed@) == seq![header@] + all.take(it.index() as int),
    {
        let ghost before = text::texts(printed@);
        let ghost k = it.index() as int;
        assert(all.take(k + 1) == all.take(k).push(line@));
        printed.push(line);
        assert(text::texts(printed@) == before.push(line@));
    }
    assert(all.take(all.len() as int) == all);
    let ghost before = text::texts(printed@);
    printed.push("SCAN END".to_owned());
    assert(text::texts(printed@) == before + seq!["SCAN END"@]);
    text::join_texts(&printed, "\n")
}

/// The order of some numbers does not matter to the least and the greatest.
pub proof fn bounds_ignore_order(a: Seq<u64>, b: Seq<u64>)
    requires
        a.to_multiset() == b.to_multiset(),
    ensures
        least(a) == least(b),
        greatest(a) == greatest(b),
{
    least_is_lower_bound(a);
    least_is_lower_bound(b);
    greatest_is_upper_bound(a);
    greatest_is_upper_bound(b);
    assert forall|i: int| 0 <= i < a.len() implies b.contains(#[trigger] a[i]) by {
        assert(a.contains(a[i]));
        gather::same_elements(a, b, a[i]);
    }
    assert forall|i: int| 0 <= i < b.len() implies a.contains(#[trigger] b[i]) by {
        assert(b.contains(b[i]));
        gather::same_elements(a, b, b[i]);
    }
}

proof fn numbers_are_gathered(
    contents: Seq<Seq<char>>,
    read: spec_fn(Seq<char>) -> Option<u64>,
    first: spec_fn(Seq<char>) -> Seq<u64>,
    last: spec_fn(Seq<char>) -> Seq<u64>,
)
    requires
        forall|c: Seq<char>| #[trigger] first(c) == start_numbers(seq![c], read),
        forall|c: Seq<char>| #[trigger] last(c) == end_numbers(seq![c], read),
    ensures
        start_numbers(contents, read) == gather::gather(contents, first),
        end_numbers(contents, read) == gather::gather(contents, last),
    decreases contents.len(),
{
    if contents.len() > 0 {
        let front = contents.drop_last();
        let c = contents.last();
        numbers_are_gathered(front, read, first, last);
        assert(seq![c].drop_last() == Seq::<Seq<char>>::empty());
        reveal_with_fuel(start_numbers, 2);
        reveal_with_fuel(end_numbers, 2);
        assert(start_numbers(contents, read) =~= start_numbers(front, read) + first(c));
        assert(end_numbers(contents, read) =~= end_numbers(front, read) + last(c));
    }
}

/// The order of the answers does not matter to the least and the greatest of the numbers in their
/// headers.
pub proof fn header_bounds_ignore_order(
    a: Seq<Seq<char>>,
    b: Seq<Seq<char>>,
    read: spec_fn(Seq<char>) -> Option<u64>,
)
    requires
        a.to_multiset() == b.to_multiset(),
    ensures
        least(start_numbers(a, read)) == least(start_numbers(b, read)),
        greatest(end_numbers(a, read)) == greatest(end_numbers(b, read)),
{
    let first = |c: Seq<char>| start_numbers(seq![c], read);
    let last = |c: Seq<char>| end_numbers(seq![c], read);
    numbers_are_gathered(a, read, first, last);
    numbers_are_gathered(b, read, first, last);
    gather::gather_ignores_order(a, b, first);
    gather::gather_ignores_order(a, b, last);
    bounds_ignore_order(start_numbers(a, read), start_numbers(b, read));
    bounds_ignore_order(end_numbers(a, read), end_numbers(b, read));
}

proof fn entries_are_gathered(
    contents: Seq<Seq<char>>,
    marks: Marks,
    part: spec_fn(Seq<char>) -> Seq<Seq<char>>,
)
    requires
        forall|c: Seq<char>| #[trigger] part(c) == without_marks(body(c), marks),
    ensures
        entry_lines(contents, marks) == gather::gather(contents, part),
    decreases contents.len(),
{
    if contents.len() > 0 {
        entries_are_gathered(contents.drop_last(), marks, part);
    }
}

/// The entries of the same answers in another order are the same, in another order.
pub proof fn entries_ignore_order(a: Seq<Seq<char>>, b: Seq<Seq<char>>, marks: Marks)
    requires
        a.to_multiset() == b.to_multiset(),
    ensures
        entry_lines(a, marks).to_multiset() == entry_lines(b, marks).to_multiset(),
{
    let part = |c: Seq<char>| without_marks(body(c), marks);
    entries_are_gathered(a, marks, part);
    entries_are_gathered(b, marks, part);
    gather::gather_ignores_order(a, b, part);
}

/// A line that starts with `SCAN` and a space, past the white space in front of it, names the two
/// words that follow as its keys, however they are spaced and whatever follows them.
pub proof fn header_names_two_keys(
    pre: Seq<char>,
    gap: Seq<char>,
    a: Seq<char>,
    between: Seq<char>,
    b: Seq<char>,
    rest: Seq<char>,
)
    requires
        forall|i: int| 0 <= i < pre.len() ==> text::is_whitespace(#[trigger] pre[i]),
        forall|i: int| 0 <= i < gap.len() ==> text::is_whitespace(#[trigger] gap[i]),
        a.len() > 0,
        forall|i: int| 0 <= i < a.len() ==> !text::is_whitespace(#[trigger] a[i]),
        between.len() > 0,
        forall|i: int| 0 <= i < between.len() ==> text::is_whitespace(#[trigger] between[i]),
        b.len() > 0,
        forall|i: int| 0 <= i < b.len() ==> !text::is_whitespace(#[trigger] b[i]),
        rest.len() > 0 ==> text::is_whitespace(rest[0]),
    ensures
        header_keys(pre + "SCAN "@ + gap + a + between + b + rest) == Some((a, b)),
{
    reveal_strlit("SCAN ");
    let line = pre + "SCAN "@ + gap + a + between + b + rest;
    let scan = seq!['S', 'C', 'A', 'N'];
    let last = b + rest;
    let tail = a + (between + last);
    let core = scan + seq![' '] + (gap + tail);
    assert(line =~= pre + core);
    text::leading_whitespace_adds_no_words(pre, core);
    text::words_split_at_whitespace(scan, ' ', gap + tail);
    text::unbroken_text_is_one_word(scan);
    text::leading_whitespace_adds_no_words(gap, tail);
    text::whitespace_separates(a, between + last);
    text::unbroken_text_is_one_word(a);
    text::leading_whitespace_adds_no_words(between, last);
    text::whitespace_separates(b, rest);
    text::unbroken_text_is_one_word(b);
    let ws = text::words(line);
    assert(ws == seq![scan] + (seq![a] + (seq![b] + text::words(rest))));
    assert(ws[1] == a && ws[2] == b);
    let j = 5 + gap.len();
    assert(core[j as int] == a[0]);
    text::trimming_keeps_the_inside(pre, core, j as int);
    let t = text::trim(line);
    assert(core.subrange(0, 5) =~= "SCAN "@);
    assert(t.subrange(0, 5) =~= core.subrange(0, 5));
}

/// A line names keys exactly where it starts with `SCAN` and a space, past the white space in front
/// of it, and has three words; they are the second and the third.
pub proof fn header_has_three_words(line: Seq<char>)
    ensures
        header_keys(line) is Some <==> (exists|rest: Seq<char>|
            text::trim(line) == #[trigger] ("SCAN "@ + rest)) && text::words(line).len() >= 3,
        header_keys(line) matches Some(keys) ==> text::words(line).subrange(1, 3) == seq![
            keys.0,
            keys.1,
        ],
{
    text::parts_stand_in_texts(text::trim(line), "SCAN "@);
}

/// The first line of an answer is read as its header, and each line below it that is more than
/// white space is kept, without the white space around it.
pub proof fn answer_is_header_and_body(first: Seq<char>, rest: Seq<char>)
    requires
        !first.contains('\n'),
    ensures
        bound_keys(first + seq!['\n'] + rest) == header_keys(
            if first.len() > 0 && first.last() == '\r' {
                first.drop_last()
            } else {
                first
            },
        ),
        body(first + seq!['\n'] + rest) == text::lines(rest).map_values(
            |l: Seq<char>| text::trim(l),
        ).filter(|l: Seq<char>| l.len() > 0),
        first.len() > 0 ==> bound_keys(first) == header_keys(first),
        body(first).len() == 0,
        bound_keys(Seq::empty()) is None,
{
    text::newline_ends_a_line(first, rest);
    let content = first + seq!['\n'] + rest;
    assert(text::lines(content).drop_first() == text::lines(rest));
    filled_lines_are_trimmed(text::lines(rest));
    text::unbroken_text_is_one_line(first);
    if first.len() > 0 {
        assert(text::lines(first).drop_first() == Seq::<Seq<char>>::empty());
    }
}

/// The lines that are kept are those that are more than white space, trimmed, in order.
pub proof fn filled_lines_are_trimmed(lines: Seq<Seq<char>>)
    ensures
        filled(lines) == lines.map_values(|l: Seq<char>| text::trim(l)).filter(
            |l: Seq<char>| l.len() > 0,
        ),
    decreases lines.len(),
{
    reveal(Seq::filter);
    let f = |l: Seq<char>| text::trim(l);
    if lines.len() > 0 {
        filled_lines_are_trimmed(lines.drop_last());
        assert(lines.map_values(f).drop_last() == lines.drop_last().map_values(f));
        assert(lines.map_values(f).last() == text::trim(lines.last()));
    } else {
        assert(lines.map_values(f) == lines);
        assert(filled(lines) == lines);
    }
}

/// No entry is lost: the entries of answers are, answer by answer, all lines of their bodies but
/// the marks.
pub proof fn all_entries_are_kept(contents: Seq<Seq<char>>)
    ensures
        entry_lines(contents, Marks::End) == contents.map_values(
            |c: Seq<char>| body(c).filter(|l: Seq<char>| !text::contains(l, "SCAN END"@)),
        ).flatten(),
        entry_lines(contents, Marks::Any) == contents.map_values(
            |c: Seq<char>| body(c).filter(|l: Seq<char>| !text::starts_with(l, "SCAN "@)),
        ).flatten(),
    decreases contents.len(),
{
    let f = |c: Seq<char>| body(c).filter(|l: Seq<char>| !text::contains(l, "SCAN END"@));
    let g = |c: Seq<char>| body(c).filter(|l: Seq<char>| !text::starts_with(l, "SCAN "@));
    if contents.len() > 0 {
        let front = contents.drop_last();
        all_entries_are_kept(front);
        marks_are_left_out(body(contents.last()));
        let (a, b) = (front.map_values(f), front.map_values(g));
        let (x, y) = (f(contents.last()), g(contents.last()));
        assert(contents.map_values(f) == a.push(x));
        assert(contents.map_values(g) == b.push(y));
        a.lemma_flatten_push(x);
        b.lemma_flatten_push(y);
    }
}

/// Only marks are left out of an answer's lines, and all of them.
pub proof fn marks_are_left_out(lines: Seq<Seq<char>>)
    ensures
        without_marks(lines, Marks::End) == lines.filter(
            |l: Seq<char>| !text::contains(l, "SCAN END"@),
        ),
        without_marks(lines, Marks::Any) == lines.filter(
            |l: Seq<char>| !text::starts_with(l, "SCAN "@),
        ),
    decreases lines.len(),
{
    reveal(Seq::filter);
    if lines.len() > 0 {
        marks_are_left_out(lines.drop_last());
    }
}

/// The number of the first key that an answer's header names, where it has one that can be read.
pub open spec fn first_number(
    content: Seq<char>,
    read: spec_fn(Seq<char>) -> Option<u64>,
) -> Option<u64> {
    match bound_keys(content) {
        Some(keys) => read(keys.0),
        None => None,
    }
}

/// The number of the last key that an answer's header names, where it has one that can be read.
pub open spec fn last_number(
    content: Seq<char>,
    read: spec_fn(Seq<char>) -> Option<u64>,
) -> Option<u64> {
    match bound_keys(content) {
        Some(keys) => read(keys.1),
        None => None,
    }
}

/// The merged scan starts at the least number that any header names first and ends at the greatest
/// that any header names last; it has no bound only where no header names one.
pub proof fn merged_bounds_span_all_headers(
    contents: Seq<Seq<char>>,
    read: spec_fn(Seq<char>) -> Option<u64>,
)
    ensures
        match least(start_numbers(contents, read)) {
            Some(m) => (exists|i: int|
                0 <= i < contents.len() && first_number(#[trigger] contents[i], read) == Some(m))
                && forall|i: int|
                0 <= i < contents.len() ==> (first_number(#[trigger] contents[i], read) matches Some(
                    n,
                ) ==> m <= n),
            None => forall|i: int|
                0 <= i < contents.len() ==> first_number(#[trigger] contents[i], read) is None,
        },
        match greatest(end_numbers(contents, read)) {
            Some(m) => (exists|i: int|
                0 <= i < contents.len() && last_number(#[trigger] contents[i], read) == Some(m))
                && forall|i: int|
                0 <= i < contents.len() ==> (last_number(#[trigger] contents[i], read) matches Some(
                    n,
                ) ==> m >= n),
            None => forall|i: int|
                0 <= i < contents.len() ==> last_number(#[trigger] contents[i], read) is None,
        },
    decreases contents.len(),
{
    if contents.len() > 0 {
        let front = contents.drop_last();
        merged_bounds_span_all_headers(front, read);
        let last = contents[contents.len() - 1];
        let ns = start_numbers(front, read);
        let ms = end_numbers(front, read);
        if let Some(n) = first_number(last, read) {
            assert(ns.push(n).drop_last() == ns);
        }
        if let Some(m) = last_number(last, read) {
            assert(ms.push(m).drop_last() == ms);
        }
        if let Some(m) = least(ns) {
            let k = choose|k: int|
                0 <= k < front.len() && first_number(#[trigger] front[k], read) == Some(m);
            assert(first_number(contents[k], read) == Some(m));
        }
        if let Some(m) = greatest(ms) {
            let k = choose|k: int|
                0 <= k < front.len() && last_number(#[trigger] front[k], read) == Some(m);
            assert(last_number(contents[k], read) == Some(m));
        }
        assert forall|i: int| 0 <= i < front.len() implies #[trigger] contents[i] == front[i]
            && first_number(front[i], read) == first_number(contents[i], read) && last_number(
            front[i],
            read,
        ) == last_number(contents[i], read) by {}
        assert(first_number(last, read) is Some ==> start_numbers(contents, read) == ns.push(
            first_number(last, read)->0,
        ));
        assert(last_number(last, read) is Some ==> end_numbers(contents, read) == ms.push(
            last_number(last, read)->0,
        ));
    }
}

/// A printed scan is its header, then each line on a line of its own, then the mark of its end: no
/// line is lost, whatever their number.
pub proof fn printed_scan_holds_all_lines(
    start: Seq<char>,
    end: Seq<char>,
    lines: Seq<Seq<char>>,
)
    ensures
        scan_text(start, end, lines) == "SCAN "@ + start + " "@ + end + " BEGIN"@
            + lines.map_values(|l: Seq<char>| "\n"@ + l).flatten() + "\nSCAN END"@,
{
    let header = "SCAN "@ + start + " "@ + end + " BEGIN"@;
    let f = |l: Seq<char>| "\n"@ + l;
    let parts = seq![header] + lines + seq!["SCAN END"@];
    text::joined_text_is_its_parts(parts, "\n"@);
    let inner = lines.map_values(f);
    reveal_strlit("\n");
    reveal_strlit("SCAN END");
    reveal_strlit("\nSCAN END");
    assert("\nSCAN END"@ =~= f("SCAN END"@));
    assert(parts.drop_first() =~= lines + seq!["SCAN END"@]);
    assert(parts.drop_first().map_values(f) =~= inner.push("\nSCAN END"@));
    inner.lemma_flatten_push("\nSCAN END"@);
    assert(header + (inner.flatten() + "\nSCAN END"@) == header + inner.flatten()
        + "\nSCAN END"@);
}

} // verus!
