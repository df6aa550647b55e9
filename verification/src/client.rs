//! The interactive client: reads commands from a terminal and prints what they gave.
use crate::entries;
use crate::entries::order_lines;
use crate::gather;
use crate::gateway;
use crate::gateway::{any_aborted, CommandResult, OperationResult};
use crate::scan;
use crate::scan::{merge, print_scan, read_answer, Marks};
use crate::text;
use crate::text::{chars_of, decimal_text, has_prefix, join_texts, same_text, trimmed_start};
use vstd::prelude::*;

pub use crate::text::error;

verus! {

/// How many characters of `line` stand in front of the first space outside quotes, when `line`
/// starts inside quotes or not.
pub open spec fn piece_len(line: Seq<char>, in_quote: bool) -> nat
    decreases line.len(),
{
    if line.len() == 0 || (line[0] == ' ' && !in_quote) {
        0
    } else {
        1 + piece_len(
            line.drop_first(),
            if line[0] == '"' {
                !in_quote
            } else {
                in_quote
            },
        )
    }
}

/// `s` without its double quotes.
pub open spec fn unquoted(s: Seq<char>) -> Seq<char>
    decreases s.len(),
{
    if s.len() == 0 {
        s
    } else if s.last() == '"' {
        unquoted(s.drop_last())
    } else {
        unquoted(s.drop_last()).push(s.last())
    }
}

/// How many double quotes `s` holds.
pub open spec fn quote_count(s: Seq<char>) -> nat
    decreases s.len(),
{
    if s.len() == 0 {
        0
    } else {
        quote_count(s.drop_last()) + (if s.last() == '"' {
            1nat
        } else {
            0
        })
    }
}

/// Whether a piece between two spaces is a token: it holds more than quotes, or a text in quotes,
/// be it empty.
pub open spec fn makes_token(piece: Seq<char>) -> bool {
    unquoted(piece).len() > 0 || quote_count(piece) >= 2
}

/// The tokens of `line`: those of the pieces between the spaces that stand outside quotes that
/// make a token, without their quotes.
pub open spec fn tokens_of(line: Seq<char>) -> Seq<Seq<char>>
    decreases line.len(),
{
    if line.len() == 0 {
        Seq::empty()
    } else {
        let n = piece_len(line, false);
        let token = unquoted(line.take(n as int));
        let rest = if n < line.len() {
            tokens_of(line.skip(n as int + 1))
        } else {
            Seq::empty()
        };
        if makes_token(line.take(n as int)) {
            seq![token] + rest
        } else {
            rest
        }
    }
}

/// Splits a line into tokens at its spaces. A text in double quotes belongs to one token, with
/// the spaces in it; an empty text in double quotes is an empty token.
pub fn tokenize(line: &str) -> (tokens: Vec<String>)
    ensures
        text::texts(tokens@) == tokens_of(line@),
{
    let c = chars_of(line);
    let n: usize = c.len();
    let ghost s = line@;
    let mut tokens: Vec<String> = Vec::new();
    let mut token = String::new();
    let mut in_quote = false;
    let mut closed = false;
    let ghost mut start: int = 0;
    assert(s.skip(0) == s);
    assert(unquoted(s.subrange(0, 0)) == Seq::<char>::empty());
    for i in 0..n
        invariant
            c@ == s,
            n == s.len(),
            0 <= start <= i,
            token@ == unquoted(s.subrange(start, i as int)),
            in_quote <==> quote_count(s.subrange(start, i as int)) % 2 == 1,
            closed <==> quote_count(s.subrange(start, i as int)) >= 2,
            piece_len(s.skip(start), false) == (i - start) + piece_len(
                s.skip(i as int),
                in_quote,
            ),
            text::texts(tokens@) + tokens_of(s.skip(start)) == tokens_of(s),
    {
        let ch = c[i];
        assert(s.skip(i as int).drop_first() == s.skip(i + 1));
        assert(s.subrange(start, i + 1).drop_last() == s.subrange(start, i as int));
        if ch == ' ' && !in_quote {
            proof {
                let rest = s.skip(start);
                assert(piece_len(rest, false) == i - start);
                assert(rest.take(i - start) == s.subrange(start, i as int));
                assert(rest.skip(i - start + 1) == s.skip(i + 1));
            }
            if closed || !token.as_str().is_empty() {
                let ghost before = text::texts(tokens@);
                let ghost t = token@;
                tokens.push(token);
                token = String::new();
                closed = false;
                assert(text::texts(tokens@) == before.push(t));
                assert(before + (seq![t] + tokens_of(s.skip(i + 1))) == before.push(t)
                    + tokens_of(s.skip(i + 1)));
            }
            proof {
                start = i + 1;
                assert(s.subrange(start, i + 1) == Seq::<char>::empty());
            }
        } else if ch == '"' {
            if in_quote {
                closed = true;
            }
            in_quote = !in_quote;
        } else {
            token.push(ch);
        }
    }
    proof {
        let rest = s.skip(start);
        assert(rest.take(n - start) == s.subrange(start, n as int));
    }
    if closed || !token.as_str().is_empty() {
        let ghost before = text::texts(tokens@);
        let ghost t = token@;
        tokens.push(token);
        assert(text::texts(tokens@) == before.push(t));
        assert(before + (seq![t] + Seq::<Seq<char>>::empty()) == before.push(t));
    } else {
        assert(text::texts(tokens@) + Seq::<Seq<char>>::empty() == text::texts(tokens@));
    }
    tokens
}

/// Whether `extract_key_number` reads the number in a key as `number` says.
pub open spec fn numbers_as<R: Fn(&str) -> u64>(
    extract_key_number: R,
    number: spec_fn(Seq<char>) -> u64,
) -> bool {
    forall|k: &str, n: u64| #[trigger] extract_key_number.ensures((k,), n) ==> n == number(k@)
}

/// Whether `form_key` writes the key of a number as `form` says.
pub open spec fn forms_as<N: Fn(u64) -> String>(
    form_key: N,
    form: spec_fn(u64) -> Seq<char>,
) -> bool {
    forall|n: u64, s: String| #[trigger] form_key.ensures((n,), s) ==> s@ == form(n)
}

/// The reading of keys that finds in each the number that `number` says.
pub open spec fn always(number: spec_fn(Seq<char>) -> u64) -> spec_fn(Seq<char>) -> Option<u64> {
    |w: Seq<char>| Some(number(w))
}

/// The results of all operations, partition by partition.
pub open spec fn all_ops(results: Seq<CommandResult>) -> Seq<OperationResult>
    decreases results.len(),
{
    if results.len() == 0 {
        Seq::empty()
    } else {
        all_ops(results.drop_last()) + results.last().ops@
    }
}

/// `ids`, which ascend, and `id` among them.
pub open spec fn add_id(ids: Seq<u32>, id: u32) -> Seq<u32>
    decreases ids.len(),
{
    if ids.len() == 0 || ids.last() < id {
        ids.push(id)
    } else if ids.last() == id {
        ids
    } else {
        add_id(ids.drop_last(), id).push(ids.last())
    }
}

/// The ids of the operations, each once, ascending.
pub open spec fn op_ids(ops: Seq<OperationResult>) -> Seq<u32>
    decreases ops.len(),
{
    if ops.len() == 0 {
        Seq::empty()
    } else {
        add_id(op_ids(ops.drop_last()), ops.last().id)
    }
}

/// The results of the operation `id`.
pub open spec fn with_id(ops: Seq<OperationResult>, id: u32) -> Seq<OperationResult>
    decreases ops.len(),
{
    if ops.len() == 0 {
        Seq::empty()
    } else if ops.last().id == id {
        with_id(ops.drop_last(), id).push(ops.last())
    } else {
        with_id(ops.drop_last(), id)
    }
}

/// Whether the results of one operation are those of a scan: the first of them says so.
pub open spec fn is_scan(group: Seq<OperationResult>) -> bool {
    group.len() > 0 && text::starts_with(text::trim_start(group[0].content@), "SCAN "@)
}

/// Whether any of the results of one operation is an error.
pub open spec fn some_error(group: Seq<OperationResult>) -> bool {
    exists|i: int| 0 <= i < group.len() && (#[trigger] group[i]).has_err
}

/// What the results of one operation say.
pub open spec fn contents(group: Seq<OperationResult>) -> Seq<Seq<char>> {
    group.map_values(|op: OperationResult| op.content@)
}

/// What `extract_key_number` may say of the number in a key.
pub open spec fn gives<R: Fn(&str) -> u64>(extract_key_number: R) -> spec_fn(
    Seq<char>,
    Option<u64>,
) -> bool {
    |w: Seq<char>, n: Option<u64>|
        n matches Some(m) && exists|k: &str|
            k@ == w && #[trigger] extract_key_number.ensures((k,), m)
}

/// Whether `word` is read as a key to print the results of one operation: they are those of a
/// scan, and a header names it or it is the first word of an entry that is to be put into order.
pub open spec fn reads_key(group: Seq<OperationResult>, word: Seq<char>) -> bool {
    &&& is_scan(group)
    &&& {
        ||| scan::some_names_key(contents(group), word)
        ||| entries::is_read(scan::entry_lines(contents(group), Marks::Any), word)
    }
}

/// Whether the key of `n` may be written to print the results of one operation, when `may` says
/// which numbers may be read in a key: they are those of a scan, and it is the first or the last.
pub open spec fn forms_number(
    group: Seq<OperationResult>,
    may: spec_fn(Seq<char>, Option<u64>) -> bool,
    n: u64,
) -> bool {
    is_scan(group) && scan::forms_number(contents(group), may, n)
}

/// Whether the key of `n` may be written to print the results of any of the operations `ids`.
pub open spec fn some_forms_number(
    ids: Seq<u32>,
    ops: Seq<OperationResult>,
    may: spec_fn(Seq<char>, Option<u64>) -> bool,
    n: u64,
) -> bool {
    exists|k: int| 0 <= k < ids.len() && forms_number(with_id(ops, #[trigger] ids[k]), may, n)
}

/// Whether `word` is read as a key to print the results of any of the operations `ids`.
pub open spec fn some_reads_key(
    ids: Seq<u32>,
    ops: Seq<OperationResult>,
    word: Seq<char>,
) -> bool {
    exists|k: int| 0 <= k < ids.len() && reads_key(with_id(ops, #[trigger] ids[k]), word)
}

/// Whether the results of one operation can be printed: a scan has a header among them, and
/// anything else is one result.
pub open spec fn is_printable_group(group: Seq<OperationResult>) -> bool {
    if is_scan(group) {
        exists|i: int|
            0 <= i < group.len() && scan::bound_keys((#[trigger] group[i]).content@) is Some
    } else {
        group.len() == 1
    }
}

/// Whether the results of a command can be printed.
pub open spec fn is_printable(results: Seq<CommandResult>) -> bool {
    let ops = all_ops(results);
    forall|k: int|
        0 <= k < op_ids(ops).len() ==> is_printable_group(with_id(ops, #[trigger] op_ids(ops)[k]))
}

/// The lines of a scan's entries as they are printed, each behind two spaces.
pub open spec fn indented(lines: Seq<Seq<char>>) -> Seq<Seq<char>> {
    lines.map_values(|l: Seq<char>| "  "@ + l)
}

/// What the results of one operation say, all partitions taken together.
pub open spec fn group_content(
    group: Seq<OperationResult>,
    number: spec_fn(Seq<char>) -> u64,
    form: spec_fn(u64) -> Seq<char>,
) -> Seq<char> {
    if is_scan(group) {
        scan::scan_text(
            form(scan::least(scan::start_numbers(contents(group), always(number))).unwrap()),
            form(scan::greatest(scan::end_numbers(contents(group), always(number))).unwrap()),
            indented(
                entries::printed_lines(
                    scan::entry_lines(contents(group), Marks::Any),
                    always(number),
                ),
            ),
        )
    } else {
        group[0].content@
    }
}

/// The results of the operation `id` as they are printed.
pub open spec fn group_text(
    id: u32,
    group: Seq<OperationResult>,
    number: spec_fn(Seq<char>) -> u64,
    form: spec_fn(u64) -> Seq<char>,
) -> Seq<char> {
    let content = group_content(group, number, form);
    text::decimal(id as nat) + "> "@ + (if some_error(group) {
        text::error_text(content)
    } else {
        content
    })
}

/// The result of the operation `id` that is no scan as it is printed.
pub open spec fn plain_text(id: u32, op: OperationResult) -> Seq<char> {
    text::decimal(id as nat) + "> "@ + (if op.has_err {
        text::error_text(op.content@)
    } else {
        op.content@
    })
}

/// Whether none of the operations of a command is a scan.
pub open spec fn has_no_scan(results: Seq<CommandResult>) -> bool {
    let ops = all_ops(results);
    forall|k: int|
        0 <= k < op_ids(ops).len() ==> !is_scan(with_id(ops, #[trigger] op_ids(ops)[k]))
}

/// The results of the operations `ids` as they are printed.
pub open spec fn group_texts(
    ids: Seq<u32>,
    ops: Seq<OperationResult>,
    number: spec_fn(Seq<char>) -> u64,
    form: spec_fn(u64) -> Seq<char>,
) -> Seq<Seq<char>> {
    ids.map_values(|id: u32| group_text(id, with_id(ops, id), number, form))
}

/// The last line of what is printed for a command.
pub open spec fn verdict(results: Seq<CommandResult>) -> Seq<char> {
    if gateway::some_aborted(results) {
        "ABORTED"@
    } else {
        "COMMITTED"@
    }
}

/// The results of a command as they are printed: its operations by ascending id, and whether it
/// took effect.
pub open spec fn results_text(
    results: Seq<CommandResult>,
    number: spec_fn(Seq<char>) -> u64,
    form: spec_fn(u64) -> Seq<char>,
) -> Seq<char> {
    let ops = all_ops(results);
    text::join(group_texts(op_ids(ops), ops, number, form).push(verdict(results)), "\n"@)
}

/// The results of all operations, partition by partition.
fn collect_ops(results: &[CommandResult]) -> (ops: Vec<OperationResult>)
    ensures
        ops@ == all_ops(results@),
{
    let mut ops: Vec<OperationResult> = Vec::new();
    for i in 0..results.len()
        invariant
            ops@ == all_ops(results@.take(i as int)),
    {
        let ghost before = ops@;
        let part = &results[i].ops;
        assert(results@.take(i + 1).drop_last() == results@.take(i as int));
        assert(before + part@.take(0) == before);
        for j in 0..part.len()
            invariant
                ops@ == before + part@.take(j as int),
        {
            ops.push(part[j].clone());
            assert(part@.take(j + 1) == part@.take(j as int).push(part@[j as int]));
        }
        assert(part@.take(part@.len() as int) == part@);
    }
    assert(results@.take(results@.len() as int) == results@);
    ops
}

/// Where `add_id` puts an id that is not there yet.
proof fn add_id_at(ids: Seq<u32>, id: u32, p: int)
    requires
        0 <= p <= ids.len(),
        forall|j: int| p <= j < ids.len() ==> id < #[trigger] ids[j],
        p > 0 ==> ids[p - 1] <= id,
    ensures
        add_id(ids, id) == (if p > 0 && ids[p - 1] == id {
            ids
        } else {
            ids.insert(p, id)
        }),
    decreases ids.len(),
{
    if p < ids.len() {
        add_id_at(ids.drop_last(), id, p);
        assert(ids.drop_last().insert(p, id).push(ids.last()) == ids.insert(p, id));
        assert(ids.drop_last().push(ids.last()) == ids);
    } else {
        assert(ids.insert(p, id) == ids.push(id));
    }
}

/// The ids of the operations, each once, ascending.
fn collect_ids(ops: &Vec<OperationResult>) -> (ids: Vec<u32>)
    ensures
        ids@ == op_ids(ops@),
{
    let mut ids: Vec<u32> = Vec::new();
    for i in 0..ops.len()
        invariant
            ids@ == op_ids(ops@.take(i as int)),
    {
        let id = ops[i].id;
        let mut p: usize = ids.len();
        while p > 0 && id < ids[p - 1]
            invariant
                p <= ids@.len(),
                forall|j: int| p <= j < ids@.len() ==> id < #[trigger] ids@[j],
            decreases p,
        {
            p = p - 1;
        }
        proof {
            add_id_at(ids@, id, p as int);
            assert(ops@.take(i + 1).drop_last() == ops@.take(i as int));
        }
        if p == 0 || ids[p - 1] != id {
            ids.insert(p, id);
        }
    }
    assert(ops@.take(ops@.len() as int) == ops@);
    ids
}

/// The results of the operation `id`.
fn pick_group(ops: &Vec<OperationResult>, id: u32) -> (group: Vec<OperationResult>)
    ensures
        group@ == with_id(ops@, id),
{
    let mut group: Vec<OperationResult> = Vec::new();
    for i in 0..ops.len()
        invariant
            group@ == with_id(ops@.take(i as int), id),
    {
        assert(ops@.take(i + 1).drop_last() == ops@.take(i as int));
        if ops[i].id == id {
            group.push(ops[i].clone());
        }
    }
    assert(ops@.take(ops@.len() as int) == ops@);
    group
}

/// Whether the results of one operation are those of a scan.
fn starts_scan(group: &Vec<OperationResult>) -> (b: bool)
    ensures
        b == is_scan(group@),
{
    if group.len() == 0 {
        return false;
    }
    let content = trimmed_start(group[0].content.as_str());
    has_prefix(content.as_str(), "SCAN ")
}

/// Whether the results of a command can be printed: each scan among its operations has a header,
/// and any other operation has one result.
pub fn check_printable(results: &[CommandResult]) -> (b: bool)
    ensures
        b == is_printable(results@),
{
    let ops = collect_ops(results);
    let ids = collect_ids(&ops);
    for k in 0..ids.len()
        invariant
            ops@ == all_ops(results@),
            ids@ == op_ids(ops@),
            forall|j: int| 0 <= j < k ==> is_printable_group(with_id(ops@, #[trigger] ids@[j])),
    {
        let group = pick_group(&ops, ids[k]);
        let printable = if starts_scan(&group) {
            let mut found = false;
            for i in 0..group.len()
                invariant
                    found == exists|j: int|
                        0 <= j < i && scan::bound_keys((#[trigger] group@[j]).content@) is Some,
            {
                let answer = read_answer(group[i].content.as_str());
                if answer.keys.is_some() {
                    assert(scan::bound_keys(group@[i as int].content@) is Some);
                    found = true;
                }
            }
            found
        } else {
            group.len() == 1
        };
        if !printable {
            assert(!is_printable_group(with_id(ops@, ids@[k as int])));
            return false;
        }
    }
    true
}

/// Whether `said` holds every entry of a scan's results, as often as it is there and nothing else,
/// each behind two spaces, between a header and the mark of the end.
pub open spec fn keeps_entries(said: Seq<char>, group: Seq<OperationResult>) -> bool {
    exists|a: Seq<char>, b: Seq<char>, lines: Seq<Seq<char>>|
        said == #[trigger] scan::scan_text(a, b, indented(lines)) && lines.to_multiset()
            == scan::entry_lines(contents(group), Marks::Any).to_multiset()
}

/// Whether `said` holds all that the results of one operation give.
pub open spec fn says_all(said: Seq<char>, group: Seq<OperationResult>) -> bool {
    if is_scan(group) {
        keeps_entries(said, group)
    } else {
        said == group[0].content@
    }
}

/// Whether `t` holds all that the results of the operation `id` give, behind its id and the mark of
/// an error where it has one.
pub open spec fn holds_group(t: Seq<char>, id: u32, group: Seq<OperationResult>) -> bool {
    exists|said: Seq<char>| #[trigger]
        says_all(said, group) && t == text::decimal(id as nat) + "> "@ + (if some_error(group) {
            text::error_text(said)
        } else {
            said
        })
}

/// Whether each of `output` holds all that the results of the operation at its place give.
pub open spec fn holds_groups(
    output: Seq<Seq<char>>,
    ids: Seq<u32>,
    ops: Seq<OperationResult>,
) -> bool {
    &&& output.len() == ids.len()
    &&& forall|k: int|
        0 <= k < ids.len() ==> holds_group(#[trigger] output[k], ids[k], with_id(ops, ids[k]))
}

/// Whether `t` holds all that the results of a command give.
pub open spec fn holds_results(t: Seq<char>, results: Seq<CommandResult>) -> bool {
    exists|blocks: Seq<Seq<char>>| #[trigger]
        holds_groups(blocks, op_ids(all_ops(results)), all_ops(results)) && t == text::join(
            blocks.push(verdict(results)),
            "\n"@,
        )
}

/// What the results of one operation say.
fn collect_contents(group: &Vec<OperationResult>) -> (v: Vec<String>)
    ensures
        text::texts(v@) == contents(group@),
{
    let mut v: Vec<String> = Vec::new();
    for i in 0..group.len()
        invariant
            text::texts(v@) == contents(group@.take(i as int)),
    {
        let ghost before = text::texts(v@);
        v.push(group[i].content.clone());
        assert(text::texts(v@) == before.push(group@[i as int].content@));
        assert(group@.take(i + 1) == group@.take(i as int).push(group@[i as int]));
    }
    assert(group@.take(group@.len() as int) == group@);
    v
}

/// The lines of a scan's entries as they are printed, each behind two spaces.
fn indent(lines: Vec<String>) -> (out: Vec<String>)
    ensures
        text::texts(out@) == indented(text::texts(lines@)),
{
    let ghost all = text::texts(lines@);
    let mut out: Vec<String> = Vec::new();
    for entry in it: lines
        invariant
            all == text::texts(it.seq()),
            text::texts(out@) == indented(all.take(it.index() as int)),
    {
        let ghost before = text::texts(out@);
        let ghost k = it.index() as int;
        let mut line = "  ".to_owned();
        line.append(entry.as_str());
        assert(indented(all.take(k + 1)) == indented(all.take(k)).push(line@));
        out.push(line);
        assert(text::texts(out@) == before.push(line@));
    }
    assert(all.take(all.len() as int) == all);
    out
}

/// Prints a scan, the results of all partitions taken together: the first and the last key of
/// all of them, and the entries in the order of the keys.
fn format_scan<R: Fn(&str) -> u64, N: Fn(u64) -> String>(
    group: &Vec<OperationResult>,
    extract_key_number: &R,
    form_key: &N,
) -> (t: String)
    requires
        forall|k: &str| reads_key(group@, k@) ==> #[trigger] extract_key_number.requires((k,)),
        forall|n: u64|
            forms_number(group@, gives(*extract_key_number), n) ==> #[trigger] form_key.requires(
                (n,),
            ),
        is_scan(group@),
        is_printable_group(group@),
    ensures
        forall|number: spec_fn(Seq<char>) -> u64, form: spec_fn(u64) -> Seq<char>| #[trigger]
            numbers_as(*extract_key_number, number) && #[trigger] forms_as(*form_key, form)
                ==> t@ == group_content(group@, number, form),
        keeps_entries(t@, group@),
{
    let ghost said = contents(group@);
    let read_key = |k: &str| -> (n: Option<u64>)
        requires
            extract_key_number.requires((k,)),
        ensures
            n matches Some(m) && extract_key_number.ensures((k,), m),
        { Some(extract_key_number(k)) };
    let merged = merge(&collect_contents(group), Marks::Any, &read_key);
    let ghost may = gives(*extract_key_number);
    proof {
        scan::bounds_stay_possible(said, scan::gives(read_key), may, merged.start, merged.end);
        let i = choose|i: int|
            0 <= i < group@.len() && scan::bound_keys((#[trigger] group@[i]).content@) is Some;
        assert(said[i] == group@[i].content@);
        scan::header_gives_bounds(said, may, merged.start, merged.end, i);
    }
    let first = merged.start.unwrap();
    let last = merged.end.unwrap();
    assert(scan::may_span(said, may, first, last));
    let start_key = form_key(first);
    let end_key = form_key(last);
    assert forall|number: spec_fn(Seq<char>) -> u64| #[trigger]
        numbers_as(*extract_key_number, number) implies entries::reads_as(
        read_key,
        always(number),
    ) && merged.start == scan::least(scan::start_numbers(said, always(number))) && merged.end
        == scan::greatest(scan::end_numbers(said, always(number))) by {
        assert forall|k: &str, n: Option<u64>| #[trigger] read_key.ensures((k,), n) implies n
            == always(number)(k@) by {}
        scan::bounds_are_determined(said, may, always(number), merged.start, merged.end);
    }
    let ordered = order_lines(merged.lines, &read_key);
    let ghost entries = text::texts(ordered@);
    let t = print_scan(start_key.as_str(), end_key.as_str(), indent(ordered));
    assert(t@ == scan::scan_text(start_key@, end_key@, indented(entries)));
    t
}

/// Whether `t` prints the results `group` of the operation `id`, whatever functions the two key
/// functions compute.
pub open spec fn prints_group<R: Fn(&str) -> u64, N: Fn(u64) -> String>(
    id: u32,
    group: Seq<OperationResult>,
    extract_key_number: R,
    form_key: N,
    t: Seq<char>,
) -> bool {
    forall|number: spec_fn(Seq<char>) -> u64, form: spec_fn(u64) -> Seq<char>| #[trigger]
        numbers_as(extract_key_number, number) && #[trigger] forms_as(form_key, form) ==> t
            == group_text(id, group, number, form)
}

/// Prints the results `group` of the operation `id`.
pub fn format_group<R: Fn(&str) -> u64, N: Fn(u64) -> String>(
    id: u32,
    group: &Vec<OperationResult>,
    extract_key_number: &R,
    form_key: &N,
) -> (t: String)
    requires
        forall|k: &str| reads_key(group@, k@) ==> #[trigger] extract_key_number.requires((k,)),
        forall|n: u64|
            forms_number(group@, gives(*extract_key_number), n) ==> #[trigger] form_key.requires(
                (n,),
            ),
        is_printable_group(group@),
    ensures
        prints_group(id, group@, *extract_key_number, *form_key, t@),
        holds_group(t@, id, group@),
        !is_scan(group@) ==> t@ == plain_text(id, group@[0]),
{
    let mut has_err = false;
    for i in 0..group.len()
        invariant
            has_err == exists|j: int| 0 <= j < i && (#[trigger] group@[j]).has_err,
    {
        if group[i].has_err {
            has_err = true;
        }
    }
    let content = if starts_scan(group) {
        format_scan(group, extract_key_number, form_key)
    } else {
        group[0].content.clone()
    };
    assert(says_all(content@, group@));
    let mut t = decimal_text(id as u64);
    t.append("> ");
    if has_err {
        t.append(error(content.as_str()).as_str());
    } else {
        t.append(content.as_str());
    }
    t
}

/// Whether `output` prints the results of the operations `ids` out of `ops`, whatever functions the
/// two key functions compute.
pub open spec fn prints_groups<R: Fn(&str) -> u64, N: Fn(u64) -> String>(
    ids: Seq<u32>,
    ops: Seq<OperationResult>,
    extract_key_number: R,
    form_key: N,
    output: Seq<Seq<char>>,
) -> bool {
    forall|number: spec_fn(Seq<char>) -> u64, form: spec_fn(u64) -> Seq<char>| #[trigger]
        numbers_as(extract_key_number, number) && #[trigger] forms_as(form_key, form) ==> output
            == group_texts(ids, ops, number, form)
}

/// Whether `output` prints each of the operations `ids` out of `ops` that is no scan as it is.
pub open spec fn prints_plain_groups(
    ids: Seq<u32>,
    ops: Seq<OperationResult>,
    output: Seq<Seq<char>>,
) -> bool {
    forall|k: int|
        0 <= k < ids.len() && !is_scan(with_id(ops, ids[k])) ==> #[trigger] output[k]
            == plain_text(ids[k], with_id(ops, ids[k])[0])
}

/// Prints the results of the operations `ids` out of `ops`, in the order of `ids`.
pub fn format_groups<R: Fn(&str) -> u64, N: Fn(u64) -> String>(
    ids: &Vec<u32>,
    ops: &Vec<OperationResult>,
    extract_key_number: &R,
    form_key: &N,
) -> (output: Vec<String>)
    requires
        forall|w: &str|
            some_reads_key(ids@, ops@, w@) ==> #[trigger] extract_key_number.requires((w,)),
        forall|n: u64|
            some_forms_number(ids@, ops@, gives(*extract_key_number), n)
                ==> #[trigger] form_key.requires((n,)),
        forall|k: int|
            0 <= k < ids@.len() ==> is_printable_group(with_id(ops@, #[trigger] ids@[k])),
    ensures
        output@.len() == ids@.len(),
        prints_groups(ids@, ops@, *extract_key_number, *form_key, text::texts(output@)),
        prints_plain_groups(ids@, ops@, text::texts(output@)),
        holds_groups(text::texts(output@), ids@, ops@),
{
    let mut output: Vec<String> = Vec::new();
    for k in 0..ids.len()
        invariant
            forall|w: &str|
                some_reads_key(ids@, ops@, w@) ==> #[trigger] extract_key_number.requires((w,)),
            forall|n: u64|
                some_forms_number(ids@, ops@, gives(*extract_key_number), n)
                    ==> #[trigger] form_key.requires((n,)),
            forall|j: int|
                0 <= j < ids@.len() ==> is_printable_group(with_id(ops@, #[trigger] ids@[j])),
            output@.len() == k,
            forall|j: int|
                0 <= j < k && !is_scan(with_id(ops@, ids@[j])) ==> (#[trigger] output@[j])@
                    == plain_text(ids@[j], with_id(ops@, ids@[j])[0]),
            forall|j: int|
                0 <= j < k ==> holds_group(
                    (#[trigger] output@[j])@,
                    ids@[j],
                    with_id(ops@, ids@[j]),
                ),
            forall|number: spec_fn(Seq<char>) -> u64, form: spec_fn(u64) -> Seq<char>| #[trigger]
                numbers_as(*extract_key_number, number) && #[trigger] forms_as(*form_key, form)
                    ==> text::texts(output@) == group_texts(
                    ids@.take(k as int),
                    ops@,
                    number,
                    form,
                ),
    {
        let ghost before = text::texts(output@);
        let group = pick_group(ops, ids[k]);
        assert forall|w: &str| reads_key(group@, w@) implies #[trigger] extract_key_number.requires(
            (w,),
        ) by {
            assert(reads_key(with_id(ops@, ids@[k as int]), w@));
        }
        assert forall|n: u64| forms_number(group@, gives(*extract_key_number), n) implies
            #[trigger] form_key.requires((n,)) by {
            assert(forms_number(with_id(ops@, ids@[k as int]), gives(*extract_key_number), n));
        }
        let t = format_group(ids[k], &group, extract_key_number, form_key);
        output.push(t);
        assert(text::texts(output@) == before.push(t@));
        assert forall|number: spec_fn(Seq<char>) -> u64, form: spec_fn(u64) -> Seq<char>|
            #[trigger] numbers_as(*extract_key_number, number) && #[trigger] forms_as(
                *form_key,
                form,
            ) implies text::texts(output@) == group_texts(ids@.take(k + 1), ops@, number, form) by {
            assert(group_texts(ids@.take(k + 1), ops@, number, form) == group_texts(
                ids@.take(k as int),
                ops@,
                number,
                form,
            ).push(group_text(ids@[k as int], with_id(ops@, ids@[k as int]), number, form)));
        }
    }
    assert(ids@.take(ids@.len() as int) == ids@);
    assert forall|k: int| 0 <= k < ids@.len() && !is_scan(with_id(ops@, ids@[k])) implies #[trigger]
        text::texts(output@)[k] == plain_text(ids@[k], with_id(ops@, ids@[k])[0]) by {
        assert(text::texts(output@)[k] == output@[k]@);
    }
    assert forall|k: int| 0 <= k < ids@.len() implies holds_group(
        #[trigger] text::texts(output@)[k],
        ids@[k],
        with_id(ops@, ids@[k]),
    ) by {
        assert(text::texts(output@)[k] == output@[k]@);
    }
    output
}

/// Whether `t` prints the results of a command, whatever functions the two key functions compute.
pub open spec fn prints_results<R: Fn(&str) -> u64, N: Fn(u64) -> String>(
    results: Seq<CommandResult>,
    extract_key_number: R,
    form_key: N,
    t: Seq<char>,
) -> bool {
    forall|number: spec_fn(Seq<char>) -> u64, form: spec_fn(u64) -> Seq<char>| #[trigger]
        numbers_as(extract_key_number, number) && #[trigger] forms_as(form_key, form) ==> t
            == results_text(results, number, form)
}

/// Whether `t` prints the results of a command without a scan, which needs no keys.
pub open spec fn prints_plain_results(results: Seq<CommandResult>, t: Seq<char>) -> bool {
    forall|number: spec_fn(Seq<char>) -> u64, form: spec_fn(u64) -> Seq<char>|
        t == #[trigger] results_text(results, number, form)
}

/// Prints the results of a command: its operations by ascending id, the results of several
/// partitions to a scan taken together, and last whether the command took effect.
///
/// `extract_key_number` reads the number in a key, `form_key` writes the key of a number.
pub fn format_result<R: Fn(&str) -> u64, N: Fn(u64) -> String>(
    result: Result<Vec<CommandResult>, String>,
    extract_key_number: &R,
    form_key: &N,
) -> (t: String)
    requires
        result matches Ok(results) ==> forall|k: &str|
            some_reads_key(op_ids(all_ops(results@)), all_ops(results@), k@)
                ==> #[trigger] extract_key_number.requires((k,)),
        result matches Ok(results) ==> forall|n: u64|
            some_forms_number(
                op_ids(all_ops(results@)),
                all_ops(results@),
                gives(*extract_key_number),
                n,
            ) ==> #[trigger] form_key.requires((n,)),
        result matches Ok(results) ==> is_printable(results@),
    ensures
        result matches Err(e) ==> t@ == text::error_text(e@),
        result matches Ok(results) ==> prints_results(
            results@,
            *extract_key_number,
            *form_key,
            t@,
        ),
        result matches Ok(results) ==> holds_results(t@, results@),
        result matches Ok(results) ==> (has_no_scan(results@) ==> prints_plain_results(
            results@,
            t@,
        )),
        result matches Ok(results) ==> if all_ops(results@).len() == 0 {
            t@ == verdict(results@)
        } else {
            text::ends_with(t@, "\n"@ + verdict(results@))
        },
{
    let cmd_results = match result {
        Ok(cmd_results) => cmd_results,
        Err(e) => {
            return error(e.as_str());
        },
    };
    let ops = collect_ops(cmd_results.as_slice());
    let ids = collect_ids(&ops);
    let mut output = format_groups(&ids, &ops, extract_key_number, form_key);
    let ghost before = text::texts(output@);
    if any_aborted(cmd_results.as_slice()) {
        output.push("ABORTED".to_owned());
    } else {
        output.push("COMMITTED".to_owned());
    }
    let ghost all = before.push(verdict(cmd_results@));
    assert(text::texts(output@) == all);
    let t = join_texts(&output, "\n");
    proof {
        assert(all.drop_last() == before);
        assert(holds_groups(before, ids@, ops@));
        some_op_some_id(ops@);
        if before.len() > 0 {
            let head = text::join(before, "\n"@);
            let tail = "\n"@ + verdict(cmd_results@);
            assert(t@ == head + tail);
            assert(t@.subrange(t@.len() - tail.len(), t@.len() as int) == tail);
        }
        if has_no_scan(cmd_results@) {
            assert forall|number: spec_fn(Seq<char>) -> u64, form: spec_fn(u64) -> Seq<char>|
                t@ == #[trigger] results_text(cmd_results@, number, form) by {
                let texts = group_texts(ids@, ops@, number, form);
                assert forall|k: int| 0 <= k < ids@.len() implies before[k]
                    == #[trigger] texts[k] by {
                    let group = with_id(ops@, ids@[k]);
                    assert(is_printable_group(group));
                    assert(before[k] == plain_text(ids@[k], group[0]));
                    assert(some_error(group) <==> group[0].has_err);
                }
                assert(before == texts);
            }
        }
    }
    t
}

/// Where there is an operation there is an id, and no id where there is none.
proof fn some_op_some_id(ops: Seq<OperationResult>)
    ensures
        op_ids(ops).len() == 0 <==> ops.len() == 0,
{
    op_ids_ascend(ops);
    if ops.len() > 0 {
        assert(op_ids(ops).contains(ops[0].id));
    }
}

/// The prompt, when the next operation of the command that is being put together has the id
/// `next_op_id`, or no command is.
pub open spec fn prompt(next_op_id: Option<u32>) -> Seq<char> {
    match next_op_id {
        Some(id) => "[op "@ + text::decimal(id as nat) + "]"@ + ">> "@,
        None => ">> "@,
    }
}

/// Generates the prompt. It shows the id of the next operation where a command is being put
/// together.
pub fn get_prompt(next_op_id: Option<u32>) -> (t: String)
    ensures
        t@ == prompt(next_op_id),
{
    let mut t = String::new();
    if let Some(id) = next_op_id {
        t.append("[op ");
        t.append(decimal_text(id as u64).as_str());
        t.append("]");
        assert(t@ == "[op "@ + text::decimal(id as nat) + "]"@);
    }
    t.append(">> ");
    assert(next_op_id is None ==> t@ == ">> "@);
    t
}

/// Reports whether a new command was started.
pub fn handle_cmd(started: Result<(), String>) -> (t: String)
    ensures
        match started {
            Ok(_) => t@ == "COMMAND"@,
            Err(e) => t@ == text::error_text(e@),
        },
{
    match started {
        Ok(_) => "COMMAND".to_owned(),
        Err(e) => error(e.as_str()),
    }
}

/// Decides whether the current command is executed: `None` where it is, and the error to print
/// where the line holds more than the word that asks for it.
pub fn handle_done(tokens: &Vec<String>) -> (reply: Option<String>)
    ensures
        reply is Some <==> tokens@.len() != 1,
        reply matches Some(t) ==> t@ == text::error_text("invalid DONE command"@),
{
    if tokens.len() != 1 {
        Some(error("invalid DONE command"))
    } else {
        None
    }
}

/// What every key of the store starts with.
pub open spec fn key_prefix() -> Seq<char> {
    "usertable_user"@
}

/// The key that the user means by `word`: the prefix of all keys may be left out.
pub open spec fn full_key(word: Seq<char>) -> Seq<char> {
    if text::starts_with(word, key_prefix()) {
        word
    } else {
        key_prefix() + word
    }
}

/// The key that the user means by `word`.
pub fn complete_key(word: &str) -> (key: String)
    ensures
        key@ == full_key(word@),
{
    if has_prefix(word, "usertable_user") {
        word.to_owned()
    } else {
        let mut key = "usertable_user".to_owned();
        key.append(word);
        key
    }
}

/// Whether an operation takes one key.
pub open spec fn takes_key(name: Seq<char>) -> bool {
    name == "GET"@ || name == "DELETE"@
}

/// Whether an operation takes a key and a value.
pub open spec fn takes_key_and_value(name: Seq<char>) -> bool {
    name == "SWAP"@ || name == "PUT"@
}

/// Whether `name` is an operation.
pub open spec fn is_operation(name: Seq<char>) -> bool {
    takes_key(name) || takes_key_and_value(name) || name == "SCAN"@
}

/// The arguments of the operation `name` on the line `tokens`, which follow the word that asks
/// for an operation and the operation's name. `None` where their number is wrong.
pub open spec fn op_args(name: Seq<char>, tokens: Seq<Seq<char>>) -> Option<Seq<Seq<char>>> {
    if takes_key(name) {
        if tokens.len() == 3 {
            Some(seq![full_key(tokens[2])])
        } else {
            None
        }
    } else if tokens.len() != 4 {
        None
    } else if takes_key_and_value(name) {
        Some(seq![full_key(tokens[2]), tokens[3]])
    } else {
        Some(seq![full_key(tokens[2]), full_key(tokens[3])])
    }
}

/// What is done with a line that asks for an operation.
#[derive(Debug)]
pub enum OpStep {
    /// Print this.
    Reply(String),
    /// Start a command, add the operation to it, execute it at once and print the result.
    Execute { name: String, args: Vec<String> },
    /// Add the operation to the command that is being put together and print the reply.
    Add { name: String, args: Vec<String>, reply: String },
    /// Stop with this message: the line names no operation.
    Panic(String),
}

/// What such a step says.
pub enum OpStepView {
    Reply(Seq<char>),
    Execute { name: Seq<char>, args: Seq<Seq<char>> },
    Add { name: Seq<char>, args: Seq<Seq<char>>, reply: Seq<char> },
    Panic(Seq<char>),
}

impl View for OpStep {
    type V = OpStepView;

    open spec fn view(&self) -> OpStepView {
        match self {
            OpStep::Reply(t) => OpStepView::Reply(t@),
            OpStep::Execute { name, args } => OpStepView::Execute {
                name: name@,
                args: text::texts(args@),
            },
            OpStep::Add { name, args, reply } => OpStepView::Add {
                name: name@,
                args: text::texts(args@),
                reply: reply@,
            },
            OpStep::Panic(t) => OpStepView::Panic(t@),
        }
    }
}

/// What is done with the line `tokens` that asks for the operation `name`, when the next
/// operation of the command that is being put together has the id `next_op_id`, or no command is.
pub open spec fn op_step(
    name: Seq<char>,
    tokens: Seq<Seq<char>>,
    next_op_id: Option<u32>,
) -> OpStepView {
    if !is_operation(name) {
        OpStepView::Panic("unknown operation: "@ + name)
    } else {
        match op_args(name, tokens) {
            None => OpStepView::Reply(text::error_text("invalid operation"@)),
            Some(args) => match next_op_id {
                None => OpStepView::Execute { name, args },
                Some(id) => OpStepView::Add {
                    name,
                    args,
                    reply: "OP "@ + text::decimal(id as nat),
                },
            },
        }
    }
}

/// Decides what to do with the line `tokens` that asks for the operation `name`.
pub fn choose_op(name: String, tokens: &Vec<String>, next_op_id: Option<u32>) -> (step: OpStep)
    ensures
        step@ == op_step(name@, text::texts(tokens@), next_op_id),
{
    let ghost all = text::texts(tokens@);
    let key_only = same_text(name.as_str(), "GET") || same_text(name.as_str(), "DELETE");
    let with_value = same_text(name.as_str(), "SWAP") || same_text(name.as_str(), "PUT");
    if !key_only && !with_value && !same_text(name.as_str(), "SCAN") {
        let mut message = "unknown operation: ".to_owned();
        message.append(name.as_str());
        return OpStep::Panic(message);
    }
    let wanted: usize = if key_only { 3 } else { 4 };
    if tokens.len() != wanted {
        return OpStep::Reply(error("invalid operation"));
    }
    let mut args: Vec<String> = Vec::new();
    args.push(complete_key(tokens[2].as_str()));
    if !key_only {
        if with_value {
            args.push(tokens[3].clone());
        } else {
            args.push(complete_key(tokens[3].as_str()));
        }
    }
    assert(Some(text::texts(args@)) == op_args(name@, all));
    match next_op_id {
        None => OpStep::Execute { name, args },
        Some(id) => {
            let mut reply = "OP ".to_owned();
            reply.append(decimal_text(id as u64).as_str());
            OpStep::Add { name, args, reply }
        },
    }
}

/// Adds an operation to the current command, or executes it at once where there is none. The
/// letter case of its name does not matter.
pub fn handle_op(tokens: &Vec<String>, next_op_id: Option<u32>) -> (step: OpStep)
    ensures
        tokens@.len() < 2 ==> step@ == OpStepView::Panic("no operation on the line"@),
        tokens@.len() >= 2 ==> step@ == op_step(
            text::uppercase(tokens@[1]@),
            text::texts(tokens@),
            next_op_id,
        ),
        tokens@.len() >= 2 && text::is_ascii_text(tokens@[1]@) ==> step@ == op_step(
            text::ascii_uppercase(tokens@[1]@),
            text::texts(tokens@),
            next_op_id,
        ),
{
    if tokens.len() < 2 {
        return OpStep::Panic("no operation on the line".to_owned());
    }
    choose_op(tokens[1].as_str().to_uppercase(), tokens, next_op_id)
}

/// What the client does with one line of its input.
#[derive(Debug)]
pub enum Step {
    /// Nothing.
    Skip,
    /// Start a new command.
    Cmd,
    /// Handle the operation on this line.
    Op(Vec<String>),
    /// Handle the request on this line to execute the current command.
    Done(Vec<String>),
    /// From now on measure the time of each line, or no longer, and print the reply.
    Time { measure_time: bool, reply: String },
    /// Clear the screen and print an empty line.
    Clear,
    /// End.
    Exit,
    /// Print this.
    Reply(String),
}

/// What a step says.
pub enum StepView {
    Skip,
    Cmd,
    Op(Seq<Seq<char>>),
    Done(Seq<Seq<char>>),
    Time { measure_time: bool, reply: Seq<char> },
    Clear,
    Exit,
    Reply(Seq<char>),
}

impl View for Step {
    type V = StepView;

    open spec fn view(&self) -> StepView {
        match self {
            Step::Skip => StepView::Skip,
            Step::Cmd => StepView::Cmd,
            Step::Op(tokens) => StepView::Op(text::texts(tokens@)),
            Step::Done(tokens) => StepView::Done(text::texts(tokens@)),
            Step::Time { measure_time, reply } => StepView::Time {
                measure_time: *measure_time,
                reply: reply@,
            },
            Step::Clear => StepView::Clear,
            Step::Exit => StepView::Exit,
            Step::Reply(t) => StepView::Reply(t@),
        }
    }
}

/// What the client does with the line `line` of the tokens `tokens`, when the lower case of the
/// first is `word` and time is measured or not.
pub open spec fn step_for(
    word: Seq<char>,
    tokens: Seq<Seq<char>>,
    line: Seq<char>,
    measure_time: bool,
) -> StepView {
    if word == "cmd"@ {
        StepView::Cmd
    } else if word == "op"@ {
        StepView::Op(tokens)
    } else if word == "done"@ {
        StepView::Done(tokens)
    } else if word == "time"@ {
        StepView::Time {
            measure_time: !measure_time,
            reply: "TIME: "@ + (if measure_time {
                "false"@
            } else {
                "true"@
            }),
        }
    } else if word == "clear"@ {
        StepView::Clear
    } else if word == "exit"@ || word == "quit"@ {
        StepView::Exit
    } else {
        StepView::Reply(text::error_text("unknown command: "@ + line))
    }
}

/// Decides what to do with the line `line` of the tokens `tokens`, when the lower case of the
/// first is `word`.
pub fn choose_step(word: &str, tokens: Vec<String>, line: &str, measure_time: bool) -> (step: Step)
    ensures
        step@ == step_for(word@, text::texts(tokens@), line@, measure_time),
{
    if same_text(word, "cmd") {
        Step::Cmd
    } else if same_text(word, "op") {
        Step::Op(tokens)
    } else if same_text(word, "done") {
        Step::Done(tokens)
    } else if same_text(word, "time") {
        let mut reply = "TIME: ".to_owned();
        reply.append(
            if measure_time {
                "false"
            } else {
                "true"
            },
        );
        Step::Time { measure_time: !measure_time, reply }
    } else if same_text(word, "clear") {
        Step::Clear
    } else if same_text(word, "exit") || same_text(word, "quit") {
        Step::Exit
    } else {
        let mut message = "unknown command: ".to_owned();
        message.append(line);
        Step::Reply(error(message.as_str()))
    }
}

/// What the client does with a line of its input. The letter case of its first word does not
/// matter.
pub open spec fn line_step(line: Seq<char>, measure_time: bool) -> StepView {
    let tokens = tokens_of(line);
    if tokens.len() == 0 || tokens[0].len() == 0 {
        StepView::Skip
    } else {
        step_for(text::lowercase(tokens[0]), tokens, line, measure_time)
    }
}

/// Decides what to do with a line of input.
pub fn next_step(line: &str, measure_time: bool) -> (step: Step)
    ensures
        step@ == line_step(line@, measure_time),
        ({
            let tokens = tokens_of(line@);
            tokens.len() > 0 && tokens[0].len() > 0 && text::is_ascii_text(tokens[0]) ==> step@
                == step_for(
                text::ascii_lowercase(tokens[0]),
                tokens,
                line@,
                measure_time,
            )
        }),
{
    let tokens = tokenize(line);
    assert(tokens_of(line@).len() == tokens@.len());
    if tokens.len() == 0 {
        return Step::Skip;
    }
    assert(tokens_of(line@)[0] == tokens@[0]@);
    if tokens[0].as_str().is_empty() {
        return Step::Skip;
    }
    let word = tokens[0].as_str().to_lowercase();
    choose_step(word.as_str(), tokens, line, measure_time)
}

/// The number and the unit in which a time is shown, out of its whole seconds and the
/// nanoseconds beyond them: the count of the largest unit that it fills, a point, and all of the
/// part below a second counted in the next smaller unit.
pub open spec fn elapsed(secs: u64, nanos: u32) -> (Seq<char>, Seq<char>) {
    let millis = (nanos / 1_000_000) as nat;
    let micros = (nanos / 1_000) as nat;
    if secs > 0 {
        (text::decimal(secs as nat) + "."@ + text::decimal(millis), "s"@)
    } else if millis > 0 {
        (text::decimal(millis) + "."@ + text::decimal(micros), "ms"@)
    } else if micros > 0 {
        (text::decimal(micros) + "."@ + text::decimal(nanos as nat), "µs"@)
    } else {
        (text::decimal(nanos as nat), "ns"@)
    }
}

/// The number and the unit in which a time is shown.
pub fn elapsed_reading(secs: u64, nanos: u32) -> (r: (String, String))
    ensures
        (r.0@, r.1@) == elapsed(secs, nanos),
{
    let millis: u32 = nanos / 1_000_000;
    let micros: u32 = nanos / 1_000;
    let (whole, part, unit): (u64, u32, &str) = if secs > 0 {
        (secs, millis, "s")
    } else if millis > 0 {
        (millis as u64, micros, "ms")
    } else if micros > 0 {
        (micros as u64, nanos, "µs")
    } else {
        return (decimal_text(nanos as u64), "ns".to_owned());
    };
    let mut number = decimal_text(whole);
    number.append(".");
    number.append(decimal_text(part as u64).as_str());
    (number, unit.to_owned())
}

/// Whether a text that starts inside quotes or not ends inside them.
pub open spec fn ends_in_quote(s: Seq<char>, in_quote: bool) -> bool
    decreases s.len(),
{
    if s.len() == 0 {
        in_quote
    } else {
        ends_in_quote(
            s.drop_first(),
            if s[0] == '"' {
                !in_quote
            } else {
                in_quote
            },
        )
    }
}

/// Whether `t` can stand as a token: none of its characters is a double quote.
pub open spec fn is_token(t: Seq<char>) -> bool {
    !t.contains('"')
}

/// `t` in double quotes.
pub open spec fn quoted(t: Seq<char>) -> Seq<char> {
    seq!['"'] + t + seq!['"']
}

/// `tokens`, each in double quotes.
pub open spec fn all_quoted(tokens: Seq<Seq<char>>) -> Seq<Seq<char>> {
    tokens.map_values(|t: Seq<char>| quoted(t))
}

proof fn piece_len_ends(s: Seq<char>, in_quote: bool)
    ensures
        piece_len(s, in_quote) <= s.len(),
        piece_len(s, in_quote) < s.len() ==> s[piece_len(s, in_quote) as int] == ' '
            && ends_in_quote(s, in_quote) == ends_in_quote(
            s.skip(piece_len(s, in_quote) as int + 1),
            false,
        ),
    decreases s.len(),
{
    let n = piece_len(s, in_quote) as int;
    if s.len() > 0 {
        let rest = s.drop_first();
        let after = if s[0] == '"' {
            !in_quote
        } else {
            in_quote
        };
        if s[0] == ' ' && !in_quote {
            assert(s.skip(1) == rest);
        } else {
            piece_len_ends(rest, after);
            if n < s.len() {
                assert(rest.skip(n) == s.skip(n + 1));
            }
        }
    }
}

proof fn piece_len_of_two(s: Seq<char>, t: Seq<char>, in_quote: bool)
    ensures
        piece_len(s + t, in_quote) == (if piece_len(s, in_quote) < s.len() {
            piece_len(s, in_quote)
        } else {
            s.len() + piece_len(t, ends_in_quote(s, in_quote))
        }),
    decreases s.len(),
{
    piece_len_ends(s, in_quote);
    if s.len() == 0 {
        assert(s + t == t);
    } else {
        assert((s + t).drop_first() == s.drop_first() + t);
        piece_len_of_two(
            s.drop_first(),
            t,
            if s[0] == '"' {
                !in_quote
            } else {
                in_quote
            },
        );
    }
}

/// A space outside quotes separates: the tokens of two texts with such a space between them are
/// the tokens of the first and then those of the second.
pub proof fn space_separates(s: Seq<char>, t: Seq<char>)
    requires
        !ends_in_quote(s, false),
    ensures
        tokens_of(s + seq![' '] + t) == tokens_of(s) + tokens_of(t),
    decreases s.len(),
{
    let tail = seq![' '] + t;
    let both = s + seq![' '] + t;
    assert(both == s + tail);
    assert(tail[0] == ' ');
    piece_len_of_two(s, tail, false);
    piece_len_ends(s, false);
    let n = piece_len(s, false) as int;
    if n < s.len() {
        space_separates(s.skip(n + 1), t);
        assert(both.take(n) == s.take(n));
        assert(both.skip(n + 1) == s.skip(n + 1) + seq![' '] + t);
        let token = unquoted(s.take(n));
        assert(makes_token(both.take(n)) == makes_token(s.take(n)));
        assert(seq![token] + (tokens_of(s.skip(n + 1)) + tokens_of(t)) == (seq![token]
            + tokens_of(s.skip(n + 1))) + tokens_of(t));
    } else {
        assert(both.take(n) == s);
        assert(s.take(n) == s);
        assert(both.skip(n + 1) == t);
        assert(piece_len(both, false) == n);
        if s.len() == 0 {
            assert(tokens_of(s) + tokens_of(t) == tokens_of(t));
        } else {
            assert(tokens_of(s) == if makes_token(s) {
                seq![unquoted(s)] + Seq::<Seq<char>>::empty()
            } else {
                Seq::empty()
            });
            assert(seq![unquoted(s)] + Seq::<Seq<char>>::empty() == seq![unquoted(s)]);
            assert(Seq::<Seq<char>>::empty() + tokens_of(t) == tokens_of(t));
        }
    }
}

proof fn unquoted_has_no_quotes(s: Seq<char>)
    ensures
        !unquoted(s).contains('"'),
    decreases s.len(),
{
    if s.len() > 0 {
        unquoted_has_no_quotes(s.drop_last());
        let rest = unquoted(s.drop_last());
        if s.last() != '"' {
            assert forall|i: int| 0 <= i < rest.push(s.last()).len() implies rest.push(
                s.last(),
            )[i] != '"' by {
                if i < rest.len() {
                    assert(rest.contains(rest[i]));
                }
            }
        }
    }
}

/// Each of the tokens of a line can stand as a token.
pub proof fn tokens_are_tokens(line: Seq<char>)
    ensures
        forall|i: int| 0 <= i < tokens_of(line).len() ==> is_token(#[trigger] tokens_of(line)[i]),
    decreases line.len(),
{
    if line.len() > 0 {
        let n = piece_len(line, false) as int;
        let token = unquoted(line.take(n));
        unquoted_has_no_quotes(line.take(n));
        if n < line.len() {
            tokens_are_tokens(line.skip(n + 1));
        }
        let rest = if n < line.len() {
            tokens_of(line.skip(n + 1))
        } else {
            Seq::empty()
        };
        assert forall|i: int| 0 <= i < tokens_of(line).len() implies is_token(
            #[trigger] tokens_of(line)[i],
        ) by {
            if makes_token(line.take(n)) {
                if i > 0 {
                    assert(tokens_of(line)[i] == rest[i - 1]);
                }
            } else {
                assert(tokens_of(line)[i] == rest[i]);
            }
        }
    }
}

proof fn piece_len_in_quote(t: Seq<char>)
    requires
        !t.contains('"'),
    ensures
        piece_len(t, true) == t.len(),
        ends_in_quote(t, true),
    decreases t.len(),
{
    if t.len() > 0 {
        assert(t.contains(t[0]));
        let rest = t.drop_first();
        assert forall|i: int| 0 <= i < rest.len() implies rest[i] != '"' by {
            assert(t.contains(t[i + 1]));
        }
        piece_len_in_quote(rest);
    }
}

proof fn unquoted_of_quoted(t: Seq<char>)
    requires
        !t.contains('"'),
    ensures
        unquoted(quoted(t)) == t,
    decreases t.len(),
{
    let open = seq!['"'] + t;
    assert(quoted(t).drop_last() == open);
    assert(quoted(t).last() == '"');
    unquoted_of_open(t);
}

proof fn unquoted_of_open(t: Seq<char>)
    requires
        !t.contains('"'),
    ensures
        unquoted(seq!['"'] + t) == t,
    decreases t.len(),
{
    let open = seq!['"'] + t;
    if t.len() == 0 {
        assert(open.last() == '"');
        assert(unquoted(open.drop_last()) == open.drop_last());
    } else {
        assert(t.contains(t[t.len() - 1]));
        let front = t.drop_last();
        assert forall|i: int| 0 <= i < front.len() implies front[i] != '"' by {
            assert(t.contains(t[i]));
        }
        unquoted_of_open(front);
        assert(open.drop_last() == seq!['"'] + front);
        assert(open.last() == t.last());
        assert(front.push(t.last()) == t);
    }
}

/// A text in double quotes is one token, whatever spaces it holds, and also where it is empty.
pub proof fn quoted_text_is_one_token(t: Seq<char>)
    requires
        is_token(t),
    ensures
        tokens_of(quoted(t)) == seq![t],
        !ends_in_quote(quoted(t), false),
{
    let line = quoted(t);
    let rest = t + seq!['"'];
    assert(line.drop_first() == rest);
    piece_len_in_quote(t);
    let end = seq!['"'];
    piece_len_of_two(t, end, true);
    assert(end.drop_first() == Seq::<char>::empty());
    assert(piece_len(end, true) == 1) by {
        reveal_with_fuel(piece_len, 2);
    }
    assert(piece_len(line, false) == line.len());
    assert(line.take(line.len() as int) == line);
    unquoted_of_quoted(t);
    assert(makes_token(line)) by {
        if t.len() == 0 {
            reveal_with_fuel(quote_count, 3);
            assert(line.drop_last() == seq!['"']);
        }
    }
    assert(seq![t] + Seq::<Seq<char>>::empty() == seq![t]);
    ends_in_quote_of_two(t, end, true);
    assert(!ends_in_quote(end, true)) by {
        reveal_with_fuel(ends_in_quote, 2);
    }
}

proof fn ends_in_quote_of_two(s: Seq<char>, t: Seq<char>, in_quote: bool)
    ensures
        ends_in_quote(s + t, in_quote) == ends_in_quote(t, ends_in_quote(s, in_quote)),
    decreases s.len(),
{
    if s.len() == 0 {
        assert(s + t == t);
    } else {
        assert((s + t).drop_first() == s.drop_first() + t);
        ends_in_quote_of_two(
            s.drop_first(),
            t,
            if s[0] == '"' {
                !in_quote
            } else {
                in_quote
            },
        );
    }
}

/// Tokens that are each put in double quotes and joined by spaces are found again, whatever
/// spaces they hold, the empty ones among them too.
pub proof fn quoted_tokens_are_found(tokens: Seq<Seq<char>>)
    requires
        forall|i: int| 0 <= i < tokens.len() ==> is_token(#[trigger] tokens[i]),
    ensures
        tokens_of(text::join(all_quoted(tokens), " "@)) == tokens,
        !ends_in_quote(text::join(all_quoted(tokens), " "@), false),
    decreases tokens.len(),
{
    reveal_strlit(" ");
    let parts = all_quoted(tokens);
    if tokens.len() == 0 {
    } else if tokens.len() == 1 {
        quoted_text_is_one_token(tokens[0]);
        assert(tokens == seq![tokens[0]]);
    } else {
        let front = tokens.drop_last();
        let last = tokens[tokens.len() - 1];
        assert forall|i: int| 0 <= i < front.len() implies is_token(#[trigger] front[i]) by {
            assert(front[i] == tokens[i]);
        }
        quoted_tokens_are_found(front);
        quoted_text_is_one_token(last);
        assert(parts.drop_last() == all_quoted(front));
        let head = text::join(all_quoted(front), " "@);
        assert(" "@ == seq![' ']);
        space_separates(head, quoted(last));
        assert(front + seq![last] == tokens);
        let space = seq![' '];
        ends_in_quote_of_two(head, space, false);
        assert(!ends_in_quote(space, false)) by {
            reveal_with_fuel(ends_in_quote, 2);
        }
        ends_in_quote_of_two(head + space, quoted(last), false);
    }
}

/// The key that the user means has the prefix of all keys, and completing it again changes
/// nothing.
pub proof fn full_keys_stay(word: Seq<char>)
    ensures
        text::starts_with(full_key(word), key_prefix()),
        full_key(full_key(word)) == full_key(word),
{
    if !text::starts_with(word, key_prefix()) {
        let key = key_prefix() + word;
        assert(key.subrange(0, key_prefix().len() as int) == key_prefix());
    }
}

/// Leaving the prefix of a key out means the same key, unless what is left starts with the
/// prefix itself.
pub proof fn prefix_may_be_left_out(rest: Seq<char>)
    requires
        !text::starts_with(rest, key_prefix()),
    ensures
        full_key(rest) == full_key(key_prefix() + rest),
{
    full_keys_stay(rest);
}

/// What an operation is sent with starts with a full key.
pub proof fn operations_name_full_keys(
    name: Seq<char>,
    tokens: Seq<Seq<char>>,
    next_op_id: Option<u32>,
)
    ensures
        match op_step(name, tokens, next_op_id) {
            OpStepView::Reply(_) | OpStepView::Panic(_) => true,
            OpStepView::Execute { args, .. } => args.len() > 0 && text::starts_with(
                args[0],
                key_prefix(),
            ),
            OpStepView::Add { args, .. } => args.len() > 0 && text::starts_with(
                args[0],
                key_prefix(),
            ),
        },
{
    if tokens.len() > 2 {
        full_keys_stay(tokens[2]);
    }
}

/// The ids of operations ascend, and they are the ids that operations have.
pub proof fn op_ids_ascend(ops: Seq<OperationResult>)
    ensures
        forall|i: int, j: int|
            0 <= i < j < op_ids(ops).len() ==> #[trigger] op_ids(ops)[i] < #[trigger] op_ids(
                ops,
            )[j],
        forall|id: u32| #[trigger]
            op_ids(ops).contains(id) <==> exists|k: int|
                0 <= k < ops.len() && (#[trigger] ops[k]).id == id,
    decreases ops.len(),
{
    if ops.len() > 0 {
        let front = ops.drop_last();
        let ids = op_ids(front);
        let last = ops[ops.len() - 1];
        op_ids_ascend(front);
        add_id_ascends(ids, last.id);
        assert forall|id: u32| #[trigger] op_ids(ops).contains(id) <==> exists|k: int|
            0 <= k < ops.len() && (#[trigger] ops[k]).id == id by {
            if id == last.id {
                assert(ops[ops.len() - 1].id == id);
            }
            if ids.contains(id) {
                let k = choose|k: int| 0 <= k < front.len() && (#[trigger] front[k]).id == id;
                assert(ops[k].id == id);
            }
            if exists|k: int| 0 <= k < ops.len() && (#[trigger] ops[k]).id == id {
                let k = choose|k: int| 0 <= k < ops.len() && (#[trigger] ops[k]).id == id;
                if k < front.len() {
                    assert(front[k].id == id);
                    assert(ids.contains(id));
                }
            }
        }
    }
}

proof fn add_id_ascends(ids: Seq<u32>, id: u32)
    requires
        forall|i: int, j: int| 0 <= i < j < ids.len() ==> #[trigger] ids[i] < #[trigger] ids[j],
    ensures
        forall|i: int, j: int|
            0 <= i < j < add_id(ids, id).len() ==> #[trigger] add_id(ids, id)[i]
                < #[trigger] add_id(ids, id)[j],
        forall|x: u32| #[trigger] add_id(ids, id).contains(x) <==> ids.contains(x) || x == id,
    decreases ids.len(),
{
    let out = add_id(ids, id);
    if ids.len() == 0 || ids.last() < id {
        assert forall|x: u32| #[trigger] out.contains(x) <==> ids.contains(x) || x == id by {
            assert(out[ids.len() as int] == id);
            if ids.contains(x) {
                let k = choose|k: int| 0 <= k < ids.len() && ids[k] == x;
                assert(out[k] == x);
            }
        }
    } else if ids.last() == id {
        assert(ids[ids.len() - 1] == id);
    } else {
        let front = ids.drop_last();
        let last = ids[ids.len() - 1];
        add_id_ascends(front, id);
        let inner = add_id(front, id);
        assert forall|i: int| 0 <= i < inner.len() implies #[trigger] inner[i] < last by {
            assert(inner.contains(inner[i]));
            if inner[i] != id {
                let k = choose|k: int| 0 <= k < front.len() && front[k] == inner[i];
                assert(ids[k] < ids[ids.len() - 1]);
            }
        }
        assert forall|x: u32| #[trigger] out.contains(x) <==> ids.contains(x) || x == id by {
            assert(out[inner.len() as int] == last);
            if out.contains(x) {
                let k = choose|k: int| 0 <= k < out.len() && out[k] == x;
                if k < inner.len() {
                    assert(inner.contains(inner[k]));
                    if front.contains(x) {
                        let m = choose|m: int| 0 <= m < front.len() && front[m] == x;
                        assert(ids[m] == x);
                    }
                }
            }
            if ids.contains(x) || x == id {
                if x != last {
                    if ids.contains(x) {
                        let m = choose|m: int| 0 <= m < ids.len() && ids[m] == x;
                        assert(front[m] == x);
                    }
                    assert(inner.contains(x));
                    let k = choose|k: int| 0 <= k < inner.len() && inner[k] == x;
                    assert(out[k] == x);
                }
            }
        }
    }
}

/// The results of an operation are those that bear its id, in the order in which they came.
pub proof fn groups_are_picked_by_id(ops: Seq<OperationResult>, id: u32)
    ensures
        with_id(ops, id) == ops.filter(|op: OperationResult| op.id == id),
    decreases ops.len(),
{
    reveal(Seq::filter);
    if ops.len() > 0 {
        groups_are_picked_by_id(ops.drop_last(), id);
    }
}

/// What is printed for a command ends in a line that says whether it took effect: `ABORTED` where
/// any partition aborted, `COMMITTED` where none did.
pub proof fn verdict_is_printed_last(
    results: Seq<CommandResult>,
    number: spec_fn(Seq<char>) -> u64,
    form: spec_fn(u64) -> Seq<char>,
)
    ensures
        ({
            let ops = all_ops(results);
            let groups = group_texts(op_ids(ops), ops, number, form);
            results_text(results, number, form) == if groups.len() == 0 {
                verdict(results)
            } else {
                text::join(groups, "\n"@) + "\n"@ + verdict(results)
            }
        }),
        verdict(results) == "ABORTED"@ <==> gateway::some_aborted(results),
{
    let ops = all_ops(results);
    let groups = group_texts(op_ids(ops), ops, number, form);
    assert(groups.push(verdict(results)).drop_last() == groups);
    reveal_strlit("ABORTED");
    reveal_strlit("COMMITTED");
}

/// The order in which the partitions answer a scan does not matter, where the keys tell the
/// entries apart.
pub proof fn scan_ignores_order_of_partitions(
    a: Seq<OperationResult>,
    b: Seq<OperationResult>,
    number: spec_fn(Seq<char>) -> u64,
    form: spec_fn(u64) -> Seq<char>,
)
    requires
        a.to_multiset() == b.to_multiset(),
        is_scan(a),
        is_scan(b),
        entries::keys_tell_apart(
            scan::entry_lines(contents(a), Marks::Any),
            always(number),
        ),
    ensures
        group_content(a, number, form) == group_content(b, number, form),
{
    gather::mapping_ignores_order(a, b, |op: OperationResult| op.content@);
    scan::header_bounds_ignore_order(contents(a), contents(b), always(number));
    scan::entries_ignore_order(contents(a), contents(b), Marks::Any);
    entries::printed_lines_ignore_order(
        scan::entry_lines(contents(a), Marks::Any),
        scan::entry_lines(contents(b), Marks::Any),
        always(number),
    );
}

/// The entries of a scan are printed by ascending numbers of their keys.
pub proof fn scan_entries_ascend(
    group: Seq<OperationResult>,
    number: spec_fn(Seq<char>) -> u64,
)
    ensures
        ({
            let lines = scan::entry_lines(contents(group), Marks::Any);
            let out = entries::printed_lines(lines, always(number));
            forall|i: int, j: int|
                0 <= i < j < out.len() ==> number(entries::first_word(#[trigger] out[i]))
                    <= number(entries::first_word(#[trigger] out[j]))
        }),
{
    let read = always(number);
    let lines = scan::entry_lines(contents(group), Marks::Any);
    entries::printed_lines_ascend(lines, read);
    let out = entries::printed_lines(lines, read);
    assert forall|i: int, j: int| 0 <= i < j < out.len() implies number(
        entries::first_word(#[trigger] out[i]),
    ) <= number(entries::first_word(#[trigger] out[j])) by {
        assert(read(entries::first_word(out[i])).unwrap() <= read(
            entries::first_word(out[j]),
        ).unwrap());
    }
}

/// Where a scan can be printed, its header has a first and a last key to name.
pub proof fn printable_scan_has_bounds(
    group: Seq<OperationResult>,
    number: spec_fn(Seq<char>) -> u64,
)
    requires
        is_scan(group),
        is_printable_group(group),
    ensures
        scan::least(scan::start_numbers(contents(group), always(number))) is Some,
        scan::greatest(scan::end_numbers(contents(group), always(number))) is Some,
{
    let said = contents(group);
    let i = choose|i: int|
        0 <= i < group.len() && scan::bound_keys((#[trigger] group[i]).content@) is Some;
    assert(said[i] == group[i].content@);
    header_gives_numbers(said, number, i);
    scan::least_is_lower_bound(scan::start_numbers(said, always(number)));
    scan::greatest_is_upper_bound(scan::end_numbers(said, always(number)));
}

proof fn header_gives_numbers(said: Seq<Seq<char>>, number: spec_fn(Seq<char>) -> u64, i: int)
    requires
        0 <= i < said.len(),
        scan::bound_keys(said[i]) is Some,
    ensures
        scan::start_numbers(said, always(number)).len() > 0,
        scan::end_numbers(said, always(number)).len() > 0,
    decreases said.len(),
{
    if i < said.len() - 1 {
        header_gives_numbers(said.drop_last(), number, i);
    }
}

/// How many double quotes stand in a text.
pub open spec fn quotes_in(s: Seq<char>) -> nat {
    s.filter(|c: char| c == '"').len()
}

proof fn quotes_are_filtered(s: Seq<char>)
    ensures
        quote_count(s) == quotes_in(s),
        unquoted(s) == s.filter(|c: char| c != '"'),
    decreases s.len(),
{
    reveal(Seq::filter);
    if s.len() > 0 {
        quotes_are_filtered(s.drop_last());
    }
}

proof fn quotes_add_up(s: Seq<char>, t: Seq<char>)
    ensures
        quotes_in(s + t) == quotes_in(s) + quotes_in(t),
{
    Seq::filter_distributes_over_add(s, t, |c: char| c == '"');
}

proof fn quotes_in_one(c: char)
    ensures
        quotes_in(seq![c]) == if c == '"' {
            1nat
        } else {
            0
        },
{
    quotes_are_filtered(seq![c]);
    reveal_with_fuel(quote_count, 2);
    assert(seq![c].drop_last() == Seq::<char>::empty());
}

proof fn quotes_tell_the_end(s: Seq<char>, in_quote: bool)
    ensures
        ends_in_quote(s, in_quote) == ((quotes_in(s) % 2 == 1) != in_quote),
    decreases s.len(),
{
    if s.len() == 0 {
        quotes_are_filtered(s);
    } else {
        let rest = s.drop_first();
        assert(s == seq![s[0]] + rest);
        quotes_add_up(seq![s[0]], rest);
        quotes_in_one(s[0]);
        quotes_tell_the_end(
            rest,
            if s[0] == '"' {
                !in_quote
            } else {
                in_quote
            },
        );
    }
}

proof fn piece_goes_on(s: Seq<char>, in_quote: bool)
    requires
        forall|i: int|
            0 <= i < s.len() && s[i] == ' ' ==> (quotes_in(#[trigger] s.take(i)) % 2 == 1)
                != in_quote,
    ensures
        piece_len(s, in_quote) == s.len(),
    decreases s.len(),
{
    if s.len() > 0 {
        let rest = s.drop_first();
        let after = if s[0] == '"' {
            !in_quote
        } else {
            in_quote
        };
        quotes_in_one(s[0]);
        assert(s.take(0) == Seq::<char>::empty());
        quotes_are_filtered(Seq::<char>::empty());
        assert(quotes_in(s.take(0)) == 0);
        assert forall|i: int| 0 <= i < rest.len() && rest[i] == ' ' implies (quotes_in(
            #[trigger] rest.take(i),
        ) % 2 == 1) != after by {
            assert(s[i + 1] == ' ');
            assert(s.take(i + 1) == seq![s[0]] + rest.take(i));
            quotes_add_up(seq![s[0]], rest.take(i));
            assert((quotes_in(s.take(i + 1)) % 2 == 1) != in_quote);
        }
        piece_goes_on(rest, after);
    }
}

/// A line all of whose spaces stand inside quotes is one token: all of its characters but the
/// quotes, however many there are. It is none only where nothing stands on it, or a single quote.
pub proof fn piece_is_one_token(line: Seq<char>)
    requires
        forall|i: int|
            0 <= i < line.len() && line[i] == ' ' ==> quotes_in(#[trigger] line.take(i)) % 2 == 1,
    ensures
        tokens_of(line) == if line.filter(|c: char| c != '"').len() > 0 || quotes_in(line) >= 2 {
            seq![line.filter(|c: char| c != '"')]
        } else {
            Seq::empty()
        },
{
    quotes_are_filtered(line);
    piece_goes_on(line, false);
    assert(line.take(line.len() as int) == line);
    if line.len() > 0 {
        assert(seq![unquoted(line)] + Seq::<Seq<char>>::empty() == seq![unquoted(line)]);
    }
}

/// A text that holds neither a space nor a double quote is its own only token, however long it is.
pub proof fn plain_word_is_one_token(t: Seq<char>)
    requires
        t.len() > 0,
        !t.contains(' '),
        !t.contains('"'),
    ensures
        tokens_of(t) == seq![t],
{
    assert forall|i: int| 0 <= i < t.len() implies t[i] != ' ' && t[i] != '"' by {
        assert(t.contains(t[i]));
    }
    piece_is_one_token(t);
    nothing_is_filtered(t);
}

proof fn nothing_is_filtered(t: Seq<char>)
    requires
        forall|i: int| 0 <= i < t.len() ==> t[i] != '"',
    ensures
        t.filter(|c: char| c != '"') == t,
    decreases t.len(),
{
    reveal(Seq::filter);
    if t.len() > 0 {
        nothing_is_filtered(t.drop_last());
        assert(t.drop_last().push(t.last()) == t);
    }
}

/// A space that stands outside quotes separates: the tokens of a line are those in front of it and
/// then those behind it.
pub proof fn tokens_split_at_a_space(s: Seq<char>, t: Seq<char>)
    requires
        quotes_in(s) % 2 == 0,
    ensures
        tokens_of(s + seq![' '] + t) == tokens_of(s) + tokens_of(t),
{
    quotes_tell_the_end(s, false);
    space_separates(s, t);
}

/// The characters of a line that belong to tokens: all but its quotes and the spaces outside quotes.
pub open spec fn kept(line: Seq<char>, in_quote: bool) -> Seq<char>
    decreases line.len(),
{
    if line.len() == 0 {
        Seq::empty()
    } else if line[0] == '"' {
        kept(line.drop_first(), !in_quote)
    } else if line[0] == ' ' && !in_quote {
        kept(line.drop_first(), in_quote)
    } else {
        seq![line[0]] + kept(line.drop_first(), in_quote)
    }
}

proof fn kept_piece(s: Seq<char>, in_quote: bool)
    ensures
        piece_len(s, in_quote) <= s.len(),
        kept(s, in_quote) == unquoted(s.take(piece_len(s, in_quote) as int)) + (if piece_len(
            s,
            in_quote,
        ) < s.len() {
            kept(s.skip(piece_len(s, in_quote) as int + 1), false)
        } else {
            Seq::empty()
        }),
    decreases s.len(),
{
    let n = piece_len(s, in_quote) as int;
    let p = |c: char| c != '"';
    if s.len() == 0 {
        assert(s.take(0) == Seq::<char>::empty());
    } else if s[0] == ' ' && !in_quote {
        assert(s.take(0) == Seq::<char>::empty());
        assert(s.skip(1) == s.drop_first());
        assert(Seq::<char>::empty() + kept(s.skip(1), false) == kept(s.skip(1), false));
    } else {
        let rest = s.drop_first();
        let after = if s[0] == '"' {
            !in_quote
        } else {
            in_quote
        };
        kept_piece(rest, after);
        let one = seq![s[0]];
        assert(s.take(n) == one + rest.take(n - 1));
        if n < s.len() {
            assert(rest.skip(n) == s.skip(n + 1));
        }
        quotes_are_filtered(s.take(n));
        quotes_are_filtered(rest.take(n - 1));
        quotes_are_filtered(one);
        Seq::filter_distributes_over_add(one, rest.take(n - 1), p);
        reveal_with_fuel(unquoted, 2);
        assert(one.drop_last() == Seq::<char>::empty());
        assert(unquoted(one) == if s[0] == '"' {
            Seq::<char>::empty()
        } else {
            one
        });
        let tail = if n < s.len() {
            kept(s.skip(n + 1), false)
        } else {
            Seq::empty()
        };
        assert(kept(rest, after) == unquoted(rest.take(n - 1)) + tail);
        assert(unquoted(s.take(n)) == unquoted(one) + unquoted(rest.take(n - 1)));
        assert(kept(s, in_quote) =~= unquoted(s.take(n)) + tail);
    }
}

/// The tokens of a line hold all of its characters in order but its quotes and the spaces outside
/// quotes: none is lost and none is added.
pub proof fn tokens_lose_nothing(line: Seq<char>)
    ensures
        tokens_of(line).flatten() == kept(line, false),
    decreases line.len(),
{
    if line.len() > 0 {
        kept_piece(line, false);
        let n = piece_len(line, false) as int;
        let token = unquoted(line.take(n));
        let rest = if n < line.len() {
            tokens_of(line.skip(n + 1))
        } else {
            Seq::empty()
        };
        if n < line.len() {
            tokens_lose_nothing(line.skip(n + 1));
        }
        let all = seq![token] + rest;
        assert(all.drop_first() == rest);
        assert(all.flatten() == token + rest.flatten());
        if !makes_token(line.take(n)) {
            assert(token == Seq::<char>::empty());
            assert(token + rest.flatten() == rest.flatten());
        }
    }
}

/// The results of all operations are those of each partition, one partition after the other.
pub proof fn all_operations_are_collected(results: Seq<CommandResult>)
    ensures
        all_ops(results) == results.map_values(|r: CommandResult| r.ops@).flatten(),
    decreases results.len(),
{
    let f = |r: CommandResult| r.ops@;
    if results.len() > 0 {
        let front = results.drop_last();
        all_operations_are_collected(front);
        assert(results.map_values(f) == front.map_values(f).push(results.last().ops@));
        front.map_values(f).lemma_flatten_push(results.last().ops@);
    }
}

/// The results of an operation are those of a scan exactly where the first of them starts with
/// `SCAN` and a space, past the white space in front of it.
pub proof fn scans_say_so(group: Seq<OperationResult>)
    ensures
        is_scan(group) <==> group.len() > 0 && exists|pre: Seq<char>, rest: Seq<char>|
            group[0].content@ == #[trigger] (pre + "SCAN "@ + rest) && forall|i: int|
                0 <= i < pre.len() ==> text::is_whitespace(#[trigger] pre[i]),
{
    if is_scan(group) {
        scan_starts_with_its_word(group[0].content@);
    }
    if group.len() > 0 && exists|pre: Seq<char>, rest: Seq<char>|
        group[0].content@ == #[trigger] (pre + "SCAN "@ + rest) && forall|i: int|
            0 <= i < pre.len() ==> text::is_whitespace(#[trigger] pre[i]) {
        let (pre, rest) = choose|pre: Seq<char>, rest: Seq<char>|
            group[0].content@ == #[trigger] (pre + "SCAN "@ + rest) && forall|i: int|
                0 <= i < pre.len() ==> text::is_whitespace(#[trigger] pre[i]);
        reveal_strlit("SCAN ");
        let tail = "SCAN "@ + rest;
        assert(pre + "SCAN "@ + rest =~= pre + tail);
        assert(tail[0] == 'S');
        text::start_is_trimmed_of_white_space(pre, tail);
        assert(tail.subrange(0, 5) =~= "SCAN "@);
    }
}

proof fn scan_starts_with_its_word(s: Seq<char>)
    requires
        text::starts_with(text::trim_start(s), "SCAN "@),
    ensures
        exists|pre: Seq<char>, rest: Seq<char>|
            s == #[trigger] (pre + "SCAN "@ + rest) && forall|i: int|
                0 <= i < pre.len() ==> text::is_whitespace(#[trigger] pre[i]),
{
    let t = text::trim_start(s);
    text::start_loses_only_white_space(s);
    let n = s.len() - t.len();
    let pre = s.take(n);
    let rest = t.skip("SCAN "@.len() as int);
    assert(t =~= "SCAN "@ + rest);
    assert(s =~= pre + t);
    assert(s =~= pre + "SCAN "@ + rest);
    assert forall|i: int| 0 <= i < pre.len() implies text::is_whitespace(#[trigger] pre[i]) by {
        assert(pre[i] == s[i]);
    }
}

/// The entries of a scan are printed each behind two spaces, all of them, each at its place.
pub proof fn every_line_is_indented(lines: Seq<Seq<char>>)
    ensures
        indented(lines).len() == lines.len(),
        forall|i: int| 0 <= i < lines.len() ==> #[trigger] indented(lines)[i] == "  "@ + lines[i],
{
}

/// For each operation a block is printed on lines of its own, in the order of the ids, and last
/// whether the command took effect: no operation is lost.
pub proof fn every_operation_is_printed(
    results: Seq<CommandResult>,
    number: spec_fn(Seq<char>) -> u64,
    form: spec_fn(u64) -> Seq<char>,
)
    ensures
        ({
            let ids = op_ids(all_ops(results));
            let blocks = Seq::new(
                ids.len(),
                |k: int| group_text(ids[k], with_id(all_ops(results), ids[k]), number, form),
            );
            results_text(results, number, form) == blocks.map_values(
                |b: Seq<char>| b + "\n"@,
            ).flatten() + verdict(results)
        }),
{
    let ids = op_ids(all_ops(results));
    let blocks = Seq::new(
        ids.len(),
        |k: int| group_text(ids[k], with_id(all_ops(results), ids[k]), number, form),
    );
    assert(group_texts(ids, all_ops(results), number, form) == blocks);
    blocks_are_joined(blocks, verdict(results));
}

/// Blocks and a last line that are joined by newlines stand each in front of a newline, and the last
/// line behind them.
pub proof fn blocks_are_joined(blocks: Seq<Seq<char>>, last: Seq<char>)
    ensures
        text::join(blocks.push(last), "\n"@) == blocks.map_values(
            |b: Seq<char>| b + "\n"@,
        ).flatten() + last,
    decreases blocks.len(),
{
    let f = |b: Seq<char>| b + "\n"@;
    assert(blocks.push(last).drop_last() == blocks);
    if blocks.len() == 0 {
        assert(blocks.map_values(f) == Seq::<Seq<char>>::empty());
        assert(Seq::<char>::empty() + last == last);
    } else {
        let front = blocks.drop_last();
        let block = blocks.last();
        blocks_are_joined(front, block);
        assert(front.push(block) == blocks);
        assert(blocks.map_values(f) == front.map_values(f).push(f(block)));
        front.map_values(f).lemma_flatten_push(f(block));
        assert(front.map_values(f).flatten() + block + "\n"@ + last == front.map_values(
            f,
        ).flatten() + (block + "\n"@) + last);
    }
}

} // verus!
