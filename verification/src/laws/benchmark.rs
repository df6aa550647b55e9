//! What the benchmark driver promises.
use crate::benchmark;
use crate::benchmark::{
    choose_step, execute_command, handle_result, handle_scan_results,
    handle_single_command_result, next_step, tokenize, Attempt, Step,
};
use crate::entries;
use crate::gateway;
use crate::gateway::{CommandResult, Status};
use crate::laws;
use crate::scan;
use crate::scan::Marks;
use crate::text;
use vstd::prelude::*;

verus! {

/// Whether `extract_key` always reads a key as `read` says.
pub open spec fn reads<R: Fn(&str) -> Option<u64>>(
    extract_key: R,
    read: spec_fn(Seq<char>) -> Option<u64>,
) -> bool {
    forall|k: &str, n: Option<u64>| #[trigger] extract_key.ensures((k,), n) ==> n == read(k@)
}

/// Whether `form_key` always writes a key as `form` says.
pub open spec fn writes<N: Fn(&str, u64) -> String>(
    form_key: N,
    form: spec_fn(Seq<char>, u64) -> Seq<char>,
) -> bool {
    forall|t: &str, n: u64, s: String| #[trigger]
        form_key.ensures((t, n), s) ==> s@ == form(t@, n)
}

/// What the partitions say that take part in a scan: those with one operation that has no error.
pub open spec fn sound_answers(results: Seq<CommandResult>) -> Seq<Seq<char>> {
    results.filter(|r: CommandResult| r.ops@.len() == 1 && !r.ops@[0].has_err).map_values(
        |r: CommandResult| r.ops@[0].content@,
    )
}

/// The entries of an answer: its lines below the first, trimmed, but for empty ones and those that
/// hold `SCAN END`.
pub open spec fn answer_entries(content: Seq<char>) -> Seq<Seq<char>> {
    let lines = text::lines(content);
    (if lines.len() > 0 {
        lines.drop_first()
    } else {
        lines
    }).map_values(|l: Seq<char>| text::trim(l)).filter(|l: Seq<char>| l.len() > 0).filter(
        |l: Seq<char>| !text::contains(l, "SCAN END"@),
    )
}

proof fn answer_entries_are_kept(contents: Seq<Seq<char>>)
    ensures
        scan::entry_lines(contents, Marks::End) == contents.map_values(
            |c: Seq<char>| answer_entries(c),
        ).flatten(),
{
    scan::all_entries_are_kept(contents);
    let f = |c: Seq<char>|
        scan::body(c).filter(|l: Seq<char>| !text::contains(l, "SCAN END"@));
    let g = |c: Seq<char>| answer_entries(c);
    assert forall|i: int| 0 <= i < contents.len() implies f(contents[i]) == g(
        #[trigger] contents[i],
    ) by {
        let lines = text::lines(contents[i]);
        if lines.len() > 0 {
            scan::filled_lines_are_trimmed(lines.drop_first());
        } else {
            scan::filled_lines_are_trimmed(lines);
        }
    }
    assert(contents.map_values(f) == contents.map_values(g));
}

/// The answers of several partitions, none of which failed or aborted, are merged into one scan: it
/// runs from the least first key to the greatest last key, and lists every entry of every answer
/// that takes part exactly once, in the order of the keys.
pub proof fn merged_scan_lists_every_entry<
    R: Fn(&str) -> Option<u64>,
    N: Fn(&str, u64) -> String,
>(
    results: &[CommandResult],
    extract_key: R,
    form_key: N,
    r: Result<String, String>,
    read: spec_fn(Seq<char>) -> Option<u64>,
    form: spec_fn(Seq<char>, u64) -> Seq<char>,
    start: u64,
    end: u64,
)
    requires
        call_ensures(handle_scan_results::<R, N>, (results, &extract_key, &form_key), r),
        reads(extract_key, read),
        writes(form_key, form),
        forall|i: int|
            0 <= i < results@.len() ==> !(#[trigger] results@[i]).has_err && results@[i].status
                != Status::Aborted,
        laws::scan::is_start(sound_answers(results@), read, start),
        laws::scan::is_end(sound_answers(results@), read, end),
    ensures
        r matches Ok(t) && exists|lines: Seq<Seq<char>>|
            laws::scan::lists_in_order(
                lines,
                sound_answers(results@).map_values(|c: Seq<char>| answer_entries(c)).flatten(),
                read,
            ) && #[trigger] laws::scan::prints_scan(
                t@,
                form("usertable_user"@, start),
                form("usertable_user"@, end),
                lines,
            ),
{
    assert(entries::reads_as(extract_key, read));
    assert(benchmark::forms_as(form_key, form));
    benchmark::answers_are_those_that_take_part(results@);
    let contents = benchmark::answers(results@);
    scan::merged_bounds_span_all_headers(contents, read);
    let i = choose|i: int|
        0 <= i < contents.len() && scan::first_number(#[trigger] contents[i], read) == Some(start);
    let j = choose|j: int|
        0 <= j < contents.len() && scan::last_number(#[trigger] contents[j], read) == Some(end);
    assert(scan::least(scan::start_numbers(contents, read)) == Some(start));
    assert(scan::greatest(scan::end_numbers(contents, read)) == Some(end));
    answer_entries_are_kept(contents);
    let entries = scan::entry_lines(contents, Marks::End);
    let lines = entries::printed_lines(entries, read);
    laws::scan::printed_lines_list_in_order(entries, read);
    scan::printed_scan_holds_all_lines(
        form("usertable_user"@, start),
        form("usertable_user"@, end),
        lines,
    );
    assert(laws::scan::prints_scan(
        r->Ok_0@,
        form("usertable_user"@, start),
        form("usertable_user"@, end),
        lines,
    ));
}

/// Whatever the key functions do, what is printed of a scan that did not fail or abort and is not
/// empty is a header, every entry of every answer that takes part exactly once, and the mark of the
/// end.
pub proof fn merged_scan_loses_no_entry<R: Fn(&str) -> Option<u64>, N: Fn(&str, u64) -> String>(
    results: &[CommandResult],
    extract_key: R,
    form_key: N,
    r: Result<String, String>,
)
    requires
        call_ensures(handle_scan_results::<R, N>, (results, &extract_key, &form_key), r),
        forall|i: int|
            0 <= i < results@.len() ==> !(#[trigger] results@[i]).has_err && results@[i].status
                != Status::Aborted,
    ensures
        r matches Ok(t) && (t@ == "SCAN BEGIN\nSCAN END"@ || exists|
            a: Seq<char>,
            b: Seq<char>,
            lines: Seq<Seq<char>>,
        | #[trigger]
            laws::scan::prints_scan(t@, a, b, lines) && lines.to_multiset() == sound_answers(
                results@,
            ).map_values(|c: Seq<char>| answer_entries(c)).flatten().to_multiset()),
{
    benchmark::answers_are_those_that_take_part(results@);
    let contents = benchmark::answers(results@);
    answer_entries_are_kept(contents);
    assert(r is Ok);
    let t = r->Ok_0@;
    assert(benchmark::holds_entries(results@, t));
    if t != "SCAN BEGIN\nSCAN END"@ {
        let (a, b, lines) = choose|a: Seq<char>, b: Seq<char>, lines: Seq<Seq<char>>|
            t == #[trigger] scan::scan_text(a, b, lines) && lines.to_multiset()
                == scan::entry_lines(contents, Marks::End).to_multiset();
        scan::printed_scan_holds_all_lines(a, b, lines);
        assert(laws::scan::prints_scan(t, a, b, lines));
    }
}

/// Where no partition failed, a scan of which no answer that takes part names a first key that can
/// be read, or none names such a last key, is printed as empty.
pub proof fn scan_without_bounds_is_empty<R: Fn(&str) -> Option<u64>, N: Fn(&str, u64) -> String>(
    results: &[CommandResult],
    extract_key: R,
    form_key: N,
    r: Result<String, String>,
    read: spec_fn(Seq<char>) -> Option<u64>,
    form: spec_fn(Seq<char>, u64) -> Seq<char>,
)
    requires
        call_ensures(handle_scan_results::<R, N>, (results, &extract_key, &form_key), r),
        reads(extract_key, read),
        writes(form_key, form),
        forall|i: int| 0 <= i < results@.len() ==> !(#[trigger] results@[i]).has_err,
        (forall|i: int|
            0 <= i < sound_answers(results@).len() ==> scan::first_number(
                #[trigger] sound_answers(results@)[i],
                read,
            ) is None) || (forall|i: int|
            0 <= i < sound_answers(results@).len() ==> scan::last_number(
                #[trigger] sound_answers(results@)[i],
                read,
            ) is None),
    ensures
        r matches Ok(t) && t@ == "SCAN BEGIN\nSCAN END"@,
{
    assert(entries::reads_as(extract_key, read));
    assert(benchmark::forms_as(form_key, form));
    benchmark::answers_are_those_that_take_part(results@);
    let contents = benchmark::answers(results@);
    assert(contents == sound_answers(results@));
    scan::merged_bounds_span_all_headers(contents, read);
    if let (Some(m), Some(n)) = (
        scan::least(scan::start_numbers(contents, read)),
        scan::greatest(scan::end_numbers(contents, read)),
    ) {
        let i = choose|i: int|
            0 <= i < contents.len() && scan::first_number(#[trigger] contents[i], read) == Some(m);
        let j = choose|j: int|
            0 <= j < contents.len() && scan::last_number(#[trigger] contents[j], read) == Some(n);
        assert(scan::first_number(sound_answers(results@)[i], read) is Some);
        assert(scan::last_number(sound_answers(results@)[j], read) is Some);
    }
}

/// Where no partition failed and both bounds are known, the scan counts as aborted as soon as any
/// partition aborted.
pub proof fn any_abort_aborts_the_scan<R: Fn(&str) -> Option<u64>, N: Fn(&str, u64) -> String>(
    results: &[CommandResult],
    extract_key: R,
    form_key: N,
    r: Result<String, String>,
    read: spec_fn(Seq<char>) -> Option<u64>,
    form: spec_fn(Seq<char>, u64) -> Seq<char>,
    start: u64,
    end: u64,
    i: int,
)
    requires
        call_ensures(handle_scan_results::<R, N>, (results, &extract_key, &form_key), r),
        reads(extract_key, read),
        writes(form_key, form),
        forall|i: int| 0 <= i < results@.len() ==> !(#[trigger] results@[i]).has_err,
        laws::scan::is_start(sound_answers(results@), read, start),
        laws::scan::is_end(sound_answers(results@), read, end),
        0 <= i < results@.len(),
        results@[i].status == Status::Aborted,
    ensures
        r matches Ok(t) && t@ == "Aborted"@,
{
    assert(entries::reads_as(extract_key, read));
    assert(benchmark::forms_as(form_key, form));
    benchmark::answers_are_those_that_take_part(results@);
    scan::merged_bounds_span_all_headers(benchmark::answers(results@), read);
    assert(gateway::some_aborted(results@));
}

/// What failed partitions say: all of them, each on a line of its own, or that the command failed
/// where they say nothing.
pub open spec fn failure_report(results: Seq<CommandResult>) -> Seq<char> {
    let said = results.filter(|r: CommandResult| r.has_err).map_values(
        |r: CommandResult| r.content@,
    );
    if said.len() == 0 || (said.len() == 1 && said[0].len() == 0) {
        "Command failed"@
    } else {
        said[0] + said.drop_first().map_values(|p: Seq<char>| "\n"@ + p).flatten()
    }
}

/// A scan fails exactly where a partition failed, and reports what each of those says, whatever the
/// key functions do.
pub proof fn scan_reports_every_failure<R: Fn(&str) -> Option<u64>, N: Fn(&str, u64) -> String>(
    results: &[CommandResult],
    extract_key: R,
    form_key: N,
    r: Result<String, String>,
)
    requires
        call_ensures(handle_scan_results::<R, N>, (results, &extract_key, &form_key), r),
    ensures
        r is Err <==> exists|i: int| 0 <= i < results@.len() && (#[trigger] results@[i]).has_err,
        r matches Err(e) ==> e@ == failure_report(results@),
{
    if gateway::some_failed(results@) {
        failures_are_reported(results@);
    }
}

proof fn failures_are_reported(results: Seq<CommandResult>)
    requires
        gateway::some_failed(results),
    ensures
        benchmark::failure_message(text::join(benchmark::failures(results), "\n"@))
            == failure_report(results),
{
    benchmark::failures_are_all_reported(results);
    let p = |r: CommandResult| r.has_err;
    let said = benchmark::failures(results);
    let i = choose|i: int| 0 <= i < results.len() && (#[trigger] results[i]).has_err;
    results.lemma_filter_contains(p, i);
    assert(results.filter(p).contains(results[i]));
    assert(said.len() > 0);
    text::joined_text_is_its_parts(said, "\n"@);
    reveal_strlit("\n");
    let others = said.drop_first().map_values(|p: Seq<char>| "\n"@ + p);
    if said.len() == 1 {
        assert(others == Seq::<Seq<char>>::empty());
        assert(said[0] + others.flatten() == said[0]);
    } else {
        assert(others.flatten() == others.first() + others.drop_first().flatten());
        assert(others.first().len() > 0);
    }
}

/// The result of one partition comes to its error, or to the content of its only operation, or to
/// the mark of an aborted command.
pub proof fn one_result_is_handed_on(result: CommandResult, r: Result<String, String>)
    requires
        call_ensures(handle_single_command_result, (&result,), r),
    ensures
        r is Err <==> result.has_err || result.ops@.len() != 1,
        r matches Err(e) ==> e@ == if !result.has_err {
            "Expected 1 operation result, got "@ + text::decimal(result.ops@.len())
        } else if result.content@.len() > 0 {
            result.content@
        } else {
            "Command failed"@
        },
        r matches Ok(t) ==> t@ == match result.status {
            Status::Committed | Status::Unrecognized { aborted: false } => result.ops@[0].content@,
            Status::Aborted | Status::Unrecognized { aborted: true } => "Aborted"@,
        },
{
}

/// A command with one result comes to what that result comes to, and one with several to what they
/// come to as a scan; one without results and one that was not answered are errors.
pub proof fn results_are_handled_by_their_number<
    R: Fn(&str) -> Option<u64>,
    N: Fn(&str, u64) -> String,
>(
    result: Result<Vec<CommandResult>, String>,
    extract_key: R,
    form_key: N,
    r: Result<String, String>,
    one: Result<String, String>,
    several: Result<String, String>,
    read: spec_fn(Seq<char>) -> Option<u64>,
    form: spec_fn(Seq<char>, u64) -> Seq<char>,
)
    requires
        call_ensures(handle_result::<R, N>, (result, &extract_key, &form_key), r),
        reads(extract_key, read),
        writes(form_key, form),
        result matches Ok(results) ==> results@.len() == 1 ==> call_ensures(
            handle_single_command_result,
            (&results@[0],),
            one,
        ),
        result matches Ok(results) ==> exists|slice: &[CommandResult]|
            slice@ == results@ && #[trigger] call_ensures(
                handle_scan_results::<R, N>,
                (slice, &extract_key, &form_key),
                several,
            ),
    ensures
        match result {
            Ok(results) => if results@.len() == 0 {
                r matches Err(e) && e@ == "No command results returned"@
            } else {
                match (
                    r,
                    if results@.len() == 1 {
                        one
                    } else {
                        several
                    },
                ) {
                    (Ok(a), Ok(b)) => a@ == b@,
                    (Err(a), Err(b)) => a@ == b@,
                    _ => false,
                }
            },
            Err(e) => r matches Err(t) && t@ == "ERROR "@ + e@,
        },
{
    assert(entries::reads_as(extract_key, read));
    assert(benchmark::forms_as(form_key, form));
}

/// A command with several results fails exactly where one of them failed, and says what those say,
/// whatever the key functions do.
pub proof fn command_reports_every_failure<
    R: Fn(&str) -> Option<u64>,
    N: Fn(&str, u64) -> String,
>(
    results: Vec<CommandResult>,
    extract_key: R,
    form_key: N,
    r: Result<String, String>,
)
    requires
        call_ensures(
            handle_result::<R, N>,
            (Ok::<Vec<CommandResult>, String>(results), &extract_key, &form_key),
            r,
        ),
        results@.len() > 1,
    ensures
        r is Err <==> exists|i: int| 0 <= i < results@.len() && (#[trigger] results@[i]).has_err,
        r matches Err(e) ==> e@ == failure_report(results@),
{
    if gateway::some_failed(results@) {
        failures_are_reported(results@);
    }
}

/// An aborted command is sent again up to ten times and then given up; any other answer ends it at
/// once, with all that it says.
pub proof fn only_aborted_commands_are_sent_again(
    answer: Result<String, String>,
    retries: u32,
    attempt: Attempt,
)
    requires
        call_ensures(execute_command, (answer, retries), attempt),
    ensures
        match answer {
            Ok(t) => if t@ != "Aborted"@ {
                attempt matches Attempt::Done(said) && said@ == t@
            } else if retries < 10 {
                attempt == Attempt::Retry((retries + 1) as u32)
            } else {
                attempt matches Attempt::Panic(said) && said@
                    == "Command still aborted after 10 retries"@
            },
            Err(e) => attempt matches Attempt::Panic(said) && said@ == e@,
        },
{
    reveal_with_fuel(text::decimal, 3);
    reveal_strlit("Command still aborted after ");
    reveal_strlit(" retries");
    reveal_strlit("Command still aborted after 10 retries");
    assert(text::decimal(10) =~= seq!['1', '0']);
    assert("Command still aborted after "@ + text::decimal(10) + " retries"@
        =~= "Command still aborted after 10 retries"@);
}

/// The tokens of a line hold its characters but for the white space, in order; none of them is
/// empty or holds white space.
pub proof fn benchmark_tokens_lose_nothing(line: &str, tokens: Vec<String>)
    requires
        call_ensures(tokenize, (line,), tokens),
    ensures
        tokens@.map_values(|t: String| t@).flatten() == line@.filter(
            |c: char| !text::is_whitespace(c),
        ),
        forall|i: int|
            0 <= i < tokens@.len() ==> (#[trigger] tokens@[i])@.len() > 0 && forall|k: int|
                0 <= k < tokens@[i]@.len() ==> !text::is_whitespace(#[trigger] tokens@[i]@[k]),
{
    text::words_lose_nothing(line@);
    text::words_are_words(line@);
    assert(text::texts(tokens@) == tokens@.map_values(|t: String| t@));
    assert forall|i: int| 0 <= i < tokens@.len() implies (#[trigger] tokens@[i])@.len() > 0
        && forall|k: int|
        0 <= k < tokens@[i]@.len() ==> !text::is_whitespace(#[trigger] tokens@[i]@[k]) by {
        assert(text::words(line@)[i] == tokens@[i]@);
    }
}

/// The tokens of a line are those in front of any of its white spaces and then those behind it; a
/// line without white space is its own only token.
pub proof fn benchmark_tokens_are_split_at_white_space(
    line: &str,
    tokens: Vec<String>,
    at: int,
    front: &str,
    first: Vec<String>,
    back: &str,
    second: Vec<String>,
)
    requires
        call_ensures(tokenize, (line,), tokens),
        call_ensures(tokenize, (front,), first),
        call_ensures(tokenize, (back,), second),
    ensures
        0 <= at < line@.len() && text::is_whitespace(line@[at]) && front@ == line@.take(at)
            && back@ == line@.skip(at + 1) ==> tokens@.map_values(|t: String| t@)
            == first@.map_values(|t: String| t@) + second@.map_values(|t: String| t@),
        line@.len() > 0 && (forall|i: int|
            0 <= i < line@.len() ==> !text::is_whitespace(#[trigger] line@[i]))
            ==> tokens@.map_values(|t: String| t@) == seq![line@],
{
    assert(text::texts(tokens@) == tokens@.map_values(|t: String| t@));
    assert(text::texts(first@) == first@.map_values(|t: String| t@));
    assert(text::texts(second@) == second@.map_values(|t: String| t@));
    text::unbroken_text_is_one_word(line@);
    if 0 <= at < line@.len() && text::is_whitespace(line@[at]) && front@ == line@.take(at) && back@
        == line@.skip(at + 1) {
        text::words_split_at_whitespace(front@, line@[at], back@);
        assert(line@ == front@ + seq![line@[at]] + back@);
    }
}

/// A line whose first word is, in upper case, an operation that takes as many arguments as there
/// are words behind it is executed with exactly these; no other line is executed.
pub proof fn benchmark_line_is_executed_with_its_arguments(
    name: String,
    tokens: Vec<String>,
    line: &str,
    step: Step,
)
    requires
        call_ensures(choose_step, (name, tokens, line), step),
    ensures
        step is Execute <==> {
            ||| (name@ == "PUT"@ || name@ == "SCAN"@ || name@ == "SWAP"@) && tokens@.len() == 3
            ||| (name@ == "GET"@ || name@ == "DELETE"@) && tokens@.len() == 2
        },
        step matches Step::Execute { name: sent, args } ==> sent@ == name@ && args@.len() + 1
            == tokens@.len() && forall|i: int|
            0 <= i < args@.len() ==> (#[trigger] args@[i])@ == tokens@[i + 1]@,
        step is Stop <==> name@ == "STOP"@,
        step !is Skip,
        step matches Step::Complain(t) ==> t@ == if name@ == "PUT"@ || name@ == "SCAN"@ || name@
            == "SWAP"@ {
            "PUT/SCAN/SWAP requires 2 arguments: <key> <value>"@
        } else if name@ == "GET"@ || name@ == "DELETE"@ {
            name@ + " requires 1 argument: <key>"@
        } else {
            "Unknown command: "@ + line@
        },
{
    let all = text::texts(tokens@);
    benchmark::executed_line_keeps_its_arguments(name@, all, line@);
    benchmark::other_lines_stop_or_are_refused(name@, all, line@);
    reveal_strlit("STOP");
    reveal_strlit("PUT");
    reveal_strlit("SCAN");
    reveal_strlit("SWAP");
    reveal_strlit("GET");
    reveal_strlit("DELETE");
    assert("STOP"@[0] == 'S' && "STOP"@[1] == 'T' && "PUT"@[0] == 'P' && "SCAN"@[1] == 'C'
        && "SWAP"@[1] == 'W' && "GET"@[0] == 'G' && "DELETE"@[0] == 'D');
    if let Step::Execute { name: sent, args } = step {
        let given = text::texts(args@);
        assert(all == seq![all[0]] + given);
        assert forall|i: int| 0 <= i < args@.len() implies (#[trigger] args@[i])@ == tokens@[i
            + 1]@ by {
            assert(given[i] == args@[i]@);
            assert(all[i + 1] == given[i]);
        }
    }
}

/// What is done with a line is what is done with its words, the first of them in upper case; only a
/// line of white space is passed over.
pub proof fn benchmark_line_is_its_words(
    line: &str,
    step: Step,
    tokens: Vec<String>,
    word: &str,
    name: String,
    chosen: Step,
)
    requires
        call_ensures(next_step, (line,), step),
        call_ensures(tokenize, (line,), tokens),
        tokens@.len() > 0 ==> word@ == tokens@[0]@,
        call_ensures(str::to_uppercase, (word,), name),
        call_ensures(choose_step, (name, tokens, line), chosen),
    ensures
        step is Skip <==> forall|i: int|
            0 <= i < line@.len() ==> text::is_whitespace(#[trigger] line@[i]),
        step !is Skip ==> match (step, chosen) {
            (Step::Complain(a), Step::Complain(b)) => a@ == b@,
            (Step::Execute { name: a, args: x }, Step::Execute { name: b, args: y }) => a@ == b@
                && x@.map_values(|t: String| t@) == y@.map_values(|t: String| t@),
            (Step::Stop, Step::Stop) => true,
            _ => false,
        },
{
    benchmark::only_empty_lines_are_skipped(line@);
    if tokens@.len() > 0 {
        assert(text::words(line@)[0] == tokens@[0]@);
    }
}

} // verus!
