//! The benchmark driver: reads commands from its input, one a line, and prints what each gave.
use crate::entries;
use crate::entries::order_lines;
use crate::gather;
use crate::gateway;
use crate::gateway::{any_aborted, any_failed, CommandResult, Status};
use crate::scan;
use crate::scan::{merge, print_scan, Marks};
use crate::text;
use crate::text::{decimal_text, join_texts, same_text, split_words};
use vstd::prelude::*;

pub use crate::text::error;

verus! {

/// The table that the driver's keys belong to.
pub open spec fn table_name() -> Seq<char> {
    "usertable_user"@
}

/// Whether `form_key` writes the key of a table and a number as `form` says.
pub open spec fn forms_as<N: Fn(&str, u64) -> String>(
    form_key: N,
    form: spec_fn(Seq<char>, u64) -> Seq<char>,
) -> bool {
    forall|t: &str, n: u64, s: String| #[trigger]
        form_key.ensures((t, n), s) ==> s@ == form(t@, n)
}

/// The text of a result, whichever way it went.
pub open spec fn outcome(r: Result<String, String>) -> Result<Seq<char>, Seq<char>> {
    match r {
        Ok(t) => Ok(t@),
        Err(t) => Err(t@),
    }
}

/// What the partitions that reported an error say.
pub open spec fn failures(results: Seq<CommandResult>) -> Seq<Seq<char>>
    decreases results.len(),
{
    if results.len() == 0 {
        Seq::empty()
    } else if results.last().has_err {
        failures(results.drop_last()).push(results.last().content@)
    } else {
        failures(results.drop_last())
    }
}

/// The message for a command that failed with the text `said`.
pub open spec fn failure_message(said: Seq<char>) -> Seq<char> {
    if said.len() > 0 {
        said
    } else {
        "Command failed"@
    }
}

/// Whether a partition's result takes part in a scan: it holds one operation, and that has no
/// error.
pub open spec fn takes_part(result: CommandResult) -> bool {
    result.ops@.len() == 1 && !result.ops@[0].has_err
}

/// The answers of the partitions that take part in a scan.
pub open spec fn answers(results: Seq<CommandResult>) -> Seq<Seq<char>>
    decreases results.len(),
{
    if results.len() == 0 {
        Seq::empty()
    } else if takes_part(results.last()) {
        answers(results.drop_last()).push(results.last().ops@[0].content@)
    } else {
        answers(results.drop_last())
    }
}

/// Whether `word` may be read as a key to put the results of several partitions together, when
/// `may` says which numbers may be read in a key.
pub open spec fn reads_key(
    results: Seq<CommandResult>,
    may: spec_fn(Seq<char>, Option<u64>) -> bool,
    word: Seq<char>,
) -> bool {
    !gateway::some_failed(results) && scan::reads_key(answers(results), Marks::End, may, word)
}

/// Whether the key of `table` and `n` may be written to put the results of several partitions
/// together, when `may` says which numbers may be read in a key.
pub open spec fn forms_key(
    results: Seq<CommandResult>,
    may: spec_fn(Seq<char>, Option<u64>) -> bool,
    table: Seq<char>,
    n: u64,
) -> bool {
    &&& !gateway::some_failed(results)
    &&& table == table_name()
    &&& scan::forms_number(answers(results), may, n)
}

/// What the answers of several partitions to a scan come to.
pub open spec fn scan_outcome(
    results: Seq<CommandResult>,
    read: spec_fn(Seq<char>) -> Option<u64>,
    form: spec_fn(Seq<char>, u64) -> Seq<char>,
) -> Result<Seq<char>, Seq<char>> {
    let contents = answers(results);
    if gateway::some_failed(results) {
        Err(failure_message(text::join(failures(results), "\n"@)))
    } else {
        match (
            scan::least(scan::start_numbers(contents, read)),
            scan::greatest(scan::end_numbers(contents, read)),
        ) {
            (Some(start), Some(end)) => if gateway::some_aborted(results) {
                Ok("Aborted"@)
            } else {
                Ok(
                    scan::scan_text(
                        form(table_name(), start),
                        form(table_name(), end),
                        entries::printed_lines(scan::entry_lines(contents, Marks::End), read),
                    ),
                )
            },
            _ => Ok("SCAN BEGIN\nSCAN END"@),
        }
    }
}

/// What the result of one partition comes to.
pub open spec fn single_outcome(result: CommandResult) -> Result<Seq<char>, Seq<char>> {
    if result.has_err {
        Err(failure_message(result.content@))
    } else if result.ops@.len() != 1 {
        Err("Expected 1 operation result, got "@ + text::decimal(result.ops@.len()))
    } else if gateway::reads_aborted(result.status) {
        Ok("Aborted"@)
    } else {
        Ok(result.ops@[0].content@)
    }
}

/// Processes the result of one partition.
pub fn handle_single_command_result(cmd_result: &CommandResult) -> (r: Result<String, String>)
    ensures
        outcome(r) == single_outcome(*cmd_result),
{
    if cmd_result.has_err {
        return Err(
            if !cmd_result.content.as_str().is_empty() {
                cmd_result.content.clone()
            } else {
                "Command failed".to_owned()
            },
        );
    }
    if cmd_result.ops.len() != 1 {
        let mut message = "Expected 1 operation result, got ".to_owned();
        message.append(decimal_text(cmd_result.ops.len() as u64).as_str());
        return Err(message);
    }
    match cmd_result.status {
        Status::Aborted | Status::Unrecognized { aborted: true } => Ok("Aborted".to_owned()),
        Status::Committed | Status::Unrecognized { aborted: false } => {
            Ok(cmd_result.ops[0].content.clone())
        },
    }
}

/// What the partitions that reported an error say.
fn failure_texts(cmd_results: &[CommandResult]) -> (v: Vec<String>)
    ensures
        text::texts(v@) == failures(cmd_results@),
{
    let mut v: Vec<String> = Vec::new();
    assert(text::texts(v@) == Seq::<Seq<char>>::empty());
    for i in 0..cmd_results.len()
        invariant
            text::texts(v@) == failures(cmd_results@.take(i as int)),
    {
        assert(cmd_results@.take(i + 1).drop_last() == cmd_results@.take(i as int));
        if cmd_results[i].has_err {
            let ghost before = text::texts(v@);
            v.push(cmd_results[i].content.clone());
            assert(text::texts(v@) == before.push(cmd_results@[i as int].content@));
        }
    }
    assert(cmd_results@.take(cmd_results@.len() as int) == cmd_results@);
    v
}

/// The answers of the partitions that take part in a scan.
fn collect_answers(cmd_results: &[CommandResult]) -> (v: Vec<String>)
    ensures
        text::texts(v@) == answers(cmd_results@),
{
    let mut v: Vec<String> = Vec::new();
    assert(text::texts(v@) == Seq::<Seq<char>>::empty());
    for i in 0..cmd_results.len()
        invariant
            text::texts(v@) == answers(cmd_results@.take(i as int)),
    {
        let result = &cmd_results[i];
        assert(cmd_results@.take(i + 1).drop_last() == cmd_results@.take(i as int));
        assert(cmd_results@.take(i + 1).last() == *result);
        if result.ops.len() == 1 && !result.ops[0].has_err {
            let ghost before = text::texts(v@);
            v.push(result.ops[0].content.clone());
            assert(text::texts(v@) == before.push(result.ops@[0].content@));
        }
    }
    assert(cmd_results@.take(cmd_results@.len() as int) == cmd_results@);
    v
}

/// Whether `t` holds every entry of the answers that take part in a scan, as often as it is there
/// and nothing else, between a header and the mark of the end. A scan without bounds is empty, and
/// an aborted one only marked.
pub open spec fn holds_entries(results: Seq<CommandResult>, t: Seq<char>) -> bool {
    ||| t == "SCAN BEGIN\nSCAN END"@
    ||| gateway::some_aborted(results) && t == "Aborted"@
    ||| exists|a: Seq<char>, b: Seq<char>, lines: Seq<Seq<char>>|
        t == #[trigger] scan::scan_text(a, b, lines) && lines.to_multiset() == scan::entry_lines(
            answers(results),
            Marks::End,
        ).to_multiset()
}

/// Whether `r` is what the answers of several partitions to a scan come to, whatever functions the
/// two key functions compute.
pub open spec fn is_scan_outcome<R: Fn(&str) -> Option<u64>, N: Fn(&str, u64) -> String>(
    results: Seq<CommandResult>,
    extract_key: R,
    form_key: N,
    r: Result<String, String>,
) -> bool {
    forall|
        read: spec_fn(Seq<char>) -> Option<u64>,
        form: spec_fn(Seq<char>, u64) -> Seq<char>,
    | #[trigger]
        entries::reads_as(extract_key, read) && #[trigger] forms_as(form_key, form) ==> outcome(r)
            == scan_outcome(results, read, form)
}

/// Processes the results of several partitions to a scan: finds the first and the last key of all
/// of them and prints their entries in the order of the keys.
///
/// `extract_key` reads the number in a key, `form_key` writes a key from a table and a number.
pub fn handle_scan_results<R: Fn(&str) -> Option<u64>, N: Fn(&str, u64) -> String>(
    cmd_results: &[CommandResult],
    extract_key: &R,
    form_key: &N,
) -> (r: Result<String, String>)
    requires
        forall|k: &str|
            reads_key(cmd_results@, scan::gives(*extract_key), k@)
                ==> #[trigger] extract_key.requires((k,)),
        forall|t: &str, n: u64|
            forms_key(cmd_results@, scan::gives(*extract_key), t@, n)
                ==> #[trigger] form_key.requires((t, n)),
    ensures
        gateway::some_failed(cmd_results@) <==> r is Err,
        r matches Err(e) ==> e@ == failure_message(text::join(failures(cmd_results@), "\n"@)),
        r matches Ok(t) ==> holds_entries(cmd_results@, t@),
        is_scan_outcome(cmd_results@, *extract_key, *form_key, r),
{
    if any_failed(cmd_results) {
        let said = join_texts(&failure_texts(cmd_results), "\n");
        return Err(
            if !said.as_str().is_empty() {
                said
            } else {
                "Command failed".to_owned()
            },
        );
    }
    let contents = collect_answers(cmd_results);
    let merged = merge(&contents, Marks::End, extract_key);
    let ghost all = answers(cmd_results@);
    let ghost may = scan::gives(*extract_key);
    assert forall|read: spec_fn(Seq<char>) -> Option<u64>| #[trigger]
        entries::reads_as(*extract_key, read) implies merged.start == scan::least(
        scan::start_numbers(all, read),
    ) && merged.end == scan::greatest(scan::end_numbers(all, read)) by {
        scan::bounds_are_determined(all, may, read, merged.start, merged.end);
    }
    let (first, last) = match (merged.start, merged.end) {
        (Some(a), Some(b)) => (a, b),
        _ => {
            return Ok("SCAN BEGIN\nSCAN END".to_owned());
        },
    };
    assert(scan::may_span(all, may, first, last));
    let table = "usertable_user";
    let start_key = form_key(table, first);
    let end_key = form_key(table, last);
    let ordered = order_lines(merged.lines, extract_key);
    let ghost lines = text::texts(ordered@);
    let printed = print_scan(start_key.as_str(), end_key.as_str(), ordered);
    assert(printed@ == scan::scan_text(start_key@, end_key@, lines));
    if any_aborted(cmd_results) {
        Ok("Aborted".to_owned())
    } else {
        Ok(printed)
    }
}

/// What the results of a command come to; `Err` of a text where the command could not be sent or
/// answered.
pub open spec fn command_outcome(
    result: Result<Vec<CommandResult>, String>,
    read: spec_fn(Seq<char>) -> Option<u64>,
    form: spec_fn(Seq<char>, u64) -> Seq<char>,
) -> Result<Seq<char>, Seq<char>> {
    match result {
        Ok(results) => if results@.len() == 0 {
            Err("No command results returned"@)
        } else if results@.len() == 1 {
            single_outcome(results@[0])
        } else {
            scan_outcome(results@, read, form)
        },
        Err(e) => Err(text::error_text(e@)),
    }
}

/// Whether `r` is what the results of a command come to, whatever functions the two key functions
/// compute.
pub open spec fn is_command_outcome<R: Fn(&str) -> Option<u64>, N: Fn(&str, u64) -> String>(
    result: Result<Vec<CommandResult>, String>,
    extract_key: R,
    form_key: N,
    r: Result<String, String>,
) -> bool {
    forall|
        read: spec_fn(Seq<char>) -> Option<u64>,
        form: spec_fn(Seq<char>, u64) -> Seq<char>,
    | #[trigger]
        entries::reads_as(extract_key, read) && #[trigger] forms_as(form_key, form) ==> outcome(r)
            == command_outcome(result, read, form)
}

/// Processes the results of a command. Only a scan has the results of several partitions.
pub fn handle_result<R: Fn(&str) -> Option<u64>, N: Fn(&str, u64) -> String>(
    result: Result<Vec<CommandResult>, String>,
    extract_key: &R,
    form_key: &N,
) -> (r: Result<String, String>)
    requires
        result matches Ok(results) ==> forall|k: &str|
            results@.len() > 1 && reads_key(results@, scan::gives(*extract_key), k@)
                ==> #[trigger] extract_key.requires((k,)),
        result matches Ok(results) ==> forall|t: &str, n: u64|
            results@.len() > 1 && forms_key(results@, scan::gives(*extract_key), t@, n)
                ==> #[trigger] form_key.requires((t, n)),
    ensures
        match result {
            Ok(results) => {
                &&& results@.len() == 0 ==> outcome(r) == Err::<Seq<char>, Seq<char>>(
                    "No command results returned"@,
                )
                &&& results@.len() == 1 ==> outcome(r) == single_outcome(results@[0])
                &&& results@.len() > 1 ==> (gateway::some_failed(results@) <==> r is Err)
                &&& results@.len() > 1 && gateway::some_failed(results@) ==> outcome(r) == Err::<
                    Seq<char>,
                    Seq<char>,
                >(failure_message(text::join(failures(results@), "\n"@)))
                &&& results@.len() > 1 ==> (r matches Ok(t) ==> holds_entries(results@, t@))
            },
            Err(e) => outcome(r) == Err::<Seq<char>, Seq<char>>(text::error_text(e@)),
        },
        is_command_outcome(result, *extract_key, *form_key, r),
{
    match result {
        Ok(cmd_results) => {
            if cmd_results.len() == 0 {
                Err("No command results returned".to_owned())
            } else if cmd_results.len() == 1 {
                handle_single_command_result(&cmd_results[0])
            } else {
                handle_scan_results(cmd_results.as_slice(), extract_key, form_key)
            }
        },
        Err(e) => Err(error(e.as_str())),
    }
}

/// How often a command that was aborted is sent again.
pub const MAX_RETRIES: u32 = 10;

/// What is to be done once a command was sent and answered.
#[derive(Debug)]
pub enum Attempt {
    /// Send the command again; so often has it been sent again then.
    Retry(u32),
    /// The command is done; print this.
    Done(String),
    /// Stop with this message.
    Panic(String),
}

/// What an attempt says.
pub enum AttemptView {
    Retry(nat),
    Done(Seq<char>),
    Panic(Seq<char>),
}

impl View for Attempt {
    type V = AttemptView;

    open spec fn view(&self) -> AttemptView {
        match self {
            Attempt::Retry(n) => AttemptView::Retry(*n as nat),
            Attempt::Done(t) => AttemptView::Done(t@),
            Attempt::Panic(t) => AttemptView::Panic(t@),
        }
    }
}

/// What is done after an answer, when the command has been sent again `retries` times before.
pub open spec fn next_attempt(
    answer: Result<Seq<char>, Seq<char>>,
    retries: nat,
) -> AttemptView {
    match answer {
        Ok(t) => if t != "Aborted"@ {
            AttemptView::Done(t)
        } else if retries < MAX_RETRIES {
            AttemptView::Retry(retries + 1)
        } else {
            AttemptView::Panic(
                "Command still aborted after "@ + text::decimal(MAX_RETRIES as nat) + " retries"@,
            )
        },
        Err(e) => AttemptView::Panic(e),
    }
}

/// Decides what to do after an answer: a command that was aborted is sent again, up to
/// [`MAX_RETRIES`] times.
pub fn execute_command(answer: Result<String, String>, retries: u32) -> (a: Attempt)
    ensures
        a@ == next_attempt(outcome(answer), retries as nat),
{
    match answer {
        Ok(output) => {
            if !same_text(output.as_str(), "Aborted") {
                Attempt::Done(output)
            } else if retries < MAX_RETRIES {
                Attempt::Retry(retries + 1)
            } else {
                let mut message = "Command still aborted after ".to_owned();
                message.append(decimal_text(MAX_RETRIES as u64).as_str());
                message.append(" retries");
                Attempt::Panic(message)
            }
        },
        Err(e) => Attempt::Panic(e),
    }
}

/// How a command ends when its attempts are answered by `answers` in turn, the first of them
/// after `retries` earlier ones: after how many of these answers, and with what. `None` where the
/// answers do not suffice.
pub open spec fn command_end(
    answers: Seq<Result<Seq<char>, Seq<char>>>,
    retries: nat,
) -> Option<(nat, AttemptView)>
    decreases answers.len(),
{
    if answers.len() == 0 {
        None
    } else {
        match next_attempt(answers[0], retries) {
            AttemptView::Retry(n) => match command_end(answers.drop_first(), n) {
                Some((count, end)) => Some((count + 1, end)),
                None => None,
            },
            end => Some((1, end)),
        }
    }
}

/// A command is sent at most once more than [`MAX_RETRIES`] says: so many answers always suffice.
pub proof fn command_ends(answers: Seq<Result<Seq<char>, Seq<char>>>)
    requires
        answers.len() > MAX_RETRIES,
    ensures
        command_end(answers, 0) matches Some((count, end)) && 1 <= count <= MAX_RETRIES + 1
            && !(end is Retry),
{
    command_ends_after(answers, 0);
}

proof fn command_ends_after(answers: Seq<Result<Seq<char>, Seq<char>>>, retries: nat)
    requires
        retries <= MAX_RETRIES,
        answers.len() > MAX_RETRIES - retries,
    ensures
        command_end(answers, retries) matches Some((count, end)) && 1 <= count <= MAX_RETRIES + 1
            - retries && !(end is Retry),
    decreases MAX_RETRIES - retries,
{
    if next_attempt(answers[0], retries) is Retry {
        command_ends_after(answers.drop_first(), retries + 1);
    }
}

/// A command that is aborted at most [`MAX_RETRIES`] times and then answered otherwise ends with
/// that answer, whether it is a text or a failure.
pub proof fn aborts_are_retried(answers: Seq<Result<Seq<char>, Seq<char>>>, aborts: nat)
    requires
        aborts <= MAX_RETRIES,
        aborts < answers.len(),
        forall|i: int| 0 <= i < aborts ==> #[trigger] answers[i] == Ok::<Seq<char>, Seq<char>>(
            "Aborted"@,
        ),
        answers[aborts as int] != Ok::<Seq<char>, Seq<char>>("Aborted"@),
    ensures
        command_end(answers, 0) == Some(
            (
                aborts + 1,
                match answers[aborts as int] {
                    Ok(t) => AttemptView::Done(t),
                    Err(e) => AttemptView::Panic(e),
                },
            ),
        ),
{
    aborts_are_retried_after(answers, aborts, 0);
}

proof fn aborts_are_retried_after(
    answers: Seq<Result<Seq<char>, Seq<char>>>,
    aborts: nat,
    retries: nat,
)
    requires
        retries + aborts <= MAX_RETRIES,
        aborts < answers.len(),
        forall|i: int| 0 <= i < aborts ==> #[trigger] answers[i] == Ok::<Seq<char>, Seq<char>>(
            "Aborted"@,
        ),
        answers[aborts as int] != Ok::<Seq<char>, Seq<char>>("Aborted"@),
    ensures
        command_end(answers, retries) == Some(
            (
                aborts + 1,
                match answers[aborts as int] {
                    Ok(t) => AttemptView::Done(t),
                    Err(e) => AttemptView::Panic(e),
                },
            ),
        ),
    decreases aborts,
{
    if aborts > 0 {
        assert(answers[0] == Ok::<Seq<char>, Seq<char>>("Aborted"@));
        aborts_are_retried_after(answers.drop_first(), (aborts - 1) as nat, retries + 1);
    }
}

/// A command that is aborted once more than [`MAX_RETRIES`] times ends in a failure.
pub proof fn aborts_give_up(answers: Seq<Result<Seq<char>, Seq<char>>>)
    requires
        answers.len() > MAX_RETRIES,
        forall|i: int|
            0 <= i <= MAX_RETRIES ==> #[trigger] answers[i] == Ok::<Seq<char>, Seq<char>>(
                "Aborted"@,
            ),
    ensures
        command_end(answers, 0) matches Some((count, AttemptView::Panic(_))) && count
            == MAX_RETRIES + 1,
{
    aborts_give_up_after(answers, 0);
}

proof fn aborts_give_up_after(answers: Seq<Result<Seq<char>, Seq<char>>>, retries: nat)
    requires
        retries <= MAX_RETRIES,
        answers.len() > MAX_RETRIES - retries,
        forall|i: int|
            0 <= i <= MAX_RETRIES - retries ==> #[trigger] answers[i] == Ok::<
                Seq<char>,
                Seq<char>,
            >("Aborted"@),
    ensures
        command_end(answers, retries) matches Some((count, AttemptView::Panic(_))) && count
            == MAX_RETRIES + 1 - retries,
    decreases MAX_RETRIES - retries,
{
    assert(answers[0] == Ok::<Seq<char>, Seq<char>>("Aborted"@));
    if retries < MAX_RETRIES {
        aborts_give_up_after(answers.drop_first(), retries + 1);
    }
}

/// Splits a line into tokens at white space.
pub fn tokenize(line: &str) -> (tokens: Vec<String>)
    ensures
        text::texts(tokens@) == text::words(line@),
{
    split_words(line)
}

/// What the driver does with one line of its input.
#[derive(Debug)]
pub enum Step {
    /// Nothing.
    Skip,
    /// Report this as an error.
    Complain(String),
    /// Send the operation and print what it gave.
    Execute { name: String, args: Vec<String> },
    /// Print `STOP` and end.
    Stop,
}

/// What a step says.
pub enum StepView {
    Skip,
    Complain(Seq<char>),
    Execute { name: Seq<char>, args: Seq<Seq<char>> },
    Stop,
}

impl View for Step {
    type V = StepView;

    open spec fn view(&self) -> StepView {
        match self {
            Step::Skip => StepView::Skip,
            Step::Complain(t) => StepView::Complain(t@),
            Step::Execute { name, args } => StepView::Execute {
                name: name@,
                args: text::texts(args@),
            },
            Step::Stop => StepView::Stop,
        }
    }
}

/// Whether an operation takes two arguments.
pub open spec fn takes_two(name: Seq<char>) -> bool {
    name == "PUT"@ || name == "SCAN"@ || name == "SWAP"@
}

/// Whether an operation takes one argument.
pub open spec fn takes_one(name: Seq<char>) -> bool {
    name == "GET"@ || name == "DELETE"@
}

/// What the driver does with the line `line` of the tokens `tokens`, when the upper case of the
/// first is `name`.
pub open spec fn step_for(
    name: Seq<char>,
    tokens: Seq<Seq<char>>,
    line: Seq<char>,
) -> StepView {
    if takes_two(name) {
        if tokens.len() != 3 {
            StepView::Complain("PUT/SCAN/SWAP requires 2 arguments: <key> <value>"@)
        } else {
            StepView::Execute { name, args: tokens.skip(1) }
        }
    } else if takes_one(name) {
        if tokens.len() != 2 {
            StepView::Complain(name + " requires 1 argument: <key>"@)
        } else {
            StepView::Execute { name, args: tokens.skip(1) }
        }
    } else if name == "STOP"@ {
        StepView::Stop
    } else {
        StepView::Complain("Unknown command: "@ + line)
    }
}

/// Decides what to do with the line `line` of the tokens `tokens`, when the upper case of the
/// first is `name`.
pub fn choose_step(name: String, tokens: Vec<String>, line: &str) -> (step: Step)
    ensures
        step@ == step_for(name@, text::texts(tokens@), line@),
{
    let two = same_text(name.as_str(), "PUT") || same_text(name.as_str(), "SCAN") || same_text(
        name.as_str(),
        "SWAP",
    );
    let one = same_text(name.as_str(), "GET") || same_text(name.as_str(), "DELETE");
    if two && tokens.len() != 3 {
        Step::Complain("PUT/SCAN/SWAP requires 2 arguments: <key> <value>".to_owned())
    } else if !two && one && tokens.len() != 2 {
        let mut message = name;
        message.append(" requires 1 argument: <key>");
        Step::Complain(message)
    } else if two || one {
        let ghost all = text::texts(tokens@);
        let mut tokens = tokens;
        let args = tokens.split_off(1);
        assert(text::texts(args@) == all.skip(1));
        Step::Execute { name, args }
    } else if same_text(name.as_str(), "STOP") {
        Step::Stop
    } else {
        let mut message = "Unknown command: ".to_owned();
        message.append(line);
        Step::Complain(message)
    }
}

/// What the driver does with a line of its input. The letter case of the operation does not
/// matter.
pub open spec fn line_step(line: Seq<char>) -> StepView {
    let tokens = text::words(line);
    if tokens.len() == 0 {
        StepView::Skip
    } else {
        step_for(text::uppercase(tokens[0]), tokens, line)
    }
}

/// Decides what to do with a line of input.
pub fn next_step(line: &str) -> (step: Step)
    ensures
        step@ == line_step(line@),
        ({
            let tokens = text::words(line@);
            tokens.len() > 0 && text::is_ascii_text(tokens[0]) ==> step@ == step_for(
                text::ascii_uppercase(tokens[0]),
                tokens,
                line@,
            )
        }),
{
    let tokens = tokenize(line);
    assert(text::words(line@).len() == tokens@.len());
    if tokens.len() == 0 {
        return Step::Skip;
    }
    assert(text::words(line@)[0] == tokens@[0]@);
    let name = tokens[0].as_str().to_uppercase();
    choose_step(name, tokens, line)
}

proof fn answers_are_gathered(
    results: Seq<CommandResult>,
    part: spec_fn(CommandResult) -> Seq<Seq<char>>,
)
    requires
        forall|r: CommandResult| #[trigger] part(r) == answers(seq![r]),
    ensures
        answers(results) == gather::gather(results, part),
    decreases results.len(),
{
    if results.len() > 0 {
        let r = results.last();
        answers_are_gathered(results.drop_last(), part);
        assert(seq![r].drop_last() == Seq::<CommandResult>::empty());
        reveal_with_fuel(answers, 2);
        assert(answers(results) =~= answers(results.drop_last()) + part(r));
    }
}

/// The order in which the partitions answer a scan does not matter, where the keys tell the
/// entries apart and no partition failed.
pub proof fn scan_ignores_order_of_partitions(
    a: Seq<CommandResult>,
    b: Seq<CommandResult>,
    read: spec_fn(Seq<char>) -> Option<u64>,
    form: spec_fn(Seq<char>, u64) -> Seq<char>,
)
    requires
        a.to_multiset() == b.to_multiset(),
        !gateway::some_failed(a),
        entries::keys_tell_apart(scan::entry_lines(answers(a), Marks::End), read),
    ensures
        scan_outcome(a, read, form) == scan_outcome(b, read, form),
{
    gateway::some_ignores_order(a, b);
    let answer = |r: CommandResult| answers(seq![r]);
    answers_are_gathered(a, answer);
    answers_are_gathered(b, answer);
    gather::gather_ignores_order(a, b, answer);
    scan::header_bounds_ignore_order(answers(a), answers(b), read);
    scan::entries_ignore_order(answers(a), answers(b), Marks::End);
    entries::printed_lines_ignore_order(
        scan::entry_lines(answers(a), Marks::End),
        scan::entry_lines(answers(b), Marks::End),
        read,
    );
}

/// A command that one partition aborted is sent again, as long as it may be.
pub proof fn aborted_result_is_retried(result: CommandResult, retries: nat)
    requires
        !result.has_err,
        result.ops@.len() == 1,
        gateway::reads_aborted(result.status),
        retries < MAX_RETRIES,
    ensures
        next_attempt(single_outcome(result), retries) == AttemptView::Retry(retries + 1),
{
}

/// A scan that any of several partitions aborted is sent again, as long as it may be, where the
/// headers hold a first and a last key that can be read.
pub proof fn aborted_scan_is_retried(
    results: Seq<CommandResult>,
    retries: nat,
    read: spec_fn(Seq<char>) -> Option<u64>,
    form: spec_fn(Seq<char>, u64) -> Seq<char>,
)
    requires
        !gateway::some_failed(results),
        gateway::some_aborted(results),
        scan::start_numbers(answers(results), read).len() > 0,
        scan::end_numbers(answers(results), read).len() > 0,
        retries < MAX_RETRIES,
    ensures
        next_attempt(scan_outcome(results, read, form), retries) == AttemptView::Retry(
            retries + 1,
        ),
{
    scan::least_is_lower_bound(scan::start_numbers(answers(results), read));
    scan::greatest_is_upper_bound(scan::end_numbers(answers(results), read));
}

/// What a partition committed is printed as it is, unless it reads like the mark of an aborted
/// command.
pub proof fn committed_result_is_printed(result: CommandResult, retries: nat)
    requires
        !result.has_err,
        result.ops@.len() == 1,
        !gateway::reads_aborted(result.status),
        result.ops@[0].content@ != "Aborted"@,
    ensures
        next_attempt(single_outcome(result), retries) == AttemptView::Done(
            result.ops@[0].content@,
        ),
{
}

/// A failure is never taken for a result, and never sent again.
pub proof fn failure_is_final(
    results: Seq<CommandResult>,
    retries: nat,
    read: spec_fn(Seq<char>) -> Option<u64>,
    form: spec_fn(Seq<char>, u64) -> Seq<char>,
)
    requires
        gateway::some_failed(results),
    ensures
        next_attempt(scan_outcome(results, read, form), retries) is Panic,
        results.len() == 1 ==> next_attempt(single_outcome(results[0]), retries) is Panic,
{
}

/// The answers that take part in a scan are those of the partitions with one operation that has no
/// error, all of them, in order.
pub proof fn answers_are_those_that_take_part(results: Seq<CommandResult>)
    ensures
        answers(results) == results.filter(
            |r: CommandResult| r.ops@.len() == 1 && !r.ops@[0].has_err,
        ).map_values(|r: CommandResult| r.ops@[0].content@),
    decreases results.len(),
{
    reveal(Seq::filter);
    let p = |r: CommandResult| r.ops@.len() == 1 && !r.ops@[0].has_err;
    let f = |r: CommandResult| r.ops@[0].content@;
    if results.len() > 0 {
        let front = results.drop_last();
        answers_are_those_that_take_part(front);
        if p(results.last()) {
            assert(front.filter(p).push(results.last()).map_values(f) == front.filter(
                p,
            ).map_values(f).push(f(results.last())));
        }
    } else {
        assert(results.filter(p).map_values(f) == answers(results));
    }
}

/// Every failure is reported, and nothing else, in the order of the partitions.
pub proof fn failures_are_all_reported(results: Seq<CommandResult>)
    ensures
        failures(results) == results.filter(|r: CommandResult| r.has_err).map_values(
            |r: CommandResult| r.content@,
        ),
    decreases results.len(),
{
    reveal(Seq::filter);
    let p = |r: CommandResult| r.has_err;
    let f = |r: CommandResult| r.content@;
    if results.len() > 0 {
        let front = results.drop_last();
        failures_are_all_reported(front);
        if p(results.last()) {
            assert(front.filter(p).push(results.last()).map_values(f) == front.filter(
                p,
            ).map_values(f).push(f(results.last())));
        }
    } else {
        assert(results.filter(p).map_values(f) == failures(results));
    }
}

/// A line is executed exactly where its operation is known and has as many arguments as it takes;
/// it is then sent with all of them, as they stand on the line.
pub proof fn executed_line_keeps_its_arguments(
    name: Seq<char>,
    tokens: Seq<Seq<char>>,
    line: Seq<char>,
)
    ensures
        step_for(name, tokens, line) is Execute <==> {
            ||| (name == "PUT"@ || name == "SCAN"@ || name == "SWAP"@) && tokens.len() == 3
            ||| (name == "GET"@ || name == "DELETE"@) && tokens.len() == 2
        },
        step_for(name, tokens, line) matches StepView::Execute { name: sent, args } ==> sent == name
            && tokens == seq![tokens[0]] + args,
{
    reveal_strlit("PUT");
    reveal_strlit("SCAN");
    reveal_strlit("SWAP");
    reveal_strlit("GET");
    reveal_strlit("DELETE");
    assert("GET"@.len() == 3 && "DELETE"@.len() == 6 && "PUT"@.len() == 3 && "SCAN"@.len() == 4
        && "SWAP"@.len() == 4);
    assert("GET"@[0] == 'G' && "PUT"@[0] == 'P');
    if tokens.len() > 1 {
        assert(tokens == seq![tokens[0]] + tokens.skip(1));
    }
}

/// The driver stops at a line that asks for it and at no other, and says what is wrong with a line
/// that it does not execute: how many arguments its operation takes, or that it is not known, with
/// all of the line.
pub proof fn other_lines_stop_or_are_refused(
    name: Seq<char>,
    tokens: Seq<Seq<char>>,
    line: Seq<char>,
)
    ensures
        match step_for(name, tokens, line) {
            StepView::Skip => false,
            StepView::Execute { .. } => true,
            StepView::Stop => name == "STOP"@,
            StepView::Complain(t) => if name == "PUT"@ || name == "SCAN"@ || name == "SWAP"@ {
                tokens.len() != 3 && t == "PUT/SCAN/SWAP requires 2 arguments: <key> <value>"@
            } else if name == "GET"@ || name == "DELETE"@ {
                tokens.len() != 2 && t == name + " requires 1 argument: <key>"@
            } else {
                name != "STOP"@ && t == "Unknown command: "@ + line
            },
        },
{
}

/// A line without words is passed over, and no other.
pub proof fn only_empty_lines_are_skipped(line: Seq<char>)
    ensures
        line_step(line) is Skip <==> forall|i: int|
            0 <= i < line.len() ==> text::is_whitespace(#[trigger] line[i]),
{
    let tokens = text::words(line);
    if tokens.len() > 0 {
        other_lines_stop_or_are_refused(text::uppercase(tokens[0]), tokens, line);
    }
    text::unbroken_text_is_one_word(line);
    if tokens.len() == 0 {
        text::words_lose_nothing(line);
        let p = |c: char| !text::is_whitespace(c);
        assert forall|i: int| 0 <= i < line.len() implies text::is_whitespace(#[trigger] line[i]) by {
            if p(line[i]) {
                line.lemma_filter_contains(p, i);
                assert(line.filter(p).contains(line[i]));
            }
        }
    }
}

/// What is done with a line depends on its words alone, but for the report of a line that is not
/// known.
pub proof fn words_decide_what_is_done(a: Seq<char>, b: Seq<char>)
    requires
        text::words(a) == text::words(b),
    ensures
        line_step(a) == line_step(b) || (line_step(a) is Complain && line_step(b) is Complain),
        line_step(a) matches StepView::Execute { name, args } ==> name == text::uppercase(
            text::words(a)[0],
        ) && text::words(a) == seq![text::words(a)[0]] + args,
{
    let tokens = text::words(a);
    if tokens.len() > 0 {
        executed_line_keeps_its_arguments(text::uppercase(tokens[0]), tokens, a);
    }
}

} // verus!
